//! Geometry and rendering queries: each maze cell owns a fixed-size box of
//! drawing coordinates, and the board is a character matrix whose open and
//! closed boundary segments reflect the maze's passable moves exactly.
//!
//! The board has `2 * height + 1` rows and `width * cell_width + 1` columns.
//! Odd rows cut through a row of cells: every `cell_width`-th column is a
//! vertical boundary, blank exactly when the move across it is allowed.
//! Even rows separate two rows of cells: their segments are blank exactly
//! when the vertical move across them is allowed, and each corner glyph is
//! recomputed from the four segments that meet it.

use vstd::prelude::*;
use crate::maze::{CellBox, Direction, Joystick, Maze, Position};

verus! {

/// Maze position locator.
pub trait Locate<T> {
    /// When a value can be located on this board.
    spec fn locatable(&self, t: &T) -> bool;

    /// The drawing position the value maps to.
    spec fn located(&self, t: &T) -> Position;

    /// Locate the centre of the cell box for the given value.
    fn locate(&self, t: &T) -> (r: Position)
        requires
            self.locatable(t),
        ensures
            r == self.located(t),
    ;
}

/// Rendering view of a maze: each cell is drawn `cell_width` columns wide
/// and `cell_height` rows tall.
pub struct MazeUI<'a> {
    pub cell_width: u16,
    pub cell_height: u16,
    pub maze: &'a Maze,
}

/// The centre of `p`'s cell box.
pub open spec fn spec_locate(ui: MazeUI, p: Position) -> Position {
    Position {
        x: (p.x * ui.cell_width + ui.cell_width / 2) as u16,
        y: (p.y * ui.cell_height + ui.cell_height / 2) as u16,
    }
}

/// The vertical boundary left of cell `(x, y)` is open: the cell exists and
/// a left move from it is allowed.
pub open spec fn vert_open(m: Maze, x: int, y: int) -> bool {
    &&& 1 <= x < m.width
    &&& 0 <= y < m.height
    &&& m.spec_move_pos(Position { x: x as u16, y: y as u16 }, Direction::Left) is Some
}

/// The horizontal boundary above cell `(x, y)` is open: the cell exists and
/// an upward move from it is allowed.
pub open spec fn horiz_open(m: Maze, x: int, y: int) -> bool {
    &&& 0 <= x < m.width
    &&& 1 <= y < m.height
    &&& m.spec_move_pos(Position { x: x as u16, y: y as u16 }, Direction::Up) is Some
}

/// The glyph the closed grid puts at boundary intersection `(i, j)`.
pub open spec fn grid_glyph(m: Maze, cw: int, i: int, j: int) -> char {
    if i == 0 {
        if j == 0 {
            '┌'
        } else if j == m.width * cw {
            '┐'
        } else {
            '┬'
        }
    } else if i == 2 * m.height {
        if j == 0 {
            '└'
        } else if j == m.width * cw {
            '┘'
        } else {
            '┴'
        }
    } else {
        if j == 0 {
            '├'
        } else if j == m.width * cw {
            '┤'
        } else {
            '┼'
        }
    }
}

/// The board character at `(i, j)` before corners are recomputed: odd rows
/// hold vertical boundaries and cell interiors, even rows hold horizontal
/// boundaries, and intersections still carry the closed-grid glyph.
pub open spec fn wall_char(m: Maze, cw: int, i: int, j: int) -> char {
    let x = j / cw;
    let y = i / 2;
    if i % 2 == 1 {
        if j % cw == 0 {
            if vert_open(m, x, y) {
                ' '
            } else {
                '│'
            }
        } else {
            ' '
        }
    } else {
        if j % cw != 0 {
            if horiz_open(m, x, y) {
                ' '
            } else {
                '─'
            }
        } else {
            grid_glyph(m, cw, i, j)
        }
    }
}

/// Some boundary segment meeting the intersection of cell corner `(x, y)`
/// is open, so the grid glyph there has to be recomputed.
pub open spec fn corner_open(m: Maze, x: int, y: int) -> bool {
    vert_open(m, x, y - 1) || vert_open(m, x, y) || horiz_open(m, x - 1, y) || horiz_open(m, x, y)
}

/// The junction glyph for an intersection, chosen by which of the four
/// neighbouring segments (up, left, down, right) still stand.
pub open spec fn corner_glyph(u: char, l: char, d: char, r: char) -> char {
    if u == '│' {
        if l == '─' {
            if d == '│' {
                if r == '─' {
                    '┼'
                } else {
                    '┤'
                }
            } else {
                if r == '─' {
                    '┴'
                } else {
                    '┘'
                }
            }
        } else {
            if d == '│' {
                if r == '─' {
                    '├'
                } else {
                    '│'
                }
            } else {
                if r == '─' {
                    '└'
                } else {
                    '╵'
                }
            }
        }
    } else {
        if l == '─' {
            if d == '│' {
                if r == '─' {
                    '┬'
                } else {
                    '┐'
                }
            } else {
                if r == '─' {
                    '─'
                } else {
                    '╴'
                }
            }
        } else {
            if d == '│' {
                if r == '─' {
                    '┌'
                } else {
                    '╷'
                }
            } else {
                if r == '─' {
                    '╶'
                } else {
                    ' '
                }
            }
        }
    }
}

/// The finished board character at `(i, j)`: a boundary segment or interior
/// blank, except at intersections, whose glyph is recomputed from the four
/// neighbouring segments whenever one of them is open.
pub open spec fn board_char(m: Maze, cw: int, i: int, j: int) -> char {
    let bh = 2 * m.height + 1;
    let bw = m.width * cw + 1;
    let x = j / cw;
    let y = i / 2;
    if i % 2 == 0 && j % cw == 0 {
        if corner_open(m, x, y) {
            let u = if i > 0 {
                wall_char(m, cw, i - 1, j)
            } else {
                ' '
            };
            let l = if j > 0 {
                wall_char(m, cw, i, j - 1)
            } else {
                ' '
            };
            let d = if i < bh - 1 {
                wall_char(m, cw, i + 1, j)
            } else {
                ' '
            };
            let r = if j < bw - 1 {
                wall_char(m, cw, i, j + 1)
            } else {
                ' '
            };
            corner_glyph(u, l, d, r)
        } else {
            grid_glyph(m, cw, i, j)
        }
    } else {
        wall_char(m, cw, i, j)
    }
}

impl<'a> MazeUI<'a> {
    /// Invariant: the maze is well formed and the board fits the `u16`
    /// coordinate space; cells are at least two columns wide and exactly two
    /// rows tall.
    pub open spec fn wf(self) -> bool {
        &&& self.maze.wf()
        &&& self.cell_width >= 2
        &&& self.cell_height == 2
        &&& self.maze.width * self.cell_width <= u16::MAX
        &&& self.maze.height * self.cell_height <= u16::MAX
    }

    /// Compute the bounding box of cell `p` in drawing coordinates.
    pub fn cell_box(&self, p: &Position) -> (r: CellBox)
        requires
            self.wf(),
            self.maze.on_grid(*p),
        ensures
            r.top == p.y * self.cell_height,
            r.left == p.x * self.cell_width,
            r.bottom == p.y * self.cell_height + self.cell_height,
            r.right == p.x * self.cell_width + self.cell_width,
    {
        proof {
            assert(p.y * self.cell_height + self.cell_height <= self.maze.height
                * self.cell_height && p.x * self.cell_width + self.cell_width <= self.maze.width
                * self.cell_width) by (nonlinear_arith)
                requires
                    p.y < self.maze.height,
                    p.x < self.maze.width,
                    self.cell_height >= 1,
                    self.cell_width >= 1,
            ;
        }
        CellBox {
            top: p.y as usize * self.cell_height as usize,
            left: p.x as usize * self.cell_width as usize,
            bottom: p.y as usize * self.cell_height as usize + self.cell_height as usize,
            right: p.x as usize * self.cell_width as usize + self.cell_width as usize,
        }
    }

    /// The drawn board's dimensions `(width, height)`.
    pub fn dimensions(&self) -> (r: (u16, u16))
        requires
            self.wf(),
        ensures
            r.0 == self.maze.width * self.cell_width,
            r.1 == self.maze.height * self.cell_height,
    {
        (self.maze.width * self.cell_width, self.maze.height * self.cell_height)
    }

    /// The drawing position of the exit cell's centre.
    pub fn exit(&self) -> (r: Position)
        requires
            self.wf(),
        ensures
            r == spec_locate(*self, self.maze.spec_exit_pos()),
    {
        let p = self.maze.cell_to_pos(self.maze.exit);
        self.locate(&p)
    }
}

impl<'a> Locate<Position> for MazeUI<'a> {
    open spec fn locatable(&self, p: &Position) -> bool {
        self.wf() && self.maze.on_grid(*p)
    }

    open spec fn located(&self, p: &Position) -> Position {
        spec_locate(*self, *p)
    }

    fn locate(&self, p: &Position) -> (r: Position) {
        let pbox = self.cell_box(p);
        proof {
            assert(p.x * self.cell_width + self.cell_width / 2 < self.maze.width * self.cell_width
                && p.y * self.cell_height + self.cell_height / 2 < self.maze.height
                * self.cell_height) by (nonlinear_arith)
                requires
                    p.x < self.maze.width,
                    p.y < self.maze.height,
                    self.cell_width >= 2,
                    self.cell_height == 2,
            ;
        }
        Position {
            x: pbox.left as u16 + self.cell_width / 2,
            y: pbox.top as u16 + self.cell_height / 2,
        }
    }
}

impl<'a, 'b> Locate<Joystick<'b>> for MazeUI<'a> {
    open spec fn locatable(&self, j: &Joystick<'b>) -> bool {
        self.wf() && self.maze.on_grid(j.pos)
    }

    open spec fn located(&self, j: &Joystick<'b>) -> Position {
        spec_locate(*self, j.pos)
    }

    fn locate(&self, j: &Joystick<'b>) -> (r: Position) {
        let p = j.pos;
        Locate::<Position>::locate(self, &p)
    }
}

impl<'a> MazeUI<'a> {
    /// The pre-corner board character at `(i, j)`.
    fn wall_at(&self, i: usize, j: usize) -> (c: char)
        requires
            self.wf(),
            i <= 2 * self.maze.height,
            j <= self.maze.width * self.cell_width,
        ensures
            c == wall_char(*self.maze, self.cell_width as int, i as int, j as int),
    {
        let m = self.maze;
        let cw = self.cell_width as usize;
        let x = j / cw;
        let y = i / 2;
        proof {
            let jj = j as int;
            let cwi = cw as int;
            assert((0 <= jj / cwi) && (jj / cwi <= m.width) && (jj % cwi != 0 ==> jj / cwi
                < m.width) && (jj == m.width * cwi ==> jj / cwi == m.width)) by (nonlinear_arith)
                requires
                    cwi >= 2,
                    0 <= jj,
                    jj <= m.width * cwi,
            ;
        }
        if i % 2 == 1 {
            if j % cw == 0 {
                if x >= 1 && x < m.width as usize {
                    let open = m.move_pos(
                        Position { x: x as u16, y: y as u16 },
                        &Direction::Left,
                    ).is_some();
                    if open {
                        ' '
                    } else {
                        '│'
                    }
                } else {
                    '│'
                }
            } else {
                ' '
            }
        } else {
            if j % cw != 0 {
                if y >= 1 && y < m.height as usize {
                    let open = m.move_pos(
                        Position { x: x as u16, y: y as u16 },
                        &Direction::Up,
                    ).is_some();
                    if open {
                        ' '
                    } else {
                        '─'
                    }
                } else {
                    '─'
                }
            } else {
                if i == 0 {
                    if j == 0 {
                        '┌'
                    } else if j == m.width as usize * cw {
                        '┐'
                    } else {
                        '┬'
                    }
                } else if i == 2 * m.height as usize {
                    if j == 0 {
                        '└'
                    } else if j == m.width as usize * cw {
                        '┘'
                    } else {
                        '┴'
                    }
                } else {
                    if j == 0 {
                        '├'
                    } else if j == m.width as usize * cw {
                        '┤'
                    } else {
                        '┼'
                    }
                }
            }
        }
    }

    /// The finished board character at `(i, j)`.
    fn char_at(&self, i: usize, j: usize) -> (c: char)
        requires
            self.wf(),
            i <= 2 * self.maze.height,
            j <= self.maze.width * self.cell_width,
        ensures
            c == board_char(*self.maze, self.cell_width as int, i as int, j as int),
    {
        let m = self.maze;
        let cw = self.cell_width as usize;
        if i % 2 == 1 || j % cw != 0 {
            return self.wall_at(i, j);
        }
        let x = j / cw;
        let y = i / 2;
        proof {
            let jj = j as int;
            let cwi = cw as int;
            assert((0 <= jj / cwi) && (jj / cwi <= m.width) && (jj < m.width * cwi ==> jj / cwi
                < m.width || jj % cwi != 0)) by (nonlinear_arith)
                requires
                    cwi >= 2,
                    0 <= jj,
                    jj <= m.width * cwi,
            ;
        }
        let mut open = false;
        if x >= 1 && x < m.width as usize && y >= 1 {
            open = open || m.move_pos(
                Position { x: x as u16, y: (y - 1) as u16 },
                &Direction::Left,
            ).is_some();
        }
        if x >= 1 && x < m.width as usize && y < m.height as usize {
            open = open || m.move_pos(Position { x: x as u16, y: y as u16 }, &Direction::Left).is_some();
        }
        if y >= 1 && y < m.height as usize && x >= 1 {
            open = open || m.move_pos(
                Position { x: (x - 1) as u16, y: y as u16 },
                &Direction::Up,
            ).is_some();
        }
        if y >= 1 && y < m.height as usize && x < m.width as usize {
            open = open || m.move_pos(Position { x: x as u16, y: y as u16 }, &Direction::Up).is_some();
        }
        proof {
            assert(open == corner_open(*m, x as int, y as int));
        }
        if !open {
            return self.wall_at(i, j);
        }
        let bh = 2 * m.height as usize + 1;
        let bw = m.width as usize * cw + 1;
        let u = if i > 0 {
            self.wall_at(i - 1, j)
        } else {
            ' '
        };
        let l = if j > 0 {
            self.wall_at(i, j - 1)
        } else {
            ' '
        };
        let d = if i < bh - 1 {
            self.wall_at(i + 1, j)
        } else {
            ' '
        };
        let r = if j < bw - 1 {
            self.wall_at(i, j + 1)
        } else {
            ' '
        };
        if u == '│' {
            if l == '─' {
                if d == '│' {
                    if r == '─' {
                        '┼'
                    } else {
                        '┤'
                    }
                } else {
                    if r == '─' {
                        '┴'
                    } else {
                        '┘'
                    }
                }
            } else {
                if d == '│' {
                    if r == '─' {
                        '├'
                    } else {
                        '│'
                    }
                } else {
                    if r == '─' {
                        '└'
                    } else {
                        '╵'
                    }
                }
            }
        } else {
            if l == '─' {
                if d == '│' {
                    if r == '─' {
                        '┬'
                    } else {
                        '┐'
                    }
                } else {
                    if r == '─' {
                        '─'
                    } else {
                        '╴'
                    }
                }
            } else {
                if d == '│' {
                    if r == '─' {
                        '┌'
                    } else {
                        '╷'
                    }
                } else {
                    if r == '─' {
                        '╶'
                    } else {
                        ' '
                    }
                }
            }
        }
    }

    /// Draw the maze as a character matrix of `2 * height + 1` rows by
    /// `width * cell_width + 1` columns.  Each character is pinned down by
    /// [`board_char`]; in particular a boundary segment is blank exactly when
    /// the move across it is allowed, so the board's topology reflects the
    /// movement queries.
    pub fn draw(&self) -> (board: Vec<Vec<char>>)
        requires
            self.wf(),
        ensures
            board@.len() == 2 * self.maze.height + 1,
            forall|i: int|
                0 <= i < board@.len() ==> (#[trigger] board@[i])@.len() == self.maze.width
                    * self.cell_width + 1,
            forall|i: int, j: int|
                #![trigger board@[i]@[j]]
                (0 <= i < board@.len() && 0 <= j < self.maze.width * self.cell_width + 1)
                    ==> board@[i]@[j] == board_char(
                    *self.maze,
                    self.cell_width as int,
                    i,
                    j,
                ),
    {
        let m = self.maze;
        let cw = self.cell_width as usize;
        let bh = 2 * m.height as usize + 1;
        let bw = m.width as usize * cw + 1;
        let mut board: Vec<Vec<char>> = Vec::new();
        let mut i: usize = 0;
        while i < bh
            invariant
                self.wf(),
                m == self.maze,
                cw == self.cell_width,
                bh == 2 * m.height + 1,
                bw == m.width * cw + 1,
                i <= bh,
                board@.len() == i,
                forall|a: int| 0 <= a < i ==> (#[trigger] board@[a])@.len() == bw,
                forall|a: int, b: int|
                    #![trigger board@[a]@[b]]
                    (0 <= a < i && 0 <= b < bw) ==> board@[a]@[b] == board_char(
                        *m,
                        cw as int,
                        a,
                        b,
                    ),
            decreases bh - i,
        {
            let mut row: Vec<char> = Vec::new();
            let mut j: usize = 0;
            while j < bw
                invariant
                    self.wf(),
                    m == self.maze,
                    cw == self.cell_width,
                    bh == 2 * m.height + 1,
                    bw == m.width * cw + 1,
                    i < bh,
                    j <= bw,
                    row@.len() == j,
                    forall|b: int|
                        0 <= b < j ==> (#[trigger] row@[b]) == board_char(*m, cw as int, i as int, b),
                decreases bw - j,
            {
                row.push(self.char_at(i, j));
                j = j + 1;
            }
            board.push(row);
            i = i + 1;
        }
        board
    }
}

impl Maze {
    /// The grid position of the exit cell.
    pub open spec fn spec_exit_pos(self) -> Position {
        self.spec_cell_pos(self.spec_exit() as int)
    }

    /// A rendering view of this maze with the standard cell size.
    pub fn ui(&self) -> (r: MazeUI)
        requires
            self.wf(),
        ensures
            r.maze == self,
            r.cell_width == 4,
            r.cell_height == 2,
            self.width * 4 <= u16::MAX && self.height * 2 <= u16::MAX ==> r.wf(),
    {
        MazeUI { cell_width: 4, cell_height: 2, maze: self }
    }
}

} // verus!
