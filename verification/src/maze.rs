//! The maze itself: a `width x height` grid of cells with a list of interior
//! walls, plus the movement logic that treats the grid and the wall list as an
//! implicit graph, and the joystick that walks it while recording the path.
//!
//! Cells are indexed row-major: cell `y * width + x` holds position `(x, y)`.
//! A wall is a pair of cell indices; a move between two adjacent cells is
//! allowed exactly when neither orientation of their pair is in the wall list.

use vstd::prelude::*;

verus! {

/// Errors surfaced by explicit maze construction and by option parsing.
#[derive(Debug)]
pub enum MazeError {
    /// A caller-supplied wall references a cell index beyond the exit.
    WallOutOfBounds((u16, u16)),
    /// A difficulty string matched neither the hard nor the normal setting.
    DifficultyParseError,
    /// A cell drawing size could not be parsed.
    CellDrawSizeParseError,
}

/// The four directions a cursor can move in; no diagonals.
#[derive(Clone, Copy, Hash, Eq, PartialEq, Structural, Debug)]
pub enum Direction {
    Left,
    Right,
    Up,
    Down,
}

/// Bounding box of one cell in rendering coordinates.
pub struct CellBox {
    pub top: usize,
    pub left: usize,
    pub bottom: usize,
    pub right: usize,
}

/// A grid position; `x` counts columns, `y` counts rows, both from zero.
#[derive(Copy, Clone, Eq, PartialEq, Structural, Debug)]
pub struct Position {
    pub y: u16,
    pub x: u16,
}

impl Position {
    /// The position `amount` cells away in direction `d`.  The caller keeps
    /// the arithmetic inside the `u16` range.
    pub fn mv(&self, d: &Direction, amount: u16) -> (r: Position)
        requires
            *d == Direction::Left ==> amount <= self.x,
            *d == Direction::Right ==> self.x + amount <= u16::MAX,
            *d == Direction::Up ==> amount <= self.y,
            *d == Direction::Down ==> self.y + amount <= u16::MAX,
        ensures
            *d == Direction::Left ==> r == (Position { x: (self.x - amount) as u16, y: self.y }),
            *d == Direction::Right ==> r == (Position { x: (self.x + amount) as u16, y: self.y }),
            *d == Direction::Up ==> r == (Position { x: self.x, y: (self.y - amount) as u16 }),
            *d == Direction::Down ==> r == (Position { x: self.x, y: (self.y + amount) as u16 }),
    {
        match d {
            Direction::Left => Position { x: self.x - amount, y: self.y },
            Direction::Right => Position { x: self.x + amount, y: self.y },
            Direction::Up => Position { x: self.x, y: self.y - amount },
            Direction::Down => Position { x: self.x, y: self.y + amount },
        }
    }
}

/// Maze difficulty: how much of the grid the carving pass must connect.
#[derive(Copy, Clone, Debug, Eq, PartialEq, Structural)]
pub enum Difficulty {
    Normal,
    Hard,
}

/// Character-wise equality of two strings.
fn str_eq(a: &str, b: &str) -> (r: bool)
    ensures
        r == (a@ == b@),
{
    let an = a.unicode_len();
    let bn = b.unicode_len();
    if an != bn {
        proof {
            if a@ == b@ {
                assert(a@.len() == b@.len());
            }
        }
        return false;
    }
    let mut i: usize = 0;
    while i < an
        invariant
            i <= an,
            an == a@.len(),
            bn == b@.len(),
            an == bn,
            forall|j: int| 0 <= j < i ==> a@[j] == b@[j],
        decreases an - i,
    {
        if a.get_char(i) != b.get_char(i) {
            proof {
                if a@ == b@ {
                    assert(a@[i as int] == b@[i as int]);
                }
            }
            return false;
        }
        i = i + 1;
    }
    proof {
        assert(a@ =~= b@);
    }
    true
}

impl Difficulty {
    /// Parse a difficulty setting from its configuration text.  `Hard`,
    /// `hard` and `h` name the hard setting; `Normal`, `normal`, `norm` and
    /// `n` the normal one; anything else is a `DifficultyParseError`.
    pub fn from_str(s: &str) -> (r: Result<Difficulty, MazeError>)
        ensures
            (s@ == "Hard"@ || s@ == "hard"@ || s@ == "h"@) ==> r == Result::<
                Difficulty,
                MazeError,
            >::Ok(Difficulty::Hard),
            (s@ == "Normal"@ || s@ == "normal"@ || s@ == "norm"@ || s@ == "n"@) ==> r == Result::<
                Difficulty,
                MazeError,
            >::Ok(Difficulty::Normal),
            !(s@ == "Hard"@ || s@ == "hard"@ || s@ == "h"@ || s@ == "Normal"@ || s@ == "normal"@
                || s@ == "norm"@ || s@ == "n"@) ==> r == Result::<Difficulty, MazeError>::Err(
                MazeError::DifficultyParseError,
            ),
    {
        proof {
            reveal_strlit("Hard");
            reveal_strlit("hard");
            reveal_strlit("h");
            reveal_strlit("Normal");
            reveal_strlit("normal");
            reveal_strlit("norm");
            reveal_strlit("n");
            assert("Hard"@.len() == 4 && "hard"@.len() == 4 && "h"@.len() == 1);
            assert("Normal"@.len() == 6 && "normal"@.len() == 6 && "norm"@.len() == 4);
            assert("n"@.len() == 1);
            assert("Hard"@[0] == 'H' && "hard"@[0] == 'h' && "norm"@[0] == 'n');
            assert("h"@[0] == 'h' && "n"@[0] == 'n');
        }
        if str_eq(s, "Hard") || str_eq(s, "hard") || str_eq(s, "h") {
            Result::Ok(Difficulty::Hard)
        } else if str_eq(s, "Normal") || str_eq(s, "normal") || str_eq(s, "norm") || str_eq(
            s,
            "n",
        ) {
            Result::Ok(Difficulty::Normal)
        } else {
            Result::Err(MazeError::DifficultyParseError)
        }
    }
}

/// Generation options.
pub struct Opts {
    pub difficulty: Difficulty,
}

impl Default for Opts {
    /// The default difficulty is `Hard`.
    fn default() -> (r: Self)
        ensures
            r.difficulty == Difficulty::Hard,
    {
        Opts { difficulty: Difficulty::Hard }
    }
}

/// A rectangular maze: the walls still standing between adjacent cells, the
/// entrance cell, the exit cell, and the grid dimensions.  Immutable once
/// built.
#[derive(Clone, Debug)]
pub struct Maze {
    pub walls: Vec<(u16, u16)>,
    pub enter: u16,
    pub exit: u16,
    pub size: u16,
    pub width: u16,
    pub height: u16,
}

impl Maze {
    /// The standing walls.
    pub open spec fn spec_walls(self) -> Seq<(u16, u16)> {
        self.walls@
    }

    /// The entrance cell index; always 0.
    pub open spec fn spec_enter(self) -> u16 {
        self.enter
    }

    /// The exit cell index; always the last cell.
    pub open spec fn spec_exit(self) -> u16 {
        self.exit
    }

    /// The number of cells.
    pub open spec fn spec_size(self) -> u16 {
        self.size
    }

    /// Structural invariant: the cached size and the entrance/exit indices
    /// agree with the dimensions, the grid is non-empty, and every wall
    /// endpoint is a cell of the grid.
    pub open spec fn wf(self) -> bool {
        &&& self.spec_size() == self.width * self.height
        &&& self.width >= 1
        &&& self.height >= 1
        &&& self.spec_enter() == 0
        &&& self.spec_exit() == self.spec_size() - 1
        &&& forall|k: int|
            0 <= k < self.spec_walls().len() ==> (#[trigger] self.spec_walls()[k]).0
                <= self.spec_exit() && self.spec_walls()[k].1 <= self.spec_exit()
    }

    /// The cell index of position `p`.
    pub open spec fn spec_cell(self, p: Position) -> int {
        p.y * self.width + p.x
    }

    /// `p` lies on the grid.
    pub open spec fn on_grid(self, p: Position) -> bool {
        p.x < self.width && p.y < self.height
    }

    /// The grid position of cell `c`.
    pub open spec fn spec_cell_pos(self, c: int) -> Position {
        Position {
            x: (c % self.width as int) as u16,
            y: (c / self.width as int) as u16,
        }
    }

    /// A wall stands between cells `a` and `b`, in either orientation.
    pub open spec fn spec_has_wall(self, a: int, b: int) -> bool {
        exists|k: int|
            0 <= k < self.spec_walls().len() && (((#[trigger] self.spec_walls()[k]).0 == a
                && self.spec_walls()[k].1 == b) || (self.spec_walls()[k].0 == b
                && self.spec_walls()[k].1 == a))
    }

    /// Where a move from `p` in direction `d` leads: `None` when it would
    /// leave the grid or a wall stands in the way, otherwise the neighbouring
    /// position.
    pub open spec fn spec_move_pos(self, p: Position, d: Direction) -> Option<Position> {
        let dest = match d {
            Direction::Left => if p.x == 0 {
                Option::None
            } else {
                Option::Some(Position { x: (p.x - 1) as u16, y: p.y })
            },
            Direction::Right => if p.x + 1 >= self.width {
                Option::None
            } else {
                Option::Some(Position { x: (p.x + 1) as u16, y: p.y })
            },
            Direction::Up => if p.y == 0 {
                Option::None
            } else {
                Option::Some(Position { x: p.x, y: (p.y - 1) as u16 })
            },
            Direction::Down => if p.y + 1 >= self.height {
                Option::None
            } else {
                Option::Some(Position { x: p.x, y: (p.y + 1) as u16 })
            },
        };
        match dest {
            Option::Some(dp) => if self.spec_has_wall(self.spec_cell(p), self.spec_cell(dp)) {
                Option::None
            } else {
                Option::Some(dp)
            },
            Option::None => Option::None,
        }
    }

    /// The passable directions from `p`, in the fixed order left, right, up,
    /// down.
    pub open spec fn spec_movements(self, p: Position) -> Seq<Direction> {
        let l = if self.spec_move_pos(p, Direction::Left) is Some {
            seq![Direction::Left]
        } else {
            Seq::empty()
        };
        let r = if self.spec_move_pos(p, Direction::Right) is Some {
            seq![Direction::Right]
        } else {
            Seq::empty()
        };
        let u = if self.spec_move_pos(p, Direction::Up) is Some {
            seq![Direction::Up]
        } else {
            Seq::empty()
        };
        let d = if self.spec_move_pos(p, Direction::Down) is Some {
            seq![Direction::Down]
        } else {
            Seq::empty()
        };
        l + r + u + d
    }

    /// Build a maze of the given dimensions from an explicit wall list.  Every
    /// wall endpoint must be a cell of the grid; the first offending wall is
    /// reported as a `WallOutOfBounds` error.  Connectivity is deliberately
    /// not checked: an unsolvable maze can be built this way.
    pub fn create(w: u16, h: u16, walls: Vec<(u16, u16)>) -> (r: Result<Maze, MazeError>)
        requires
            w >= 1,
            h >= 1,
            w * h <= u16::MAX,
        ensures
            r is Ok <==> (forall|k: int|
                0 <= k < walls@.len() ==> (#[trigger] walls@[k]).0 <= w * h - 1 && walls@[k].1 <= w
                    * h - 1),
            r matches Ok(m) ==> m.wf() && m.width == w && m.height == h && m.spec_walls()
                == walls@,
            r matches Err(e) ==> exists|k: int|
                0 <= k < walls@.len() && ((#[trigger] walls@[k]).0 > w * h - 1 || walls@[k].1 > w
                    * h - 1) && e == MazeError::WallOutOfBounds(walls@[k]) && (forall|j: int|
                    0 <= j < k ==> (#[trigger] walls@[j]).0 <= w * h - 1 && walls@[j].1 <= w * h
                        - 1),
    {
        proof {
            assert(w * h >= 1) by (nonlinear_arith)
                requires
                    w >= 1,
                    h >= 1,
            ;
        }
        let size = w * h;
        let exit = size - 1;
        let mut i: usize = 0;
        while i < walls.len()
            invariant
                i <= walls@.len(),
                exit == w * h - 1,
                forall|j: int|
                    0 <= j < i ==> (#[trigger] walls@[j]).0 <= exit && walls@[j].1 <= exit,
            decreases walls@.len() - i,
        {
            let wall = walls[i];
            if wall.0 > exit || wall.1 > exit {
                return Result::Err(MazeError::WallOutOfBounds(wall));
            }
            i = i + 1;
        }
        Result::Ok(Maze { walls, enter: 0, exit, size, width: w, height: h })
    }

    /// Translate a position to its cell index.
    pub fn pos_to_cell(&self, p: Position) -> (r: u16)
        requires
            self.wf(),
            self.on_grid(p),
        ensures
            r == self.spec_cell(p),
            r <= self.spec_exit(),
    {
        proof {
            assert(p.y * self.width + p.x <= self.width * self.height - 1) by (nonlinear_arith)
                requires
                    p.x < self.width,
                    p.y < self.height,
            ;
        }
        p.y * self.width + p.x
    }

    /// Translate a cell index to its grid position.
    pub fn cell_to_pos(&self, c: u16) -> (p: Position)
        requires
            self.wf(),
            c <= self.spec_exit(),
        ensures
            p.x == c as int % self.width as int,
            p.y == c as int / self.width as int,
            self.on_grid(p),
            self.spec_cell(p) == c,
    {
        let p = Position { x: c % self.width, y: c / self.width };
        proof {
            assert(p.y * self.width + p.x == c && p.y < self.height) by (nonlinear_arith)
                requires
                    self.width >= 1,
                    c <= self.width * self.height - 1,
                    p.x == c as int % self.width as int,
                    p.y == c as int / self.width as int,
            ;
        }
        p
    }

    /// Whether a wall stands between cells `a` and `b`, in either orientation.
    fn has_wall(&self, a: u16, b: u16) -> (r: bool)
        ensures
            r == self.spec_has_wall(a as int, b as int),
    {
        let mut k: usize = 0;
        while k < self.walls.len()
            invariant
                k <= self.walls@.len(),
                forall|j: int|
                    0 <= j < k ==> !(((#[trigger] self.walls@[j]).0 == a && self.walls@[j].1 == b)
                        || (self.walls@[j].0 == b && self.walls@[j].1 == a)),
            decreases self.walls@.len() - k,
        {
            let wall = self.walls[k];
            if (wall.0 == a && wall.1 == b) || (wall.0 == b && wall.1 == a) {
                proof {
                    assert(self.spec_walls()[k as int] == wall);
                }
                return true;
            }
            k = k + 1;
        }
        false
    }

    /// Attempt to move from `p` in direction `d`: `None` when the move would
    /// leave the grid or a wall blocks it, otherwise the new position.
    pub fn move_pos(&self, p: Position, d: &Direction) -> (r: Option<Position>)
        requires
            self.wf(),
            self.on_grid(p),
        ensures
            r == self.spec_move_pos(p, *d),
            r matches Some(q) ==> self.on_grid(q),
    {
        let dest: Option<Position> = match d {
            Direction::Left => {
                if p.x == 0 {
                    Option::None
                } else {
                    Option::Some(Position { x: p.x - 1, y: p.y })
                }
            },
            Direction::Right => {
                if p.x == self.width - 1 {
                    Option::None
                } else {
                    Option::Some(Position { x: p.x + 1, y: p.y })
                }
            },
            Direction::Up => {
                if p.y == 0 {
                    Option::None
                } else {
                    Option::Some(Position { x: p.x, y: p.y - 1 })
                }
            },
            Direction::Down => {
                if p.y == self.height - 1 {
                    Option::None
                } else {
                    Option::Some(Position { x: p.x, y: p.y + 1 })
                }
            },
        };
        match dest {
            Option::Some(dp) => {
                let i1 = self.pos_to_cell(p);
                let i2 = self.pos_to_cell(dp);
                if self.has_wall(i1, i2) {
                    Option::None
                } else {
                    Option::Some(dp)
                }
            },
            Option::None => Option::None,
        }
    }

    /// The passable directions from `p`, in the fixed order left, right, up,
    /// down.
    pub fn movements(&self, p: Position) -> (r: Vec<Direction>)
        requires
            self.wf(),
            self.on_grid(p),
        ensures
            r@ == self.spec_movements(p),
    {
        let mut moves: Vec<Direction> = Vec::new();
        if self.move_pos(p, &Direction::Left).is_some() {
            moves.push(Direction::Left);
        }
        if self.move_pos(p, &Direction::Right).is_some() {
            moves.push(Direction::Right);
        }
        if self.move_pos(p, &Direction::Up).is_some() {
            moves.push(Direction::Up);
        }
        if self.move_pos(p, &Direction::Down).is_some() {
            moves.push(Direction::Down);
        }
        proof {
            assert(moves@ =~= self.spec_movements(p));
        }
        moves
    }

    /// A fresh joystick for this maze, parked on the entrance cell.
    pub fn joystick(&self) -> (j: Joystick)
        requires
            self.wf(),
        ensures
            j.wf(),
            j.maze == self,
            j.pos == (Position { x: 0, y: 0 }),
            j.history@ == seq![(j.pos, Option::<Direction>::None)],
    {
        Joystick::create(self)
    }
}

/// A cursor over a maze: the current position and the history of every
/// position visited, each with the direction that reached it.
pub struct Joystick<'a> {
    pub pos: Position,
    pub maze: &'a Maze,
    pub history: Vec<(Position, Option<Direction>)>,
}

/// Walking `ds` from `p` through `m`, stopping at the first blocked move:
/// the final position and the history entries of the moves that succeeded.
pub open spec fn spec_walk(m: Maze, p: Position, ds: Seq<Direction>) -> (
    Position,
    Seq<(Position, Option<Direction>)>,
)
    decreases ds.len(),
{
    if ds.len() == 0 {
        (p, Seq::empty())
    } else {
        match m.spec_move_pos(p, ds[0]) {
            Option::None => (p, Seq::empty()),
            Option::Some(q) => {
                let rest = spec_walk(m, q, ds.drop_first());
                (rest.0, seq![(q, Option::Some(ds[0]))] + rest.1)
            },
        }
    }
}

impl<'a> Joystick<'a> {
    /// Invariant: the maze is well formed and the cursor is on its grid.
    pub open spec fn wf(self) -> bool {
        &&& self.maze.wf()
        &&& self.maze.on_grid(self.pos)
    }

    /// A joystick parked on the maze's entrance cell, with the single initial
    /// history entry.
    pub fn create(maze: &'a Maze) -> (j: Joystick<'a>)
        requires
            maze.wf(),
        ensures
            j.wf(),
            j.maze == maze,
            j.pos == (Position { x: 0, y: 0 }),
            j.history@ == seq![(j.pos, Option::<Direction>::None)],
    {
        let pos = maze.cell_to_pos(maze.enter);
        proof {
            assert(0int % maze.width as int == 0 && 0int / maze.width as int == 0)
                by (nonlinear_arith)
                requires
                    maze.width >= 1,
            ;
        }
        Joystick { maze, pos, history: vec![(pos, None)] }
    }

    /// Attempt one move.  On success the cursor advances and the new position
    /// is appended to the history; a blocked move changes nothing.
    pub fn mv(&mut self, d: &Direction) -> (r: bool)
        requires
            old(self).wf(),
        ensures
            final(self).wf(),
            final(self).maze == old(self).maze,
            r == (old(self).maze.spec_move_pos(old(self).pos, *d) is Some),
            old(self).maze.spec_move_pos(old(self).pos, *d) matches Some(q) ==> final(self).pos
                == q && final(self).history@ == old(self).history@.push((q, Option::Some(*d))),
            !r ==> final(self).pos == old(self).pos && final(self).history@ == old(self).history@,
    {
        if let Option::Some(p) = self.maze.move_pos(self.pos, d) {
            self.pos = p;
            self.history.push((p, Option::Some(*d)));
            return true;
        }
        false
    }

    /// Move left once; `true` on success.
    pub fn left(&mut self) -> (r: bool)
        requires
            old(self).wf(),
        ensures
            final(self).wf(),
            final(self).maze == old(self).maze,
            r == (old(self).maze.spec_move_pos(old(self).pos, Direction::Left) is Some),
            old(self).maze.spec_move_pos(old(self).pos, Direction::Left) matches Some(q)
                ==> final(self).pos == q && final(self).history@ == old(self).history@.push(
                (q, Option::Some(Direction::Left)),
            ),
            !r ==> final(self).pos == old(self).pos && final(self).history@ == old(self).history@,
    {
        self.mv(&Direction::Left)
    }

    /// Move right once; `true` on success.
    pub fn right(&mut self) -> (r: bool)
        requires
            old(self).wf(),
        ensures
            final(self).wf(),
            final(self).maze == old(self).maze,
            r == (old(self).maze.spec_move_pos(old(self).pos, Direction::Right) is Some),
            old(self).maze.spec_move_pos(old(self).pos, Direction::Right) matches Some(q)
                ==> final(self).pos == q && final(self).history@ == old(self).history@.push(
                (q, Option::Some(Direction::Right)),
            ),
            !r ==> final(self).pos == old(self).pos && final(self).history@ == old(self).history@,
    {
        self.mv(&Direction::Right)
    }

    /// Move up once; `true` on success.
    pub fn up(&mut self) -> (r: bool)
        requires
            old(self).wf(),
        ensures
            final(self).wf(),
            final(self).maze == old(self).maze,
            r == (old(self).maze.spec_move_pos(old(self).pos, Direction::Up) is Some),
            old(self).maze.spec_move_pos(old(self).pos, Direction::Up) matches Some(q)
                ==> final(self).pos == q && final(self).history@ == old(self).history@.push(
                (q, Option::Some(Direction::Up)),
            ),
            !r ==> final(self).pos == old(self).pos && final(self).history@ == old(self).history@,
    {
        self.mv(&Direction::Up)
    }

    /// Move down once; `true` on success.
    pub fn down(&mut self) -> (r: bool)
        requires
            old(self).wf(),
        ensures
            final(self).wf(),
            final(self).maze == old(self).maze,
            r == (old(self).maze.spec_move_pos(old(self).pos, Direction::Down) is Some),
            old(self).maze.spec_move_pos(old(self).pos, Direction::Down) matches Some(q)
                ==> final(self).pos == q && final(self).history@ == old(self).history@.push(
                (q, Option::Some(Direction::Down)),
            ),
            !r ==> final(self).pos == old(self).pos && final(self).history@ == old(self).history@,
    {
        self.mv(&Direction::Down)
    }

    /// Apply as many of the given moves as possible, in order, stopping at the
    /// first blocked one.  Returns the prefix of directions that succeeded;
    /// later directions are never attempted.
    pub fn moves(&mut self, ds: &Vec<Direction>) -> (completed: Vec<Direction>)
        requires
            old(self).wf(),
        ensures
            final(self).wf(),
            final(self).maze == old(self).maze,
            final(self).pos == spec_walk(*old(self).maze, old(self).pos, ds@).0,
            final(self).history@ == old(self).history@ + spec_walk(
                *old(self).maze,
                old(self).pos,
                ds@,
            ).1,
            completed@ == ds@.take(spec_walk(*old(self).maze, old(self).pos, ds@).1.len() as int),
    {
        let ghost m = *old(self).maze;
        let ghost p0 = old(self).pos;
        let ghost h0 = old(self).history@;
        let ghost total = spec_walk(m, p0, ds@);
        let mut completed: Vec<Direction> = Vec::new();
        let mut i: usize = 0;
        proof {
            assert(ds@.skip(0) =~= ds@);
            assert(self.history@.skip(h0.len() as int) =~= Seq::<
                (Position, Option<Direction>),
            >::empty());
            assert(Seq::<(Position, Option<Direction>)>::empty() + total.1 =~= total.1);
            assert(h0 + Seq::<(Position, Option<Direction>)>::empty() =~= h0);
        }
        loop
            invariant_except_break
                self.wf(),
                *self.maze == m,
                i <= ds@.len(),
                completed@ == ds@.take(i as int),
                self.history@.len() == h0.len() + i,
                self.history@ == h0 + self.history@.skip(h0.len() as int),
                total.0 == spec_walk(m, self.pos, ds@.skip(i as int)).0,
                total.1 == self.history@.skip(h0.len() as int) + spec_walk(
                    m,
                    self.pos,
                    ds@.skip(i as int),
                ).1,
            ensures
                self.wf(),
                *self.maze == m,
                total.0 == self.pos,
                total.1 == self.history@.skip(h0.len() as int),
                completed@ == ds@.take(total.1.len() as int),
                self.history@ == h0 + total.1,
            decreases ds@.len() - i,
        {
            let ghost trace = self.history@.skip(h0.len() as int);
            if i >= ds.len() {
                proof {
                    assert(ds@.skip(i as int) =~= Seq::<Direction>::empty());
                    assert(trace + Seq::<(Position, Option<Direction>)>::empty() =~= trace);
                    assert(trace.len() == i);
                }
                break ;
            }
            let d = ds[i];
            let ghost pos_before = self.pos;
            let ok = self.mv(&d);
            proof {
                assert(ds@.skip(i as int)[0] == ds@[i as int]);
                assert(ds@.skip(i as int).drop_first() =~= ds@.skip(i + 1));
            }
            if !ok {
                proof {
                    let rest = spec_walk(m, pos_before, ds@.skip(i as int));
                    assert(rest.0 == self.pos && rest.1 =~= Seq::<
                        (Position, Option<Direction>),
                    >::empty());
                    assert(trace + Seq::<(Position, Option<Direction>)>::empty() =~= trace);
                    assert(trace.len() == i);
                }
                break ;
            }
            completed.push(d);
            proof {
                let q = self.pos;
                let rest = spec_walk(m, pos_before, ds@.skip(i as int));
                let rest2 = spec_walk(m, q, ds@.skip(i + 1));
                assert(rest.0 == rest2.0);
                assert(rest.1 =~= seq![(q, Option::Some(d))] + rest2.1);
                assert(self.history@.skip(h0.len() as int) =~= trace.push((q, Option::Some(d))));
                assert(trace + rest.1 =~= self.history@.skip(h0.len() as int) + rest2.1);
                assert(self.history@ =~= h0 + self.history@.skip(h0.len() as int));
                assert(completed@ =~= ds@.take(i + 1));
            }
            i = i + 1;
        }
                completed
    }

    /// Return the cursor to the entrance and truncate the history to the
    /// single initial entry.
    pub fn reset(&mut self)
        requires
            old(self).wf(),
        ensures
            final(self).wf(),
            final(self).maze == old(self).maze,
            final(self).pos == (Position { x: 0, y: 0 }),
            final(self).history@ == seq![
                (Position { x: 0, y: 0 }, Option::<Direction>::None),
            ],
    {
        let pos = self.maze.cell_to_pos(self.maze.enter);
        proof {
            assert(0int % self.maze.width as int == 0 && 0int / self.maze.width as int == 0)
                by (nonlinear_arith)
                requires
                    self.maze.width >= 1,
            ;
        }
        self.pos = pos;
        self.history = vec![(pos, None)];
    }

    /// Whether the cursor stands on the exit cell.
    pub fn is_exit(&self) -> (r: bool)
        requires
            self.wf(),
        ensures
            r == (self.maze.spec_cell(self.pos) == self.maze.spec_exit()),
    {
        self.maze.pos_to_cell(self.pos) == self.maze.exit
    }
}

} // verus!
