use rusty_maze::maze::{Difficulty, Maze, Opts, Position};
use rusty_maze::ui::Locate;

#[test]
fn test_ui_draw() {
    let m = Maze::generate(15, 15, &Default::default());
    let matrix = m.ui().draw();
    for r in matrix {
        println!("{}", String::from_iter(r));
    }
}

#[test]
fn geometry_of_the_standard_cell_size() {
    let m = Maze::create(5, 5, vec![]).unwrap();
    let ui = m.ui();
    assert_eq!(ui.dimensions(), (20, 10));
    let b = ui.cell_box(&Position { x: 1, y: 2 });
    assert_eq!((b.top, b.left, b.bottom, b.right), (4, 4, 6, 8));
    assert_eq!(ui.locate(&Position { x: 0, y: 0 }), Position { x: 2, y: 1 });
    assert_eq!(ui.locate(&Position { x: 4, y: 4 }), Position { x: 18, y: 9 });
    assert_eq!(ui.exit(), Position { x: 18, y: 9 });
    let j = m.joystick();
    assert_eq!(ui.locate(&j), Position { x: 2, y: 1 });
}

#[test]
fn draw_reflects_walls_in_board_topology() {
    // two cells side by side with no wall: the shared boundary is open
    let open = Maze::create(2, 1, vec![]).unwrap();
    let board = open.ui().draw();
    assert_eq!(board.len(), 3);
    assert_eq!(board[0].len(), 9);
    assert_eq!(board[1][4], ' ');
    // the same grid with the wall standing: the boundary is drawn
    let closed = Maze::create(2, 1, vec![(0, 1)]).unwrap();
    let board = closed.ui().draw();
    assert_eq!(board[1][4], '│');
    // outer borders are always drawn
    assert_eq!(board[1][0], '│');
    assert_eq!(board[0][1], '─');
    assert_eq!(board[0][0], '┌');
    assert_eq!(board[2][8], '┘');
}

#[test]
fn hard_maze_draws_with_open_passages() {
    let m = Maze::generate(4, 3, &Opts { difficulty: Difficulty::Hard });
    let board = m.ui().draw();
    assert_eq!(board.len(), 7);
    assert!(board.iter().all(|r| r.len() == 17));
    // a spanning maze has knocked-down walls, so some boundary is open
    let mut blanks = 0;
    for (i, row) in board.iter().enumerate() {
        for (j, c) in row.iter().enumerate() {
            if i % 2 == 1 && j % 4 == 0 && *c == ' ' {
                blanks += 1;
            }
            if i % 2 == 0 && j % 4 != 0 && *c == ' ' {
                blanks += 1;
            }
        }
    }
    assert!(blanks > 0);
}
