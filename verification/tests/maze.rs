use rusty_maze::game::GameState;
use rusty_maze::maze::{Difficulty, Direction, Maze, MazeError, Opts, Position};
use rusty_maze::maze::Direction::{Down, Left, Right, Up};

fn scenario_walls() -> Vec<(u16, u16)> {
    vec![
        (0, 5),
        (1, 2),
        (2, 7),
        (3, 8),
        (5, 10),
        (8, 13),
        (10, 11),
        (11, 12),
        (11, 16),
        (13, 14),
        (14, 19),
        (15, 20),
        (16, 17),
        (16, 21),
        (17, 18),
        (17, 22),
        (19, 24),
        (20, 21),
    ]
}

#[test]
fn test_save() {
    let walls = scenario_walls();
    let m = Maze::create(5, 5, walls).unwrap();

    assert_eq!(
        m.move_pos(Position { x: 0, y: 0 }, &Right),
        Some(Position { x: 1, y: 0 })
    );
    assert_eq!(m.move_pos(Position { x: 0, y: 0 }, &Left), None);
    assert_eq!(m.move_pos(Position { x: 0, y: 0 }, &Up), None);
    assert_eq!(m.move_pos(Position { x: 0, y: 0 }, &Down), None);
    // second row
    assert_eq!(m.move_pos(Position { x: 0, y: 1 }, &Left), None);

    assert_eq!(m.movements(Position { x: 0, y: 1 }), vec![Right]);

    // move to exit
    let mut j = m.joystick();
    let completed = j.moves(&vec![Right, Down, Right, Down, Right, Down, Down, Right]);
    assert_eq!(completed.len(), 8);
    assert_eq!(j.pos, Position { x: 4, y: 4 });
    assert_eq!(j.is_exit(), true);

    // stuck down bad path
    j = m.joystick();
    j.moves(&vec![Right, Down, Right, Right, Right, Down, Down, Down]);
    assert_eq!(j.pos, Position { x: 4, y: 2 });
}

#[test]
fn movements_second_row_is_right_only() {
    let m = Maze::create(5, 5, scenario_walls()).unwrap();
    assert_eq!(m.movements(Position { x: 0, y: 1 }), vec![Right]);
}

#[test]
fn moves_returns_the_completed_prefix() {
    let m = Maze::create(5, 5, scenario_walls()).unwrap();
    let mut j = m.joystick();
    let completed = j.moves(&vec![Right, Down, Right, Right, Right, Down, Down, Down]);
    // the seventh direction hits the wall between cells 14 and 19, so only
    // six moves complete and the rest are never attempted
    assert_eq!(completed, vec![Right, Down, Right, Right, Right, Down]);
    assert_eq!(j.pos, Position { x: 4, y: 2 });
    assert_eq!(j.history.len(), 7);
    // the blocked direction keeps failing from here
    let completed = j.moves(&vec![Down]);
    assert!(completed.is_empty());
    assert_eq!(j.pos, Position { x: 4, y: 2 });
}

#[test]
fn single_steps_and_reset() {
    let m = Maze::create(5, 5, scenario_walls()).unwrap();
    let mut j = m.joystick();
    assert!(!j.left());
    assert!(!j.up());
    assert!(!j.down()); // wall (0, 5)
    assert!(j.right());
    assert_eq!(j.pos, Position { x: 1, y: 0 });
    assert!(!j.right()); // wall (1, 2)
    assert_eq!(j.history.len(), 2);
    assert_eq!(j.history[0], (Position { x: 0, y: 0 }, None));
    assert_eq!(j.history[1], (Position { x: 1, y: 0 }, Some(Right)));
    assert!(!j.is_exit());
    j.reset();
    assert_eq!(j.pos, Position { x: 0, y: 0 });
    assert_eq!(j.history, vec![(Position { x: 0, y: 0 }, None)]);
}

#[test]
fn create_rejects_the_first_wall_out_of_bounds() {
    let r = Maze::create(2, 2, vec![(0, 1), (0, 9), (7, 8)]);
    assert!(matches!(r, Err(MazeError::WallOutOfBounds((0, 9)))));
    let ok = Maze::create(2, 2, vec![(0, 1), (2, 3)]);
    assert!(ok.is_ok());
}

#[test]
fn difficulty_from_str() {
    assert!(matches!(Difficulty::from_str("Hard"), Ok(Difficulty::Hard)));
    assert!(matches!(Difficulty::from_str("hard"), Ok(Difficulty::Hard)));
    assert!(matches!(Difficulty::from_str("h"), Ok(Difficulty::Hard)));
    assert!(matches!(
        Difficulty::from_str("Normal"),
        Ok(Difficulty::Normal)
    ));
    assert!(matches!(
        Difficulty::from_str("normal"),
        Ok(Difficulty::Normal)
    ));
    assert!(matches!(Difficulty::from_str("norm"), Ok(Difficulty::Normal)));
    assert!(matches!(Difficulty::from_str("n"), Ok(Difficulty::Normal)));
    assert!(matches!(
        Difficulty::from_str("impossible"),
        Err(MazeError::DifficultyParseError)
    ));
}

/// Cells reachable from `start` through passable moves.
fn reachable(m: &Maze, start: (u16, u16)) -> Vec<bool> {
    let n = (m.width as usize) * (m.height as usize);
    let mut seen = vec![false; n];
    let mut queue = vec![start];
    seen[(start.1 as usize) * (m.width as usize) + start.0 as usize] = true;
    while let Some((x, y)) = queue.pop() {
        for d in [Left, Right, Up, Down] {
            if let Some(q) = m.move_pos(Position { x, y }, &d) {
                let idx = (q.y as usize) * (m.width as usize) + q.x as usize;
                if !seen[idx] {
                    seen[idx] = true;
                    queue.push((q.x, q.y));
                }
            }
        }
    }
    seen
}

#[test]
fn hard_maze_is_a_spanning_tree_complement() {
    let m = Maze::generate(6, 5, &Opts { difficulty: Difficulty::Hard });
    // total candidate walls minus (cells - 1)
    let edges = 6 * 4 + 5 * 5;
    assert_eq!(m.walls.len(), edges - (6 * 5 - 1));
    // every cell is reachable from every other cell
    let seen = reachable(&m, (0, 0));
    assert!(seen.iter().all(|&s| s));
}

#[test]
fn normal_maze_connects_enter_to_exit() {
    let m = Maze::generate(6, 5, &Opts { difficulty: Difficulty::Normal });
    let seen = reachable(&m, (0, 0));
    assert!(seen[6 * 5 - 1]);
}

#[test]
fn generate_handles_a_single_cell() {
    let m = Maze::generate(1, 1, &Opts { difficulty: Difficulty::Hard });
    assert_eq!(m.walls.len(), 0);
    let j = m.joystick();
    assert!(j.is_exit());
    let m = Maze::generate(1, 1, &Opts { difficulty: Difficulty::Normal });
    assert_eq!(m.walls.len(), 0);
}

#[test]
fn position_mv_offsets() {
    let p = Position { x: 3, y: 4 };
    assert_eq!(p.mv(&Left, 2), Position { x: 1, y: 4 });
    assert_eq!(p.mv(&Right, 2), Position { x: 5, y: 4 });
    assert_eq!(p.mv(&Up, 1), Position { x: 3, y: 3 });
    assert_eq!(p.mv(&Down, 3), Position { x: 3, y: 7 });
}

#[test]
fn snapshot_round_trip() {
    let m = Maze::create(5, 5, scenario_walls()).unwrap();
    let mut j = m.joystick();
    j.moves(&vec![Right, Down, Right]);
    let gs = GameState {
        maze: m.clone(),
        difficulty: Difficulty::Normal,
        pos: j.pos,
        moves: j.history.clone(),
    };
    let bytes = gs.encode();
    let gs2 = GameState::decode(&bytes).unwrap();
    // the restored maze answers every movement query identically
    for y in 0..5u16 {
        for x in 0..5u16 {
            assert_eq!(
                gs.maze.movements(Position { x, y }),
                gs2.maze.movements(Position { x, y })
            );
        }
    }
    assert_eq!(gs2.maze.walls, gs.maze.walls);
    assert_eq!(gs2.difficulty, gs.difficulty);
    assert_eq!(gs2.pos, gs.pos);
    assert_eq!(gs2.moves, gs.moves);
    // re-encoding the restored state reproduces the bytes
    assert_eq!(gs2.encode(), bytes);
}

#[test]
fn decode_rejects_garbage() {
    assert!(GameState::decode(&vec![]).is_none());
    assert!(GameState::decode(&vec![1, 2, 3]).is_none());
    // a valid encoding with a trailing byte is refused
    let m = Maze::create(2, 2, vec![]).unwrap();
    let gs = GameState {
        maze: m,
        difficulty: Difficulty::Hard,
        pos: Position { x: 0, y: 0 },
        moves: vec![(Position { x: 0, y: 0 }, None)],
    };
    let mut bytes = gs.encode();
    assert!(GameState::decode(&bytes).is_some());
    bytes.push(0);
    assert!(GameState::decode(&bytes).is_none());
}
