use micromouse::adachi::{Adachi, StepMapMode, UNREACHED};
use micromouse::maze::{Compass, Direction, Location, Maze, Position, Wall};
use micromouse::path_finder::{NavigationError, PathFinder};

const MAZE_16_LINES: [&str; 33] = [
    "+-+-+-+-+-+-+-+-+-+-+-+-+-+-+-+-+",
    "|             | | | |           |",
    "+-+ + +-+-+-+-+ + + + +-+-+-+ + +",
    "|   |     | |                 | |",
    "+ + +-+ + + + + + + + + +-+-+-+ +",
    "| |   | | |   | | | | | |     | |",
    "+ + + +-+-+ +-+-+-+ +-+-+ +-+ + +",
    "| | |   |         | |     |   | |",
    "+ +-+-+ + +-+-+-+ + + +-+ + + + +",
    "|                 |   | | | | | |",
    "+ +-+-+-+-+ +-+-+-+-+-+ +-+ + + +",
    "|     |     |       |       | | |",
    "+ +-+-+ +-+-+ +-+ + +-+-+-+-+-+ +",
    "|         |       |   |         |",
    "+ +-+ +-+-+ + +-+-+ + + +-+ +-+ +",
    "|   |     | |  G  | | |         |",
    "+ + +-+-+-+ +-+ + + + + + +-+ + +",
    "| |       |   |   | | | |     | |",
    "+ +-+-+-+ +-+ +-+-+ + + +-+ +-+ +",
    "|     |   |     |     |   |   | |",
    "+ +-+-+ +-+-+-+ +-+-+ +-+ +-+ + +",
    "| |   |     |     |     |     | |",
    "+ + + +-+-+ +-+-+ + +-+ +-+ +-+ +",
    "|   |         |             |   |",
    "+ +-+-+ +-+-+ +-+-+ +-+-+ + +-+ +",
    "|   |     |     |         | |   |",
    "+ + + +-+ +-+-+ +-+-+ +-+ + +-+ +",
    "| |   |   | |   | | |   |       |",
    "+ + +-+-+ + + +-+ + +-+ +-+ +-+ +",
    "|   | | | | |   |     |         |",
    "+ + + + + + +-+ + +-+ +-+-+-+-+ +",
    "| |               | |           |",
    "+-+-+-+-+-+-+-+-+-+-+-+-+-+-+-+-+",
];

fn maze_16_text() -> String {
    MAZE_16_LINES.join("\n")
}

fn all_cells_text(maze: &Maze) -> Vec<Wall> {
    let mut v = Vec::new();
    for y in 0..maze.get_height() {
        for x in 0..maze.get_width() {
            for c in Compass::iter() {
                v.push(maze.get(y, x, c));
            }
        }
    }
    v
}

fn open_2x2() -> Maze {
    let mut maze = Maze::new(2, 2);
    maze.set(0, 0, Compass::North, Wall::Absent);
    maze.set(0, 0, Compass::East, Wall::Absent);
    maze.set(0, 1, Compass::North, Wall::Absent);
    maze.set(1, 0, Compass::East, Wall::Absent);
    maze
}

#[test]
fn it_works() {
    let mut maze = Maze::new(16, 16);
    maze.init();
    println!("{}", maze.to_text());
}

#[test]
fn read() {
    let mut maze = Maze::new(16, 16);
    maze.init();
    match maze.read_maze_text(&maze_16_text(), 16, 16) {
        Ok(_) => {
            println!("Read maze file successfully\n{}", maze.to_text());
        }
        Err(e) => {
            println!("{}", e);
            return;
        }
    }
}

#[test]
fn solve() {
    let mut actual_maze = Maze::new(16, 16);
    actual_maze.init();
    match actual_maze.read_maze_text(&maze_16_text(), 16, 16) {
        Ok(_) => {
            println!("Read maze file successfully\n{}", actual_maze.to_text());
        }
        Err(e) => {
            println!("{}", e);
            return;
        }
    }

    let maze_text = actual_maze.to_text_data("   ", "---", "???", " ", "|", " ", "+", "   ");
    println!("{}", maze_text);

    let mut solver = Adachi::new(Maze::new(16, 16));

    let mut limit = 0;

    loop {
        let x = solver.get_location().pos.x;
        let y = solver.get_location().pos.y;
        let d = solver.get_location().dir;

        let front = actual_maze.get(y, x, d.turn(Direction::Forward));
        let left = actual_maze.get(y, x, d.turn(Direction::Left));
        let right = actual_maze.get(y, x, d.turn(Direction::Right));

        let goal = solver.get_goal();
        let dir = solver.navigate(front, left, right, goal);
        assert!(dir.is_ok());

        let dir = dir.unwrap();

        if actual_maze.get(y, x, d.turn(dir)) == Wall::Present {
            println!("Error: Wall is present at {:?}", d.turn(dir));
            println!("Loc:{} Go:{}", solver.get_location().to_text(), dir.to_log());
            assert!(false);
        }
        let mut loc = solver.get_location();
        loc.dir = loc.dir.turn(dir);
        loc.forward();

        println!(
            "{} {} {}",
            Wall::make_wall_detection_log(left, front, right),
            dir.to_log(),
            loc.to_text()
        );
        solver.set_location(loc);

        limit += 1;
        if limit > 1000 {
            println!("Limit reached");
            assert!(false);
        }

        if loc.pos == solver.get_goal() {
            println!("Goal reached");
            break;
        }
    }
}

#[test]
fn two_by_two_open_distances() {
    let mut solver = Adachi::new(open_2x2());
    solver.calc_step_map(Position::new(1, 1));
    assert_eq!(solver.get_step(1, 1), 0);
    assert_eq!(solver.get_step(1, 0), 1);
    assert_eq!(solver.get_step(0, 1), 1);
    assert_eq!(solver.get_step(0, 0), 2);
}

#[test]
fn goal_distance_is_zero() {
    let mut solver = Adachi::new(Maze::new(5, 4));
    solver.calc_step_map(Position::new(3, 2));
    assert_eq!(solver.get_step(3, 2), 0);
    solver.set_mode(StepMapMode::UnexploredAsPresent);
    solver.calc_step_map(Position::new(3, 2));
    assert_eq!(solver.get_step(3, 2), 0);
}

#[test]
fn distances_match_breadth_first_search() {
    let mut maze = Maze::new(16, 16);
    maze.read_maze_text(&maze_16_text(), 16, 16).unwrap();
    let goal = maze.get_goal();
    let mut solver = Adachi::new(maze.clone());
    solver.set_mode(StepMapMode::UnexploredAsPresent);
    solver.calc_step_map(goal);
    let mut dist = vec![vec![u16::MAX; 16]; 16];
    dist[goal.y][goal.x] = 0;
    let mut queue = std::collections::VecDeque::new();
    queue.push_back((goal.y, goal.x));
    while let Some((y, x)) = queue.pop_front() {
        for c in Compass::iter() {
            if maze.get(y, x, c) == Wall::Absent {
                if let Some((ny, nx)) = maze.get_neighbor_cell(y, x, c) {
                    if dist[ny][nx] == u16::MAX {
                        dist[ny][nx] = dist[y][x] + 1;
                        queue.push_back((ny, nx));
                    }
                }
            }
        }
    }
    for y in 0..16 {
        for x in 0..16 {
            let expected = if dist[y][x] == u16::MAX { UNREACHED } else { dist[y][x] };
            assert_eq!(solver.get_step(x, y), expected);
        }
    }
}

#[test]
fn conservative_never_shorter() {
    let mut maze = Maze::new(4, 4);
    maze.set(0, 0, Compass::North, Wall::Absent);
    maze.set(1, 0, Compass::East, Wall::Absent);
    maze.set(1, 1, Compass::North, Wall::Present);
    let goal = Position::new(2, 2);
    let mut optimistic = Adachi::new(maze.clone());
    optimistic.calc_step_map(goal);
    let mut conservative = Adachi::new(maze);
    conservative.set_mode(StepMapMode::UnexploredAsPresent);
    conservative.calc_step_map(goal);
    for y in 0..4 {
        for x in 0..4 {
            assert!(conservative.get_step(x, y) >= optimistic.get_step(x, y));
        }
    }
    assert_eq!(optimistic.get_step(0, 0), 4);
    assert_eq!(conservative.get_step(0, 0), UNREACHED);
}

#[test]
fn recompute_is_idempotent() {
    let mut solver = Adachi::new(open_2x2());
    let goal = Position::new(0, 1);
    solver.calc_step_map(goal);
    let first: Vec<u16> = (0..4).map(|i| solver.get_step(i % 2, i / 2)).collect();
    solver.calc_step_map(goal);
    let second: Vec<u16> = (0..4).map(|i| solver.get_step(i % 2, i / 2)).collect();
    assert_eq!(first, second);
    assert_eq!(first, vec![1, 2, 0, 1]);
}

#[test]
fn navigate_avoids_present_edges() {
    let mut solver = Adachi::new(Maze::new(4, 4));
    let goal = solver.get_goal();
    let dir = solver.navigate(Wall::Present, Wall::Present, Wall::Present, goal);
    assert_eq!(dir, Err(NavigationError::NoPath));
    let mut solver = Adachi::new(Maze::new(4, 4));
    let dir = solver.navigate(Wall::Present, Wall::Present, Wall::Absent, goal).unwrap();
    assert_eq!(dir, Direction::Right);
    assert_ne!(Compass::North.turn(dir), Compass::North);
    let mut solver = Adachi::new(Maze::new(4, 4));
    let dir = solver.navigate(Wall::Absent, Wall::Present, Wall::Present, goal).unwrap();
    assert_eq!(dir, Direction::Forward);
}

#[test]
fn boundary_stays_present() {
    let mut maze = Maze::new(3, 2);
    for _ in 0..3 {
        maze.set(0, 0, Compass::South, Wall::Absent);
        maze.set(0, 0, Compass::West, Wall::Unexplored);
        maze.set(1, 2, Compass::North, Wall::Absent);
        maze.set(1, 2, Compass::East, Wall::Absent);
    }
    assert_eq!(maze.get(0, 0, Compass::South), Wall::Present);
    assert_eq!(maze.get(0, 0, Compass::West), Wall::Present);
    assert_eq!(maze.get(1, 2, Compass::North), Wall::Present);
    assert_eq!(maze.get(1, 2, Compass::East), Wall::Present);
    maze.set(0, 1, Compass::North, Wall::Absent);
    assert_eq!(maze.get(0, 1, Compass::North), Wall::Absent);
    assert_eq!(maze.get(1, 1, Compass::South), Wall::Absent);
}

#[test]
fn goal_reached_at_start() {
    let mut maze = Maze::new(4, 4);
    maze.set_goal(Position::new(0, 0));
    let mut solver = Adachi::new(maze);
    assert_eq!(solver.get_location(), Location::new());
    let r = solver.navigate(Wall::Absent, Wall::Absent, Wall::Absent, Position::new(0, 0));
    assert_eq!(r, Err(NavigationError::GoalReached));
    assert_eq!(solver.get_location(), Location::new());
}

#[test]
fn enclosed_cell_has_no_path() {
    let mut solver = Adachi::new(Maze::new(2, 2));
    let r = solver.navigate(Wall::Present, Wall::Present, Wall::Present, Position::new(1, 1));
    assert_eq!(r, Err(NavigationError::NoPath));
    assert_eq!(solver.get_step(0, 0), UNREACHED);
    assert_eq!(solver.get_step(1, 1), 0);
}

#[test]
fn text_round_trip() {
    let mut maze = Maze::new(16, 16);
    maze.read_maze_text(&maze_16_text(), 16, 16).unwrap();
    let text = maze.write_maze_text();
    let mut again = Maze::new(16, 16);
    again.read_maze_text(&text, 16, 16).unwrap();
    assert_eq!(all_cells_text(&again), all_cells_text(&maze));
    assert_eq!(again.get_goal(), maze.get_goal());
    assert_eq!(again.get_goal(), Position::new(7, 8));
    assert_eq!(again.write_maze_text(), text);
}

#[test]
fn read_refuses_bad_text() {
    let mut maze = Maze::new(16, 16);
    let before = maze.write_maze_text();
    assert!(maze.read_maze_text(&maze_16_text(), 8, 16).is_err());
    assert!(maze.read_maze_text("+-+\n| |\n", 16, 16).is_err());
    let short: String = maze_16_text().lines().map(|l| &l[..l.len().min(20)]).collect::<Vec<_>>().join("\n");
    assert!(maze.read_maze_text(&short, 16, 16).is_err());
    assert_eq!(maze.write_maze_text(), before);
}

#[test]
fn read_crlf_text() {
    let mut a = Maze::new(16, 16);
    a.read_maze_text(&maze_16_text(), 16, 16).unwrap();
    let mut b = Maze::new(16, 16);
    b.read_maze_text(&maze_16_text().replace('\n', "\r\n"), 16, 16).unwrap();
    assert_eq!(all_cells_text(&a), all_cells_text(&b));
    assert_eq!(a.get(0, 0, Compass::North), Wall::Absent);
    assert_eq!(a.get(0, 0, Compass::East), Wall::Present);
}

#[test]
fn turn_tables_are_inverse() {
    for h in Compass::iter() {
        assert_eq!(h.turn(Direction::Forward), h);
        assert_eq!(h.turn(Direction::Backward).turn(Direction::Backward), h);
        assert_eq!(h.turn(Direction::Left).turn(Direction::Right), h);
        for h2 in Compass::iter() {
            assert_eq!(h.turn(h.get_direction_to(h2)), h2);
        }
    }
    assert_eq!(Compass::North.turn(Direction::Right), Compass::East);
    assert_eq!(Compass::West.turn(Direction::Left), Compass::South);
    assert_eq!(Compass::East.get_direction_to(Compass::North), Direction::Left);
}

#[test]
fn logs_and_tags() {
    assert_eq!(Wall::make_wall_detection_log(Wall::Present, Wall::Absent, Wall::Unexplored), "| ?");
    assert_eq!(Wall::make_wall_detection_log(Wall::Absent, Wall::Present, Wall::Present), " -|");
    assert_eq!(Wall::from_bool(true), Wall::Present);
    assert_eq!(Wall::from_bool(false), Wall::Absent);
    assert_eq!(Direction::Left.to_log(), "L<");
    assert_eq!(Direction::Backward.to_log(), "Bv");
    assert_eq!(Compass::South.to_log(), "S");
    assert_eq!(Direction::iter(), vec![Direction::Forward, Direction::Left, Direction::Right, Direction::Backward]);
    let mut loc = Location::new();
    loc.turn(Direction::Right);
    loc.forward();
    loc.forward();
    loc.turn(Direction::Left);
    loc.forward();
    assert_eq!(loc.pos, Position::new(2, 1));
    assert_eq!(loc.dir, Compass::North);
    let far = Location { pos: Position::new(12, 3), dir: Compass::West };
    assert_eq!(far.to_text(), "Y: 3, X:12, Dir:W");
}

#[test]
fn new_maze_layout() {
    let maze = Maze::new(3, 2);
    assert_eq!(maze.get_width(), 3);
    assert_eq!(maze.get_height(), 2);
    assert_eq!(maze.get_goal(), Position::new(1, 1));
    assert_eq!(maze.get(0, 0, Compass::East), Wall::Present);
    assert_eq!(maze.get(0, 1, Compass::East), Wall::Unexplored);
    assert_eq!(maze.get(0, 0, Compass::North), Wall::Unexplored);
    assert_eq!(maze.get_neighbor_cell(0, 0, Compass::North), Some((1, 0)));
    assert_eq!(maze.get_neighbor_cell(1, 0, Compass::North), None);
    assert_eq!(maze.get_neighbor_cell(0, 2, Compass::East), None);
    assert_eq!(maze.get_neighbor_cell(0, 0, Compass::West), None);
    assert_eq!(maze.get_neighbor_cell(1, 1, Compass::South), Some((0, 1)));
    let d = Maze::default();
    assert_eq!(d.get_width(), 16);
    assert_eq!(d.get_goal(), Position::new(8, 8));
}

#[test]
fn text_rendering_exact() {
    let mut maze = Maze::new(2, 1);
    maze.set_goal(Position::new(1, 0));
    maze.set(0, 0, Compass::East, Wall::Absent);
    let text = maze.to_text_data(" ", "-", "?", " ", "|", "?", "+", "G");
    assert_eq!(text, "+-+-+\n|  G| \n+-+-+");
    assert_eq!(maze.write_maze_text(), "+-+-+\n|  G| \n+-+-+");
    assert_eq!(maze.to_text(), "+--+--+\n|   GL|  \n+--+--+\n");
}

#[test]
fn step_map_rendering_exact() {
    let mut solver = Adachi::new(open_2x2());
    solver.calc_step_map(Position::new(1, 1));
    let expected = [
        "+---+---+",
        "|  1   0| 1",
        "+   +   +",
        "|  2   1| 0",
        "+---+---+",
        "   0   1",
    ]
    .join("\n");
    assert_eq!(solver.display_step_map(), expected);
}

#[test]
fn unexplored_edges_round_trip() {
    let fresh = Maze::new(1, 2);
    let text = fresh.write_maze_text();
    assert_eq!(text, "+-+\n|G| \n+?+\n| | \n+-+");
    let mut again = Maze::new(1, 2);
    again.set(0, 0, Compass::North, Wall::Absent);
    again.set_goal(Position::new(0, 0));
    again.read_maze_text(&text, 1, 2).unwrap();
    assert_eq!(again.get(0, 0, Compass::North), Wall::Unexplored);
    assert_eq!(again.get_goal(), Position::new(0, 1));
    assert_eq!(all_cells_text(&again), all_cells_text(&fresh));

    let mut maze = Maze::new(3, 3);
    maze.set(0, 0, Compass::North, Wall::Absent);
    maze.set(1, 1, Compass::West, Wall::Present);
    maze.set(2, 1, Compass::East, Wall::Absent);
    maze.set_goal(Position::new(2, 1));
    let text = maze.write_maze_text();
    let mut back = Maze::new(3, 3);
    back.read_maze_text(&text, 3, 3).unwrap();
    assert_eq!(all_cells_text(&back), all_cells_text(&maze));
    assert_eq!(back.get_goal(), Position::new(2, 1));
    assert_eq!(back.get(1, 2, Compass::South), Wall::Unexplored);
    assert_eq!(back.write_maze_text(), text);
}
