use rush_hour::car::{Car, CarType, Dir, MoveDir};
use rush_hour::grid::Grid;
use rush_hour::search::{solve, Step};

fn step(id: char, dir: MoveDir, count: usize) -> Step {
    Step { id, dir, count }
}

#[test]
fn solve_puzzle() {
    let grid = Grid::parse(
        "
        +--x---+
        |...LLL|
        |......|
        |..BBBR|
        |...G.R|
        |..XGUU|
        |..X...|
        +------+
        ",
    )
    .unwrap();

    assert_eq!(
        Some(vec![
            step('L', MoveDir::Left, 3),
            step('B', MoveDir::Left, 2),
            step('G', MoveDir::Up, 3),
            step('B', MoveDir::Right, 2),
            step('X', MoveDir::Up, 1),
            step('U', MoveDir::Left, 1),
            step('R', MoveDir::Down, 1),
            step('B', MoveDir::Right, 1),
            step('X', MoveDir::Up, 1),
            step('U', MoveDir::Left, 3),
            step('X', MoveDir::Down, 1),
            step('B', MoveDir::Left, 3),
            step('G', MoveDir::Down, 1),
            step('L', MoveDir::Right, 3),
            step('G', MoveDir::Down, 2),
            step('B', MoveDir::Right, 3),
            step('X', MoveDir::Up, 3),
        ]),
        solve(grid)
    );
}

#[test]
fn terminal_scenario_counts() {
    let grid = Grid::parse(
        "
        +--x---+
        |...LLL|
        |......|
        |..BBBR|
        |...G.R|
        |..XGUU|
        |..X...|
        +------+
        ",
    )
    .unwrap();
    let steps = solve(grid).unwrap();
    assert_eq!(steps.len(), 17);
    assert_eq!(steps[0], step('L', MoveDir::Left, 3));
    assert_eq!(steps[16], step('X', MoveDir::Up, 3));
    let total: usize = steps.iter().map(|s| s.count).sum();
    assert_eq!(total, 34);
}

#[test]
fn no_solution_when_boxed_in() {
    let grid = Grid::parse(
        "
        +-x+
        |XA|
        |XA|
        +--+
        ",
    )
    .unwrap();
    assert_eq!(solve(grid), None);
}

#[test]
fn already_solved_puzzle_needs_no_steps() {
    // The player's head starts on the exit cell.
    let grid = Grid::parse(
        "
        +x-+
        |XA|
        |XA|
        +--+
        ",
    )
    .unwrap();
    assert_eq!(solve(grid), Some(vec![]));
}

#[test]
fn parse_rejects_empty_input() {
    assert!(Grid::parse("").is_none());
}

#[test]
fn parse_rejects_input_without_exit() {
    let r = Grid::parse(
        "
        +---+
        |.X.|
        |.X.|
        +---+
        ",
    );
    assert!(r.is_none());
}

#[test]
fn parse_reads_geometry_and_vehicles() {
    let grid = Grid::parse(
        "
        +--x---+
        |...LLL|
        |......|
        |..BBBR|
        |...G.R|
        |..XGUU|
        |..X...|
        +------+
        ",
    )
    .unwrap();
    assert_eq!(grid.width, 6);
    assert_eq!(grid.height, 6);
    assert_eq!(grid.exit, (2, 0));
    assert_eq!(grid.cars.len(), 6);
    let l = grid.cars.iter().find(|c| c.id == 'L').unwrap();
    assert_eq!((l.x, l.y, l.length, l.horizontal), (3, 0, 3, true));
    let x = grid.cars.iter().find(|c| c.id == 'X').unwrap();
    assert_eq!((x.x, x.y, x.length, x.horizontal), (2, 4, 2, false));
    assert!(x.is_player());
    assert!(!l.is_player());
}

#[test]
fn idempotent_parse_round_trip() {
    let text = "
        +--x---+
        |...LLL|
        |......|
        |..BBBR|
        |...G.R|
        |..XGUU|
        |..X...|
        +------+
        ";
    let grid = Grid::parse(text).unwrap();
    let cells = grid.render();
    // Reinsert the border and the exit marker.
    let mut rebuilt = String::new();
    rebuilt.push('+');
    for x in 0..grid.width {
        if grid.exit == (x, 0) {
            rebuilt.push('x');
        } else {
            rebuilt.push('-');
        }
    }
    rebuilt.push('+');
    rebuilt.push('\n');
    for row in &cells {
        rebuilt.push('|');
        for c in row {
            rebuilt.push(*c);
        }
        rebuilt.push('|');
        rebuilt.push('\n');
    }
    rebuilt.push('+');
    for _ in 0..grid.width {
        rebuilt.push('-');
    }
    rebuilt.push('+');
    let reparsed = Grid::parse(&rebuilt).unwrap();
    assert_eq!(reparsed, grid);
}

#[test]
fn render_draws_each_vehicle() {
    let grid = Grid::parse(
        "
        +-x+
        |XA|
        |X.|
        +--+
        ",
    )
    .unwrap();
    let cells = grid.render();
    assert_eq!(cells, vec![vec!['X', 'A'], vec!['X', '.']]);
}

#[test]
fn car_new_horizontal_origin_and_length() {
    let car = Car::new('B', vec![(4, 3), (2, 3), (3, 3)]);
    assert_eq!(car.id, 'B');
    assert_eq!((car.x, car.y), (2, 3));
    assert_eq!(car.length, 3);
    assert!(car.horizontal);
    assert_eq!(car.car_type, CarType::Other);
}

#[test]
fn car_new_vertical_player() {
    let car = Car::new('X', vec![(1, 2), (1, 1)]);
    assert_eq!((car.x, car.y), (1, 1));
    assert_eq!(car.length, 2);
    assert!(!car.horizontal);
    assert_eq!(car.car_type, CarType::Player);
}

#[test]
fn car_body_head_tail_and_includes() {
    let car = Car::new('A', vec![(2, 1), (2, 2), (2, 3)]);
    assert_eq!(car.head(), (2, 1));
    assert_eq!(car.tail(), (2, 3));
    assert_eq!(car.body(), vec![(2, 1), (2, 2), (2, 3)]);
    assert!(car.includes((2, 2)));
    assert!(!car.includes((3, 2)));
    assert!(!car.includes((2, 4)));
}

#[test]
fn move_car_legal_and_illegal() {
    let grid = Grid::parse(
        "
        +--x---+
        |...LLL|
        |......|
        |..BBBR|
        |...G.R|
        |..XGUU|
        |..X...|
        +------+
        ",
    )
    .unwrap();
    // L can slide left by one.
    let moved = grid.move_car('L', Dir::Forward).unwrap();
    let l = moved.cars.iter().find(|c| c.id == 'L').unwrap();
    assert_eq!((l.x, l.y), (2, 0));
    // An unknown identity is refused.
    assert!(grid.move_car('Z', Dir::Forward).is_none());
    // U cannot move left: G is in the way.
    assert!(grid.move_car('U', Dir::Forward).is_none());
    // L cannot move right: it would leave the board.
    assert!(grid.move_car('L', Dir::Backward).is_none());
    // X can start moving up: the cell above it is free.
    let up = grid.move_car('X', Dir::Forward);
    assert!(up.is_some());
}

#[test]
fn move_car_underflow_at_edge() {
    let grid = Grid::parse(
        "
        +-x+
        |A.|
        |A.|
        +--+
        ",
    )
    .unwrap();
    // A sits at the top edge already.
    assert!(grid.move_car('A', Dir::Forward).is_none());
}

#[test]
fn is_solved_detects_player_at_exit() {
    let solved = Grid::parse(
        "
        +x-+
        |XA|
        |XA|
        +--+
        ",
    )
    .unwrap();
    assert!(solved.is_solved());
    let unsolved = Grid::parse(
        "
        +-x+
        |XA|
        |XA|
        +--+
        ",
    )
    .unwrap();
    assert!(!unsolved.is_solved());
}

#[test]
fn car_fits_rules() {
    let grid = Grid::parse(
        "
        +-x+
        |X.|
        |XA|
        +--+
        ",
    )
    .unwrap();
    let x = *grid.cars.iter().find(|c| c.id == 'X').unwrap();
    let a = *grid.cars.iter().find(|c| c.id == 'A').unwrap();
    // A free in-bounds cell fits.
    assert!(grid.car_fits(&a, (1, 0)));
    // A cell taken by another vehicle does not.
    assert!(!grid.car_fits(&a, (0, 0)));
    // Out of bounds does not fit.
    assert!(!grid.car_fits(&a, (2, 0)));
    // The player may take the exit cell even against the border rule.
    assert!(grid.car_fits(&x, (1, 0)));
}

#[test]
fn next_moves_of_tiny_puzzle() {
    let grid = Grid::parse(
        "
        +-x+
        |A.|
        |A.|
        +--+
        ",
    )
    .unwrap();
    // A can only slide down? No: its tail would leave the board, so nothing moves.
    assert_eq!(grid.next_moves().len(), 0);
}

#[test]
fn diff_names_the_moved_vehicle() {
    let grid = Grid::parse(
        "
        +--x---+
        |...LLL|
        |......|
        |..BBBR|
        |...G.R|
        |..XGUU|
        |..X...|
        +------+
        ",
    )
    .unwrap();
    let moved = grid.move_car('L', Dir::Forward).unwrap();
    assert_eq!(moved.diff(&grid), Some(('L', MoveDir::Left)));
    let moved_down = grid.move_car('G', Dir::Backward).unwrap();
    assert_eq!(moved_down.diff(&grid), Some(('G', MoveDir::Down)));
    assert_eq!(grid.diff(&grid), None);
}

#[test]
fn grid_equality_is_structural() {
    let a = Grid::parse("
        +-x+
        |A.|
        |A.|
        +--+
        ")
    .unwrap();
    let b = Grid::parse("
        +-x+
        |A.|
        |A.|
        +--+
        ")
    .unwrap();
    assert_eq!(a, b);
    let c = a.move_car('A', Dir::Backward);
    assert!(c.is_none());
}

#[test]
fn identity_returns_its_argument() {
    assert_eq!(rush_hour::id(7u32), 7u32);
    assert_eq!(rush_hour::id("board"), "board");
}
