use advent::course::{Course, Direction};
use advent::engine::{find_len, find_len_traced, shortest_path};
use advent::grid::{Grid, Limit, Position};
use advent::SearchError;

fn lines(rows: &[&str]) -> Vec<String> {
    rows.iter().map(|r| r.to_string()).collect()
}

fn benchmark_grid() -> Grid {
    let rows = lines(&[
        "2413432311323",
        "3215453535623",
        "3255245654254",
        "3446585845452",
        "4546657867536",
        "1438598798454",
        "4457876987766",
        "3637877979653",
        "4654967986887",
        "4564679986453",
        "1224686865563",
        "2546548887735",
        "4322674655533",
    ]);
    Grid::parse(&rows).unwrap()
}

#[test]
fn benchmark_min_one_max_three() {
    let grid = benchmark_grid();
    let (cost, _path) = find_len(&grid, 1, 3).unwrap();
    assert_eq!(cost, 102);
}

#[test]
fn benchmark_min_four_max_ten() {
    let grid = benchmark_grid();
    let (cost, _path) = find_len(&grid, 4, 10).unwrap();
    assert_eq!(cost, 94);
}

#[test]
fn long_runs_rewarded() {
    let rows = lines(&[
        "111111111111",
        "999999999991",
        "999999999991",
        "999999999991",
        "999999999991",
    ]);
    let grid = Grid::parse(&rows).unwrap();
    let (cost, _path) = find_len(&grid, 4, 10).unwrap();
    assert_eq!(cost, 71);
}

#[test]
fn single_cell_grid() {
    let rows = lines(&["5"]);
    let grid = Grid::parse(&rows).unwrap();
    let (cost, path) = find_len(&grid, 1, 3).unwrap();
    assert_eq!(cost, 0);
    assert_eq!(path, vec![Position { row: 0, col: 0 }]);
    assert!(find_len(&grid, 2, 3).is_none());
    assert_eq!(shortest_path(&grid, 2, 3), Err(SearchError::NoPathFound));
}

#[test]
fn unconstrained_equals_plain_shortest_path() {
    // With min_line 1 and a max_line larger than any possible run, the
    // result is the plain shortest-path cost (cells entered after the
    // start): here 2 + 3 + 6 + 9.
    let rows = lines(&["123", "456", "789"]);
    let grid = Grid::parse(&rows).unwrap();
    let (cost, _path) = find_len(&grid, 1, 100).unwrap();
    assert_eq!(cost, 20);
    // A tight run cap that still admits the same route.
    let (cost2, _path2) = find_len(&grid, 1, 2).unwrap();
    assert_eq!(cost2, 20);
}

#[test]
fn repeated_queries_agree() {
    let grid = benchmark_grid();
    let (c1, p1) = find_len(&grid, 4, 10).unwrap();
    let (c2, p2) = find_len(&grid, 4, 10).unwrap();
    assert_eq!(c1, c2);
    assert_eq!(p1, p2);
}

#[test]
fn settles_each_state_at_most_once() {
    let rows = lines(&[
        "111111111111",
        "999999999991",
        "999999999991",
        "999999999991",
        "999999999991",
    ]);
    let grid = Grid::parse(&rows).unwrap();
    let (outcome, settled) = find_len_traced(&grid, 4, 10);
    assert!(outcome.is_some());
    for i in 0..settled.len() {
        for j in (i + 1)..settled.len() {
            assert!(settled[i] != settled[j]);
        }
    }
}

#[test]
fn reported_path_has_reported_cost() {
    let grid = benchmark_grid();
    let (cost, path) = find_len(&grid, 1, 3).unwrap();
    assert_eq!(path[0], Position { row: 0, col: 0 });
    assert_eq!(
        path[path.len() - 1],
        Position { row: grid.height() - 1, col: grid.width() - 1 }
    );
    let mut total = 0u64;
    for p in path.iter().skip(1) {
        total += grid.cost(*p).unwrap();
    }
    assert_eq!(total, cost);
}

#[test]
fn grid_parse_rejects_bad_input() {
    assert_eq!(
        Grid::parse(&lines(&["12", "3a"])).unwrap_err(),
        SearchError::ParseError
    );
    assert_eq!(
        Grid::parse(&lines(&["12", "345"])).unwrap_err(),
        SearchError::InvalidDimensions
    );
    assert_eq!(
        Grid::parse(&lines(&[])).unwrap_err(),
        SearchError::InvalidDimensions
    );
    assert_eq!(
        Grid::parse(&lines(&[""])).unwrap_err(),
        SearchError::InvalidDimensions
    );
}

#[test]
fn cost_lookup_is_bounds_checked() {
    let grid = Grid::parse(&lines(&["12", "34"])).unwrap();
    assert_eq!(grid.cost(Position { row: 1, col: 1 }), Ok(4));
    assert_eq!(
        grid.cost(Position { row: 2, col: 0 }),
        Err(SearchError::OutOfBounds)
    );
}

#[test]
fn course_moves_follow_the_rules() {
    let grid = Grid::parse(&lines(&["111", "111", "111"])).unwrap();
    let pos = Position { row: 1, col: 1 };
    let course = Course { direction: Direction::Right, within_line: 2 };
    // Reversing is never legal.
    assert!(course.go(&pos, Direction::Left, &grid, 1, 3).is_none());
    // Continuing extends the run.
    let (p2, c2) = course.go(&pos, Direction::Right, &grid, 1, 3).unwrap();
    assert_eq!(p2, Position { row: 1, col: 2 });
    assert_eq!(c2, Course { direction: Direction::Right, within_line: 3 });
    // The run cap forbids continuing past max_line.
    let capped = Course { direction: Direction::Right, within_line: 3 };
    assert!(capped.go(&pos, Direction::Right, &grid, 1, 3).is_none());
    // Turning before min_line is illegal; after it, the run restarts.
    assert!(course.go(&pos, Direction::Down, &grid, 3, 5).is_none());
    let (p3, c3) = course.go(&pos, Direction::Down, &grid, 2, 5).unwrap();
    assert_eq!(p3, Position { row: 2, col: 1 });
    assert_eq!(c3, Course { direction: Direction::Down, within_line: 1 });
    // Leaving the grid is illegal.
    let edge = Position { row: 0, col: 2 };
    let up = Course { direction: Direction::Up, within_line: 1 };
    assert!(up.go(&edge, Direction::Up, &grid, 1, 3).is_none());
    assert!(up.go(&edge, Direction::Right, &grid, 1, 3).is_none());
}

#[test]
fn opposite_directions() {
    assert_eq!(Direction::Left.opposite(), Direction::Right);
    assert_eq!(Direction::Right.opposite(), Direction::Left);
    assert_eq!(Direction::Up.opposite(), Direction::Down);
    assert_eq!(Direction::Down.opposite(), Direction::Up);
}

#[test]
fn error_descriptions() {
    assert_eq!(
        SearchError::NoPathFound.describe(),
        "no route satisfies the movement rules"
    );
}

#[test]
fn seed_states_bypass_the_minimum_run() {
    // A 2x2 grid with min_line 2: the first move continues a seed run
    // (run length becomes 2), so a turn is then allowed and the goal,
    // reached on a run of 2, satisfies the stop condition.
    let rows = lines(&["11", "11"]);
    let grid = Grid::parse(&rows).unwrap();
    assert!(find_len(&grid, 2, 3).is_none());
    // On a 3x3 grid, running right across the top row (the seed run
    // counts from 1) and then down twice reaches the goal on a run of 2.
    let rows3 = lines(&["111", "111", "111"]);
    let grid3 = Grid::parse(&rows3).unwrap();
    let (cost, _path) = find_len(&grid3, 2, 3).unwrap();
    assert_eq!(cost, 4);
    // With the run cap at 2 as well, no route can end on a long-enough
    // straight run, so the same grid reports no path.
    assert!(find_len(&grid3, 2, 2).is_none());
}
