use advent::beams::{sixteenth_task_2, start_from, Contraption, PathElement};
use advent::course::Direction;
use advent::SearchError;

fn lines(rows: &[&str]) -> Vec<String> {
    rows.iter().map(|r| r.to_string()).collect()
}

fn sample() -> Vec<String> {
    lines(&[
        ".|...\\....",
        "|.-.\\.....",
        ".....|-...",
        "........|.",
        "..........",
        ".........\\",
        "..../.\\\\..",
        ".-.-/..|..",
        ".|....-|.\\",
        "..//.|....",
    ])
}

#[test]
fn beam_from_the_top_left() {
    let m = Contraption::parse(&sample()).unwrap();
    let start = PathElement { direction: Direction::Right, row: 0, col: 0 };
    assert_eq!(start_from(start, &m), 46);
}

#[test]
fn best_boundary_beam() {
    assert_eq!(sixteenth_task_2(&sample()), Some(51));
}

#[test]
fn tiny_contraptions() {
    let m = Contraption::parse(&lines(&["."])).unwrap();
    let start = PathElement { direction: Direction::Right, row: 0, col: 0 };
    assert_eq!(start_from(start, &m), 1);
    // A splitter bends a horizontal beam up and down.
    let m2 = Contraption::parse(&lines(&[".|.", "...", "..."])).unwrap();
    assert_eq!(start_from(start, &m2), 4);
    assert_eq!(
        Contraption::parse(&lines(&["..", "x."])).unwrap_err(),
        SearchError::ParseError
    );
    assert_eq!(
        Contraption::parse(&lines(&["..", "."])).unwrap_err(),
        SearchError::InvalidDimensions
    );
}
