use advent::lagoon::{area, Direction};

#[test]
fn test_area() {
    let p = vec![(0, 0), (0, 1), (1, 1), (1, 0), (0, 0)];
    let a = area(&p);
    assert_eq!(1, a);
}

#[test]
fn area_of_a_rectangle() {
    // A 6 by 4 rectangle traced clockwise.
    let p = vec![(0, 0), (0, 6), (4, 6), (4, 0), (0, 0)];
    assert_eq!(area(&p), 24);
    // The same rectangle counterclockwise gives the same unsigned area.
    let q = vec![(0, 0), (4, 0), (4, 6), (0, 6), (0, 0)];
    assert_eq!(area(&q), 24);
}

#[test]
fn offsets_and_jumps() {
    assert_eq!(Direction::Left.offset(), (0, -1));
    assert_eq!(Direction::Right.offset(), (0, 1));
    assert_eq!(Direction::Up.offset(), (-1, 0));
    assert_eq!(Direction::Down.offset(), (1, 0));
    assert_eq!(Direction::Right.jump((2, 3), 5), (2, 8));
    assert_eq!(Direction::Up.jump((2, 3), 5), (-3, 3));
}
