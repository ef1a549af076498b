use advent::network::{eighth_task_1, gcd, gcm, parse_node, parse_road, Direction};

fn lines(rows: &[&str]) -> Vec<String> {
    rows.iter().map(|r| r.to_string()).collect()
}

#[test]
fn walks_of_the_sample_networks() {
    let sample1 = lines(&[
        "RL",
        "",
        "AAA = (BBB, CCC)",
        "BBB = (DDD, EEE)",
        "CCC = (ZZZ, GGG)",
        "DDD = (DDD, DDD)",
        "EEE = (EEE, EEE)",
        "GGG = (GGG, GGG)",
        "ZZZ = (ZZZ, ZZZ)",
    ]);
    assert_eq!(eighth_task_1(&sample1), Some(2));
    let sample2 = lines(&["LLR", "", "AAA = (BBB, BBB)", "BBB = (AAA, ZZZ)", "ZZZ = (ZZZ, ZZZ)"]);
    assert_eq!(eighth_task_1(&sample2), Some(6));
    // A network that never reaches the target gives up.
    let stuck = lines(&["L", "", "AAA = (AAA, AAA)", "ZZZ = (ZZZ, ZZZ)"]);
    assert_eq!(eighth_task_1(&stuck), None);
}

#[test]
fn node_and_road_parsing() {
    let node = parse_node("AAA = (BBB, CCC)").unwrap();
    assert_eq!(node.name, "AAA");
    assert_eq!(node.left, "BBB");
    assert_eq!(node.right, "CCC");
    assert!(parse_node("AAA - (BBB, CCC)").is_none());
    assert_eq!(
        parse_road("LR").unwrap(),
        vec![Direction::Left, Direction::Right]
    );
    assert!(parse_road("LQR").is_none());
    assert!(parse_road("").is_none());
}

#[test]
fn divisor_folding() {
    assert_eq!(gcd(12, 18), 6);
    assert_eq!(gcd(3, 7), 1);
    assert_eq!(gcd(0, 5), 5);
    assert_eq!(gcm(&vec![4, 6]), Some(12));
    assert_eq!(gcm(&vec![2, 3, 4]), Some(12));
    assert_eq!(gcm(&vec![]), None);
    assert_eq!(gcm(&vec![0, 0]), None);
}
