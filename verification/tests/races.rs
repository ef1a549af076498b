use advent::races::{calculate_wins, parse_group, parse_group2, sixth_task_1, sixth_task_2};

#[test]
fn wins_of_the_sample_races() {
    assert_eq!(calculate_wins(7, 9), 4);
    assert_eq!(calculate_wins(15, 40), 8);
    assert_eq!(calculate_wins(30, 200), 9);
    assert_eq!(calculate_wins(0, 0), 0);
    assert_eq!(calculate_wins(1, 0), 0);
}

#[test]
fn parse_group_reads_labelled_numbers() {
    assert_eq!(
        parse_group("Time:      7  15   30", "Time").unwrap(),
        vec![7, 15, 30]
    );
    assert!(parse_group("Distance:  9  40  200", "Time").is_none());
    assert!(parse_group("Time", "Time").is_none());
}

#[test]
fn parse_group2_glues_the_digits() {
    assert_eq!(
        parse_group2("Time:      7  15   30", "Time").unwrap(),
        71530
    );
    assert_eq!(
        parse_group2("Distance:  9  40  200", "Distance").unwrap(),
        940200
    );
}

#[test]
fn sample_tasks() {
    let lines: Vec<String> = vec![
        "Time:      7  15   30".to_string(),
        "Distance:  9  40  200".to_string(),
    ];
    assert_eq!(sixth_task_1(&lines), Some(288));
    assert_eq!(sixth_task_2(&lines), Some(71503));
    let bad: Vec<String> = vec!["Time: 7".to_string()];
    assert_eq!(sixth_task_1(&bad), None);
}
