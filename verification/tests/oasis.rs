use advent::oasis::{estimate_next, estimate_previous, nineth_task_1, nineth_task_2};

#[test]
fn extrapolation_of_the_sample_histories() {
    assert_eq!(estimate_next(vec![0, 3, 6, 9, 12, 15]), 18);
    assert_eq!(estimate_next(vec![1, 3, 6, 10, 15, 21]), 28);
    assert_eq!(estimate_next(vec![10, 13, 16, 21, 30, 45]), 68);
    assert_eq!(estimate_previous(vec![0, 3, 6, 9, 12, 15]), -3);
    assert_eq!(estimate_previous(vec![1, 3, 6, 10, 15, 21]), 0);
    assert_eq!(estimate_previous(vec![10, 13, 16, 21, 30, 45]), 5);
    assert_eq!(estimate_next(vec![]), 0);
    assert_eq!(estimate_next(vec![-5, -5, -5]), -5);
}

#[test]
fn summed_tasks() {
    let lines: Vec<String> = vec![
        "0 3 6 9 12 15".to_string(),
        "1 3 6 10 15 21".to_string(),
        "10 13 16 21 30 45".to_string(),
    ];
    assert_eq!(nineth_task_1(&lines), Some(114));
    assert_eq!(nineth_task_2(&lines), Some(2));
    let bad: Vec<String> = vec!["1 2 x".to_string()];
    assert_eq!(nineth_task_1(&bad), None);
}
