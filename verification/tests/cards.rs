use advent::cards::{fourth_task_1, parse_card, score_of};

#[test]
fn test_cards() {
    let input = "Card 1: 1 2 3 | 3 4 5 6";
    let card = parse_card(input).unwrap();
    assert_eq!(card.id, 1);
    assert_eq!(card.wins.len(), 3);
    assert_eq!(card.tips.len(), 4);
    assert_eq!(card.number_of_matches(), 1);
}

#[test]
fn duplicates_count_once() {
    let card = parse_card("Card 7: 5 6 | 5 5 6 9").unwrap();
    assert_eq!(card.number_of_matches(), 2);
    assert!(parse_card("Card7: 1 | 2").is_none());
    assert!(parse_card("Card 7: 1 2").is_none());
}

#[test]
fn scores() {
    assert_eq!(score_of(0), 0);
    assert_eq!(score_of(1), 1);
    assert_eq!(score_of(4), 8);
}

#[test]
fn summed_sample_scores() {
    let lines: Vec<String> = vec![
        "Card 1: 41 48 83 86 17 | 83 86  6 31 17  9 48 53".to_string(),
        "Card 2: 13 32 20 16 61 | 61 30 68 82 17 32 24 19".to_string(),
        "Card 3:  1 21 53 59 44 | 69 82 63 72 16 21 14  1".to_string(),
        "Card 4: 41 92 73 84 69 | 59 84 76 51 58  5 54 83".to_string(),
        "Card 5: 87 83 26 28 32 | 88 30 70 12 93 22 82 36".to_string(),
        "Card 6: 31 18 13 56 72 | 74 77 10 23 35 67 36 11".to_string(),
    ];
    assert_eq!(fourth_task_1(&lines), Some(13));
}
