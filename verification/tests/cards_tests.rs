use postflop_cfr::cards::{
    card_to_number, check_card_overlap, check_hand_overlap, check_hands_overlap, get_rank,
    get_suit, hand_to_string, number_to_card, board_has_turn, board_has_river,
};

#[test]
fn test_card_encoding() {
    // kc: rank 11 (king), suit 0 (clubs).
    assert_eq!(card_to_number("kc".to_string()), 44);
    assert_eq!(card_to_number("2c".to_string()), 0);
    assert_eq!(card_to_number("as".to_string()), 51);
    assert_eq!(card_to_number("Th".to_string()), 34);
    assert_eq!(get_rank(44), 11);
    assert_eq!(get_suit(44), 0);
    assert_eq!(number_to_card(44), "kc");
    assert_eq!(number_to_card(51), "as");
    for c in 0u8..52 {
        assert_eq!(card_to_number(number_to_card(c)), c);
    }
}

#[test]
fn test_hand_to_string() {
    assert_eq!(hand_to_string(&[44, 51]), "kcas");
}

#[test]
fn test_board_queries() {
    let board = [2, 6, 20, 52, 52];
    assert!(!board_has_turn(&board));
    assert!(!board_has_river(&board));
    assert!(check_card_overlap(6, &board));
    assert!(!check_card_overlap(7, &board));
    assert!(check_hand_overlap([6, 30], &board));
    assert!(!check_hand_overlap([7, 30], &board));
    assert!(check_hands_overlap(&[6, 30], &[30, 40]));
    assert!(!check_hands_overlap(&[6, 30], &[7, 40]));
    let turned = [2, 6, 20, 15, 52];
    assert!(board_has_turn(&turned));
    assert!(!board_has_river(&turned));
}
