use postflop_cfr::cards::{Board, card_to_number};
use postflop_cfr::isomorphism::build_initial_suit_groups;
use postflop_cfr::tree::ChanceNode;

#[test]
fn test_correct_turn_cards_amount() {
    let board: Board = [
        card_to_number("kc".to_string()),
        card_to_number("7h".to_string()),
        card_to_number("2h".to_string()),
        52,
        52,
    ];
    let chance = ChanceNode::new(&board, 1, true);
    assert_eq!(chance.next_cards.len(), 36);
    assert_eq!(chance.next_weights.len(), 36);
    for card in chance.next_cards.iter() {
        assert!(!board.contains(card));
    }
}

#[test]
fn test_correct_turn_cards_amount_2() {
    let board: Board = [
        card_to_number("7c".to_string()),
        card_to_number("7h".to_string()),
        card_to_number("7d".to_string()),
        52,
        52,
    ];
    let chance = ChanceNode::new(&board, 1, true);
    assert_eq!(chance.next_cards.len(), 25);
    assert_eq!(chance.next_weights.len(), 25);
    println!("{:?}", chance.next_weights);
    for card in chance.next_cards.iter() {
        assert!(!board.contains(card));
    }
}

#[test]
fn test_correct_turn_cards_amount_3() {
    let board: Board = [
        card_to_number("kc".to_string()),
        card_to_number("7c".to_string()),
        card_to_number("2c".to_string()),
        52,
        52,
    ];
    let chance = ChanceNode::new(&board, 1, true);
    assert_eq!(chance.next_cards.len(), 23);
    assert_eq!(chance.next_weights.len(), 23);
    println!("{:?}", chance.next_weights);
    for card in chance.next_cards.iter() {
        assert!(!board.contains(card));
    }
}

#[test]
fn test_correct_river_cards_amount() {
    let board: Board = [2, 6, 20, 15, 52];
    let chance = ChanceNode::new(&board, 1, true);
    assert_eq!(chance.next_cards.len(), 48);
    for card in chance.next_cards.iter() {
        assert!(!board.contains(card));
    }
}

#[test]
fn test_build_suit_groups() {
    let board: Board = [
        card_to_number("7c".to_string()),
        card_to_number("7h".to_string()),
        card_to_number("7d".to_string()),
        52,
        52,
    ];
    let sg = build_initial_suit_groups(&board);

    println!("{:?}", sg);
}

#[test]
fn test_chance_weight_totals() {
    // A two-tone flop leaves two suits interchangeable; a mono flop
    // leaves three.  Either way the weights must cover all 49 cards.
    let two_tone: Board = [
        card_to_number("kc".to_string()),
        card_to_number("7h".to_string()),
        card_to_number("2h".to_string()),
        52,
        52,
    ];
    let chance = ChanceNode::new(&two_tone, 1, false);
    assert_eq!(chance.next_cards.len(), 36);
    let total: i32 = chance.next_weights.iter().map(|w| *w as i32).sum();
    assert_eq!(total, 49);

    let mono: Board = [
        card_to_number("kc".to_string()),
        card_to_number("7c".to_string()),
        card_to_number("2c".to_string()),
        52,
        52,
    ];
    let chance = ChanceNode::new(&mono, 1, false);
    assert_eq!(chance.next_cards.len(), 23);
    let total: i32 = chance.next_weights.iter().map(|w| *w as i32).sum();
    assert_eq!(total, 49);
}
