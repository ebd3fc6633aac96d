use postflop_cfr::cards::Board;
use postflop_cfr::parse::{
    build_player_specific_merged_range, construct_starting_range_from_string, parse_item,
};

const BLANK: Board = [52, 52, 52, 52, 52];

#[test]
fn test_parse_item_forms() {
    let it = parse_item("AKs").unwrap();
    assert_eq!((it.r1, it.r2), (12, 11));
    assert!(it.suited && !it.offsuit && !it.plus);
    assert_eq!(it.weight, 100);

    let it = parse_item("77+").unwrap();
    assert_eq!((it.r1, it.r2), (5, 5));
    assert!(it.plus);

    let it = parse_item("Q8o@50").unwrap();
    assert_eq!((it.r1, it.r2), (10, 6));
    assert!(!it.suited && it.offsuit);
    assert_eq!(it.weight, 50);

    let it = parse_item("88@50").unwrap();
    assert_eq!(it.weight, 50);

    assert!(parse_item("").is_none());
    assert!(parse_item("A").is_none());
    assert!(parse_item("AXs").is_none());
    assert!(parse_item("AKs@101").is_none());
    assert!(parse_item("AKs@").is_none());
    assert!(parse_item("AKx").is_none());
}

#[test]
fn test_construct_counts() {
    // A pair makes six combinations, suited four, offsuit twelve,
    // bare sixteen.
    assert_eq!(construct_starting_range_from_string("QQ", &BLANK).len(), 6);
    assert_eq!(construct_starting_range_from_string("AKs", &BLANK).len(), 4);
    assert_eq!(construct_starting_range_from_string("AKo", &BLANK).len(), 12);
    assert_eq!(construct_starting_range_from_string("AK", &BLANK).len(), 16);
    assert_eq!(construct_starting_range_from_string("QQ,33,22", &BLANK).len(), 18);
    // The plus form runs the pair up to aces: QQ, KK, AA.
    assert_eq!(construct_starting_range_from_string("QQ+", &BLANK).len(), 18);
    // KTo+ covers KTo, KJo, KQo.
    assert_eq!(construct_starting_range_from_string("KTo+", &BLANK).len(), 36);
    // A zero weight omits the item; duplicates collapse.
    assert_eq!(construct_starting_range_from_string("QQ@0", &BLANK).len(), 0);
    assert_eq!(construct_starting_range_from_string("QQ,QQ", &BLANK).len(), 6);
    // Unrecognised items are skipped, the rest stays.
    assert_eq!(construct_starting_range_from_string("QQ,bogus,22", &BLANK).len(), 12);
    // The full deck gives 1326 pairs of cards.
    assert_eq!(construct_starting_range_from_string("random", &BLANK).len(), 1326);
}

#[test]
fn test_construct_filters_board() {
    let board: Board = [40, 41, 0, 52, 52];
    // Two queens sit on the board, so only one QQ combination is left.
    let range = construct_starting_range_from_string("QQ", &board);
    assert_eq!(range.len(), 1);
    assert_eq!(range[0].hand, [42, 43]);
    // The range is sorted ascending by pair index with fresh fields.
    let range = construct_starting_range_from_string("random", &board);
    assert_eq!(range.len(), (49 * 48) / 2);
    for w in range.windows(2) {
        assert!(w[0].raw_index < w[1].raw_index);
    }
    for c in range.iter() {
        assert_eq!(c.combos, 0);
        assert_eq!(c.weight, 1);
        assert_eq!(c.canon_index, c.raw_index);
        assert!(!board.contains(&c.hand[0]) && !board.contains(&c.hand[1]));
    }
}

#[test]
fn test_build_player_weights() {
    let merged = construct_starting_range_from_string("QQ,JJ", &BLANK);
    let oop = build_player_specific_merged_range("QQ@25", &merged);
    assert_eq!(oop.len(), merged.len());
    for (c, m) in oop.iter().zip(merged.iter()) {
        assert_eq!(c.hand, m.hand);
        if c.hand[0] >= 40 {
            assert_eq!(c.combos, 25);
        } else {
            assert_eq!(c.combos, 0);
        }
    }
    let any = build_player_specific_merged_range("random", &merged);
    for c in any.iter() {
        assert_eq!(c.combos, 100);
    }
}

#[test]
fn test_plus_and_suited_pair_edges() {
    // A suited marker on a pair denotes nothing: pairs have no suited
    // class.
    assert_eq!(construct_starting_range_from_string("77s", &BLANK).len(), 0);
    // The plus form keeps the high card and raises the low card, so
    // T9s+ is just T9s while A5o+ runs A5o through AKo.
    assert_eq!(construct_starting_range_from_string("T9s+", &BLANK).len(), 4);
    assert_eq!(construct_starting_range_from_string("A5o+", &BLANK).len(), 9 * 12);
    // Overlapping items collapse onto one entry per hand.
    assert_eq!(construct_starting_range_from_string("AKs,AK", &BLANK).len(), 16);
}
