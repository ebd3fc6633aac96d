use postflop_cfr::cards::Board;
use postflop_cfr::combination::unblocked_hands;
use postflop_cfr::parse::{build_player_specific_merged_range, construct_starting_range_from_string};
use postflop_cfr::traversal::{RangeManagers, Traversal, build_traversal_from_ranges};

fn mono_flop() -> Board {
    // kc 7c 2c: three suits carry no board card, so they collapse.
    [44, 20, 0, 52, 52]
}

fn rainbow_flop() -> Board {
    // kc 7h 2d: every suit differs.
    [44, 22, 1, 52, 52]
}

#[test]
fn test_manager_flavour_follows_board() {
    let t = build_traversal_from_ranges(rainbow_flop(), "QQ,JJ", "random");
    assert!(matches!(t.oop_rm, RangeManagers::Default(_)));
    let t = build_traversal_from_ranges(mono_flop(), "QQ,JJ", "random");
    assert!(matches!(t.oop_rm, RangeManagers::Isomorphic(_)));
}

#[test]
fn test_river_ranges_sorted_by_rank() {
    let board: Board = [44, 22, 1, 30, 15];
    let t = build_traversal_from_ranges(board, "random", "random");
    let range = t.oop_rm.get_range_for_board(&board);
    assert!(range.len() > 1000);
    for w in range.windows(2) {
        assert!(w[0].rank <= w[1].rank);
    }
}

#[test]
fn test_default_reach_round_trip() {
    // Without isomorphism, pushing utilities back and pulling them
    // forward again returns them unchanged on the surviving hands.
    let board = rainbow_flop();
    let t = build_traversal_from_ranges(board, "random", "random");
    let turn_board: Board = [44, 22, 1, 30, 52];
    let child = t.ip_rm.get_range_for_board(&turn_board);
    let parent = t.ip_rm.get_range_for_board(&board);
    let util: Vec<i64> = (0..child.len()).map(|i| (i as i64) - 7).collect();
    let mut parent_accum: Vec<i64> = vec![0; parent.len()];
    t.ip_rm.map_utility_backwards(&turn_board, &util, &mut parent_accum);
    let back = t.ip_rm.get_next_reach_probs(&turn_board, &parent_accum);
    assert_eq!(back, util);
}

#[test]
fn test_iso_merge_aligns_and_is_idempotent() {
    let board = mono_flop();
    let t = build_traversal_from_ranges(board, "random", "random");
    let m = match &t.oop_rm {
        RangeManagers::Isomorphic(m) => m,
        RangeManagers::Default(_) => panic!("expected suit sharing on a mono flop"),
    };
    let range = m.get_range_for_board(&board).clone();
    let table = m.get_reach_probs_mapping(&board).clone();
    let mut util: Vec<i64> = (0..range.len() as i64).collect();
    m.merge_canonical_utilities(&board, &mut util);
    let mut aliases = 0;
    for (i, c) in range.iter().enumerate() {
        if c.weight == 0 {
            aliases += 1;
            let rep_row = table[c.canon_index];
            assert_ne!(range[rep_row].weight, 0);
            assert_eq!(util[i], util[rep_row]);
        }
    }
    assert!(aliases > 0);
    let once = util.clone();
    m.merge_canonical_utilities(&board, &mut util);
    assert_eq!(util, once);
}

#[test]
fn test_iso_round_trip_collapses() {
    // With isomorphism the projection is many-to-one: pushing child
    // utilities back and pulling them forward merges suit-equivalent
    // hands, so the round trip is not the identity.
    let board = mono_flop();
    let t = build_traversal_from_ranges(board, "random", "random");
    let turn_board: Board = [44, 20, 0, 30, 52];
    let child = t.ip_rm.get_range_for_board(&turn_board);
    let parent = t.ip_rm.get_range_for_board(&board);
    let util: Vec<i64> = (0..child.len()).map(|i| i as i64).collect();
    let mut parent_accum: Vec<i64> = vec![0; parent.len()];
    t.ip_rm.map_utility_backwards(&turn_board, &util, &mut parent_accum);
    let back = t.ip_rm.get_next_reach_probs(&turn_board, &parent_accum);
    assert_ne!(back, util);
}

#[test]
fn test_traversal_counts() {
    let board = rainbow_flop();
    let mut t = build_traversal_from_ranges(board, "QQ,JJ", "random");
    assert_eq!(t.get_num_hands_for_player(0, &board), t.get_num_hands_for_player(1, &board));
    t.traverser = 0;
    assert_eq!(t.get_num_hands_for_traverser(&board), t.get_num_hands_for_player(0, &board));
    let oop = t.oop_rm.get_starting_combinations();
    let ip = t.ip_rm.get_starting_combinations();
    assert_eq!(oop.len(), ip.len());
    // Only the twelve QQ and JJ hands carry weight for the tight side.
    let live = oop.iter().filter(|c| c.combos > 0).count();
    assert_eq!(live, 12);
    let live_ip = ip.iter().filter(|c| c.combos > 0).count();
    assert_eq!(live_ip, ip.len());
}

#[test]
fn test_iso_reach_shares_representative_rows() {
    // On a collapsed flop, suit-equivalent hands read the same parent
    // row, so their projected reach always agrees.
    let board = mono_flop();
    let t = build_traversal_from_ranges(board, "random", "random");
    let m = match &t.ip_rm {
        RangeManagers::Isomorphic(m) => m,
        RangeManagers::Default(_) => panic!("expected suit sharing on a mono flop"),
    };
    let flop_range = m.get_range_for_board(&board);
    let reach: Vec<i64> = (0..flop_range.len() as i64).map(|i| i * 3 + 1).collect();
    let turn_board: Board = [44, 20, 0, 30, 52];
    let turn_range = m.get_range_for_board(&turn_board);
    let projected = m.get_next_reach_probs(&turn_board, &reach);
    assert_eq!(projected.len(), turn_range.len());
    let table = m.get_reach_probs_mapping(&board);
    for (c, p) in turn_range.iter().zip(projected.iter()) {
        // Every hand reads the row of its flop bucket representative.
        assert_eq!(*p, reach[table[c.raw_index]]);
    }
}

#[test]
fn test_unblocked_weights() {
    let blank: Board = [52, 52, 52, 52, 52];
    let rng = construct_starting_range_from_string("QQ", &blank);
    let opp = build_player_specific_merged_range(
        "QQ@50",
        &construct_starting_range_from_string("QQ,JJ", &blank),
    );
    let counts = unblocked_hands(&rng, &opp);
    // Against six half-weight queens and six zero-weight jacks, a QQ
    // hand leaves exactly one queen pair unblocked.
    assert_eq!(counts.len(), 6);
    for c in counts.iter() {
        assert_eq!(*c, 50);
    }
}

#[test]
fn test_iso_buckets_suit_equivalent_hands() {
    // On the all-club flop the other three suits are interchangeable:
    // ace-deuce of diamonds and of hearts are one strategic hand, but
    // the club ace is not part of that bucket.
    let board = mono_flop();
    let t = build_traversal_from_ranges(board, "random", "random");
    let m = match &t.oop_rm {
        RangeManagers::Isomorphic(m) => m,
        RangeManagers::Default(_) => panic!("expected suit sharing on a mono flop"),
    };
    let range = m.get_range_for_board(&board);
    let find = |h: [u8; 2]| range.iter().find(|c| c.hand == h).expect("hand in range");
    // 2d=1, 2h=2, Ad=49, Ah=50, As=51; the club deuce and ace sit on
    // nothing here, clubs are the board suit.
    let a2d = find([1, 49]);
    let a2h = find([2, 50]);
    let a2s = find([3, 51]);
    assert_eq!(a2d.canon_index, a2h.canon_index);
    assert_eq!(a2d.canon_index, a2s.canon_index);
    // Exactly one of the three is the representative and counts all
    // three; mixed-suit ace-deuce stays in a different bucket.
    let weights = [a2d.weight, a2h.weight, a2s.weight];
    assert_eq!(weights.iter().filter(|w| **w == 3).count(), 1);
    assert_eq!(weights.iter().filter(|w| **w == 0).count(), 2);
    let a2_mixed = find([1, 50]);
    assert_ne!(a2_mixed.canon_index, a2d.canon_index);
}

#[test]
fn test_default_mapping_points_at_same_hands() {
    let board = rainbow_flop();
    let t = build_traversal_from_ranges(board, "random", "random");
    let m = match &t.oop_rm {
        RangeManagers::Default(m) => m,
        RangeManagers::Isomorphic(_) => panic!("expected no sharing on a rainbow flop"),
    };
    let turn_board: Board = [44, 22, 1, 30, 52];
    let parent = m.get_range_for_board(&board);
    let child = m.get_range_for_board(&turn_board);
    let table = m.get_reach_probs_mapping(&turn_board);
    assert_eq!(child.len(), table.len());
    for (c, row) in child.iter().zip(table.iter()) {
        assert_eq!(parent[*row].hand, c.hand);
    }
    // Exactly the hands missing the turn card survive.
    let survivors = parent.iter().filter(|c| !c.hand.contains(&30)).count();
    assert_eq!(child.len(), survivors);
}
