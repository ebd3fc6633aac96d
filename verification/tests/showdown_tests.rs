use postflop_cfr::cards::Board;
use postflop_cfr::parse::construct_starting_range_from_string;
use postflop_cfr::combination::Combination;
use postflop_cfr::evaluator::eval7;
use postflop_cfr::showdown::{showdown, terminal_utility};

fn ranked_range(spec: &str, board: &Board) -> Vec<Combination> {
    let mut range = construct_starting_range_from_string(spec, board);
    for c in range.iter_mut() {
        c.rank = eval7(board, c.hand);
    }
    range.sort_by_key(|c| c.rank);
    range
}

#[test]
fn test_terminal_utility_uniform() {
    // Blank-ace board, thirty live hands, unit reach: every hand sees
    // the full field minus its blockers plus itself.
    let board: Board = [51, 50, 49, 48, 47];
    let hands = construct_starting_range_from_string("QQ,JJ,55,44,22", &board);
    assert_eq!(hands.len(), 30);
    let reach: Vec<i64> = vec![1; 30];
    let util = terminal_utility(5, &reach, &hands);
    for v in util.iter() {
        assert_eq!(*v, 125);
    }
}

#[test]
fn test_terminal_utility_partial_reach() {
    let board: Board = [51, 50, 49, 48, 47];
    let hands = construct_starting_range_from_string("QQ,JJ", &board);
    assert_eq!(hands.len(), 12);
    let mut reach: Vec<i64> = vec![1; 12];
    for r in reach.iter_mut().take(6) {
        *r = 0;
    }
    let util = terminal_utility(5, &reach, &hands);
    for v in util.iter().take(6) {
        assert_eq!(*v, 30);
    }
    for v in util.iter().skip(6) {
        assert_eq!(*v, 5);
    }
}

#[test]
fn test_showdown_values() {
    // On a blank board the pairs order themselves 22 < 33 < QQ, with
    // no shared cards across groups.
    let board: Board = [51, 26, 20, 15, 11];
    let range = ranked_range("QQ,33,22", &board);
    assert_eq!(range.len(), 18);
    let reach: Vec<i64> = vec![1; 18];
    let util = showdown(&range, &reach, 10);
    // The six QQ hands beat the other twelve; 22 loses to twelve;
    // 33 beats six and loses to six.
    let mut wins = std::collections::HashMap::new();
    for (c, u) in range.iter().zip(util.iter()) {
        wins.insert(c.hand[0] / 4, *u);
    }
    assert_eq!(wins[&10], 10 * 12);
    assert_eq!(wins[&1], 0);
    assert_eq!(wins[&0], -(10 * 12));
}

#[test]
fn test_showdown_zero_sum() {
    let board: Board = [2, 13, 24, 35, 47];
    let range = ranked_range("random", &board);
    let mut reach: Vec<i64> = Vec::new();
    for (i, _) in range.iter().enumerate() {
        reach.push((i % 7) as i64);
    }
    let util = showdown(&range, &reach, 21);
    let total: i128 = range
        .iter()
        .enumerate()
        .map(|(i, _)| (reach[i] as i128) * (util[i] as i128))
        .sum();
    assert_eq!(total, 0);
}

#[test]
fn test_showdown_blockers_matter() {
    // Board of low cards: AA beats KK beats ace-king high.  A hand
    // only pays the stronger hands it does not block: each AK removes
    // one ace and one king, halving what it owes.
    let board: Board = [2, 13, 24, 35, 39];
    let range = ranked_range("AA,KK,AK", &board);
    assert_eq!(range.len(), 28);
    let reach: Vec<i64> = vec![1; range.len()];
    let util = showdown(&range, &reach, 10);
    let mut total: i64 = 0;
    for (c, u) in range.iter().zip(util.iter()) {
        let high = c.hand[1] / 4;
        let low = c.hand[0] / 4;
        if low == 12 {
            // AA: beats all six KK and the eight AK missing its aces.
            assert_eq!(*u, 140);
        } else if high == 11 {
            // KK: beats eight AK, loses to six AA.
            assert_eq!(*u, 20);
        } else {
            // AK: loses to the three AA and three KK it does not block.
            assert_eq!(*u, -60);
        }
        total += *u;
    }
    assert_eq!(total, 0);
}
