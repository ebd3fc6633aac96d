//! Exact terminal and showdown utilities over integer-scaled reach.
//!
//! Reach probabilities enter as non-negative integers in a caller-chosen
//! scale; utilities leave in the product scale.  The showdown evaluator
//! runs a single pass over the rank-sorted range, carrying a running
//! total and a per-card table so each hand's value prices in the
//! opponent hands its own cards make impossible, without a hand-by-hand
//! loop.
use vstd::prelude::*;

use crate::cards::{Hand, hands_overlap};
use crate::combination::Combination;

verus! {

/// The reach handed to these evaluators stays under this bound per hand.
pub const REACH_BOUND: i64 = 0x10000;

/// The per-win stake stays under this bound.
pub const WIN_BOUND: i64 = 0x2000_0000;

/// The total reach of rows `lo..hi`.
pub open spec fn reach_sum(reach: Seq<i64>, lo: int, hi: int) -> int
    decreases hi - lo,
{
    if lo >= hi {
        0int
    } else {
        reach_sum(reach, lo, hi - 1) + reach[hi - 1]
    }
}

/// The total reach of rows `lo..hi` whose hand holds the card `c`.
pub open spec fn reach_sum_with_card(
    hands: Seq<Combination>,
    reach: Seq<i64>,
    c: u8,
    lo: int,
    hi: int,
) -> int
    decreases hi - lo,
{
    if lo >= hi {
        0int
    } else {
        reach_sum_with_card(hands, reach, c, lo, hi - 1) + (if hands[hi - 1].hand[0] == c
            || hands[hi - 1].hand[1] == c {
            reach[hi - 1] as int
        } else {
            0int
        })
    }
}

/// The total reach of rows `lo..hi` that do not share a card with row
/// `i`'s hand.
pub open spec fn unblocked_reach(
    hands: Seq<Combination>,
    reach: Seq<i64>,
    h: Hand,
    lo: int,
    hi: int,
) -> int
    decreases hi - lo,
{
    if lo >= hi {
        0int
    } else {
        unblocked_reach(hands, reach, h, lo, hi - 1) + (if hands_overlap(hands[hi - 1].hand, h) {
            0int
        } else {
            reach[hi - 1] as int
        })
    }
}

/// The total reach of hands ranked strictly below row `i`'s rank that do
/// not share a card with it: the opponent hands row `i` beats.
pub open spec fn win_reach(hands: Seq<Combination>, reach: Seq<i64>, i: int, lo: int, hi: int) -> int
    decreases hi - lo,
{
    if lo >= hi {
        0int
    } else {
        win_reach(hands, reach, i, lo, hi - 1) + (if hands[hi - 1].rank < hands[i].rank
            && !hands_overlap(hands[hi - 1].hand, hands[i].hand) {
            reach[hi - 1] as int
        } else {
            0int
        })
    }
}

/// The total reach of hands ranked strictly above row `i`'s rank that do
/// not share a card with it: the opponent hands row `i` loses to.
pub open spec fn lose_reach(
    hands: Seq<Combination>,
    reach: Seq<i64>,
    i: int,
    lo: int,
    hi: int,
) -> int
    decreases hi - lo,
{
    if lo >= hi {
        0int
    } else {
        lose_reach(hands, reach, i, lo, hi - 1) + (if hands[hi - 1].rank > hands[i].rank
            && !hands_overlap(hands[hi - 1].hand, hands[i].hand) {
            reach[hi - 1] as int
        } else {
            0int
        })
    }
}

proof fn lemma_reach_sum_bound(reach: Seq<i64>, lo: int, hi: int)
    requires
        0 <= lo,
        hi <= reach.len(),
        forall|i: int| 0 <= i < reach.len() ==> 0 <= #[trigger] reach[i] <= REACH_BOUND,
    ensures
        0 <= reach_sum(reach, lo, hi) <= (if hi >= lo {
            (hi - lo) * REACH_BOUND
        } else {
            0int
        }),
    decreases hi - lo,
{
    if lo < hi {
        lemma_reach_sum_bound(reach, lo, hi - 1);
        assert((hi - 1 - lo) * REACH_BOUND + REACH_BOUND == (hi - lo) * REACH_BOUND)
            by (nonlinear_arith);
    }
}

proof fn lemma_reach_sum_with_card_bound(
    hands: Seq<Combination>,
    reach: Seq<i64>,
    c: u8,
    lo: int,
    hi: int,
)
    requires
        0 <= lo,
        hi <= reach.len(),
        forall|i: int| 0 <= i < reach.len() ==> 0 <= #[trigger] reach[i] <= REACH_BOUND,
    ensures
        0 <= reach_sum_with_card(hands, reach, c, lo, hi) <= (if hi >= lo {
            (hi - lo) * REACH_BOUND
        } else {
            0int
        }),
        reach_sum_with_card(hands, reach, c, lo, hi) <= reach_sum(reach, lo, hi),
    decreases hi - lo,
{
    if lo < hi {
        lemma_reach_sum_with_card_bound(hands, reach, c, lo, hi - 1);
        lemma_reach_sum_bound(reach, lo, hi - 1);
        assert((hi - 1 - lo) * REACH_BOUND + REACH_BOUND == (hi - lo) * REACH_BOUND)
            by (nonlinear_arith);
    }
}

/// The fold payoff for every hero hand against an opponent reach
/// vector: the stake times the opponent reach net of the hands the
/// hero's own cards remove, with the opponent's copy of the identical
/// hand counted back in.
pub fn terminal_utility(win_utility: i64, op_reach_prob: &Vec<i64>, hands: &Vec<Combination>) -> (
    util: Vec<i64>)
    requires
        hands@.len() == op_reach_prob@.len(),
        hands@.len() <= 0x10000,
        -WIN_BOUND <= win_utility <= WIN_BOUND,
        forall|i: int| 0 <= i < hands@.len() ==> (#[trigger] hands@[i]).wf(),
        forall|i: int|
            0 <= i < op_reach_prob@.len() ==> 0 <= #[trigger] op_reach_prob@[i] <= REACH_BOUND,
    ensures
        util@.len() == hands@.len(),
        forall|i: int|
            0 <= i < util@.len() ==> #[trigger] util@[i] == win_utility * (reach_sum(
                op_reach_prob@,
                0,
                hands@.len() as int,
            ) - reach_sum_with_card(
                hands@,
                op_reach_prob@,
                hands@[i].hand[0],
                0,
                hands@.len() as int,
            ) - reach_sum_with_card(
                hands@,
                op_reach_prob@,
                hands@[i].hand[1],
                0,
                hands@.len() as int,
            ) + op_reach_prob@[i]),
{
    let n = hands.len();
    let ghost hs = hands@;
    let ghost rs = op_reach_prob@;
    let mut probability_sum: i64 = 0;
    let mut card_removal: [i64; 52] = [0; 52];
    let mut j: usize = 0;
    while j < n
        invariant
            n == hs.len(),
            hs == hands@,
            rs == op_reach_prob@,
            rs.len() == n,
            n <= 0x10000,
            forall|k: int| 0 <= k < n ==> (#[trigger] hs[k]).wf(),
            forall|k: int| 0 <= k < n ==> 0 <= #[trigger] rs[k] <= REACH_BOUND,
            j <= n,
            probability_sum == reach_sum(rs, 0, j as int),
            forall|c: int|
                0 <= c < 52 ==> #[trigger] card_removal[c] == reach_sum_with_card(
                    hs,
                    rs,
                    c as u8,
                    0,
                    j as int,
                ),
        decreases n - j,
    {
        proof {
            lemma_reach_sum_bound(rs, 0, j as int);
            lemma_reach_sum_with_card_bound(hs, rs, hs[j as int].hand[0], 0, j as int);
            lemma_reach_sum_with_card_bound(hs, rs, hs[j as int].hand[1], 0, j as int);
            assert(j as int * REACH_BOUND <= 0x10000 * REACH_BOUND) by (nonlinear_arith)
                requires
                    0 <= j <= 0x10000,
                    REACH_BOUND == 0x10000,
            ;
        }
        let c = hands[j];
        let r = op_reach_prob[j];
        probability_sum = probability_sum + r;
        let c0 = c.hand[0] as usize;
        let c1 = c.hand[1] as usize;
        card_removal[c0] = card_removal[c0] + r;
        card_removal[c1] = card_removal[c1] + r;
        proof {
            assert forall|cc: int|
                0 <= cc < 52 implies #[trigger] card_removal[cc] == reach_sum_with_card(
                hs,
                rs,
                cc as u8,
                0,
                j as int + 1,
            ) by {
                assert(reach_sum_with_card(hs, rs, cc as u8, 0, j as int + 1)
                    == reach_sum_with_card(hs, rs, cc as u8, 0, j as int) + (if hs[j as int].hand[0]
                    == cc as u8 || hs[j as int].hand[1] == cc as u8 {
                    rs[j as int] as int
                } else {
                    0int
                }));
            }
        }
        j += 1;
    }
    let mut util: Vec<i64> = Vec::new();
    let mut i: usize = 0;
    while i < n
        invariant
            n == hs.len(),
            hs == hands@,
            rs == op_reach_prob@,
            rs.len() == n,
            n <= 0x10000,
            -WIN_BOUND <= win_utility <= WIN_BOUND,
            forall|k: int| 0 <= k < n ==> (#[trigger] hs[k]).wf(),
            forall|k: int| 0 <= k < n ==> 0 <= #[trigger] rs[k] <= REACH_BOUND,
            i <= n,
            util@.len() == i,
            probability_sum == reach_sum(rs, 0, n as int),
            forall|c: int|
                0 <= c < 52 ==> #[trigger] card_removal[c] == reach_sum_with_card(
                    hs,
                    rs,
                    c as u8,
                    0,
                    n as int,
                ),
            forall|k: int|
                0 <= k < i ==> #[trigger] util@[k] == win_utility * (reach_sum(rs, 0, n as int)
                    - reach_sum_with_card(hs, rs, hs[k].hand[0], 0, n as int)
                    - reach_sum_with_card(hs, rs, hs[k].hand[1], 0, n as int) + rs[k]),
        decreases n - i,
    {
        let c = hands[i];
        let c0 = c.hand[0] as usize;
        let c1 = c.hand[1] as usize;
        proof {
            lemma_reach_sum_bound(rs, 0, n as int);
            lemma_reach_sum_with_card_bound(hs, rs, hs[i as int].hand[0], 0, n as int);
            lemma_reach_sum_with_card_bound(hs, rs, hs[i as int].hand[1], 0, n as int);
            assert(n as int * REACH_BOUND <= 0x1_0000_0000) by (nonlinear_arith)
                requires
                    0 <= n <= 0x10000,
                    REACH_BOUND == 0x10000,
            ;
        }
        let inner: i64 = probability_sum - card_removal[c0] - card_removal[c1] + op_reach_prob[i];
        proof {
            assert(-0x2_0001_0000 <= inner <= 0x2_0001_0000);
            assert(-0x7fff_ffff_ffff_ffff <= win_utility * inner <= 0x7fff_ffff_ffff_ffff)
                by (nonlinear_arith)
                requires
                    -WIN_BOUND <= win_utility <= WIN_BOUND,
                    -0x2_0001_0000 <= inner <= 0x2_0001_0000,
                    WIN_BOUND == 0x2000_0000,
            ;
        }
        let v: i64 = win_utility * inner;
        util.push(v);
        i += 1;
    }
    util
}

/// Splits a windowed reach sum at `mid`.
proof fn lemma_u_split(hands: Seq<Combination>, reach: Seq<i64>, h: Hand, lo: int, mid: int, hi: int)
    requires
        lo <= mid <= hi,
    ensures
        unblocked_reach(hands, reach, h, lo, hi) == unblocked_reach(hands, reach, h, lo, mid)
            + unblocked_reach(hands, reach, h, mid, hi),
    decreases hi - mid,
{
    if mid < hi {
        lemma_u_split(hands, reach, h, lo, mid, hi - 1);
    } else {
        lemma_u_empty(hands, reach, h, lo, mid);
    }
}

proof fn lemma_u_empty(hands: Seq<Combination>, reach: Seq<i64>, h: Hand, lo: int, hi: int)
    ensures
        hi <= lo ==> unblocked_reach(hands, reach, h, lo, hi) == 0,
{
}

/// Over a window, total reach minus the two per-card totals equals the
/// unblocked reach, minus the row's own reach when the window holds it:
/// a hand other than row `i`'s shares either no card or exactly one.
proof fn lemma_inclusion_exclusion(
    hands: Seq<Combination>,
    reach: Seq<i64>,
    i: int,
    lo: int,
    hi: int,
)
    requires
        0 <= lo,
        hi <= hands.len(),
        reach.len() == hands.len(),
        0 <= i < hands.len(),
        forall|k: int| 0 <= k < hands.len() ==> (#[trigger] hands[k]).wf(),
        forall|a: int, b: int|
            0 <= a < b < hands.len() ==> hands[a].raw_index != hands[b].raw_index,
    ensures
        reach_sum(reach, lo, hi) - reach_sum_with_card(hands, reach, hands[i].hand[0], lo, hi)
            - reach_sum_with_card(hands, reach, hands[i].hand[1], lo, hi) == unblocked_reach(
            hands,
            reach,
            hands[i].hand,
            lo,
            hi,
        ) - (if lo <= i < hi {
            reach[i] as int
        } else {
            0int
        }),
    decreases hi - lo,
{
    if lo < hi {
        lemma_inclusion_exclusion(hands, reach, i, lo, hi - 1);
        let j = hi - 1;
        let hj = hands[j];
        let hi_ = hands[i];
        if j == i {
            assert(hands_overlap(hj.hand, hi_.hand));
        } else {
            assert(hj.raw_index != hi_.raw_index);
            assert(hj.wf() && hi_.wf());
            // Distinct ordered pairs cannot share both cards.
            if hj.hand[0] == hi_.hand[0] && hj.hand[1] == hi_.hand[1] {
                assert(hj.raw_index == hi_.raw_index);
            }
        }
    }
}

/// Below a run every rank is smaller, so the hands row `i` beats are
/// exactly the unblocked hands below the run.
proof fn lemma_win_is_prefix(
    hands: Seq<Combination>,
    reach: Seq<i64>,
    i: int,
    a: int,
    m: int,
)
    requires
        0 <= a <= hands.len(),
        0 <= m <= hands.len(),
        0 <= i < hands.len(),
        reach.len() == hands.len(),
        forall|k: int| 0 <= k < a ==> (#[trigger] hands[k]).rank < hands[i].rank,
        forall|k: int| a <= k < hands.len() ==> (#[trigger] hands[k]).rank >= hands[i].rank,
    ensures
        win_reach(hands, reach, i, 0, m) == unblocked_reach(
            hands,
            reach,
            hands[i].hand,
            0,
            if m <= a {
                m
            } else {
                a
            },
        ),
    decreases m,
{
    if m > 0 {
        lemma_win_is_prefix(hands, reach, i, a, m - 1);
    }
}

/// Above a run every rank is larger, so the hands row `i` loses to are
/// exactly the unblocked hands above the run.
proof fn lemma_lose_is_suffix(
    hands: Seq<Combination>,
    reach: Seq<i64>,
    i: int,
    b: int,
    m: int,
)
    requires
        0 <= b <= hands.len(),
        0 <= i < hands.len(),
        reach.len() == hands.len(),
        b <= m <= hands.len(),
        forall|k: int| 0 <= k < b ==> (#[trigger] hands[k]).rank <= hands[i].rank,
        forall|k: int| b <= k < hands.len() ==> (#[trigger] hands[k]).rank > hands[i].rank,
    ensures
        lose_reach(hands, reach, i, 0, m) == unblocked_reach(hands, reach, hands[i].hand, b, m),
    decreases m,
{
    if m > b {
        lemma_lose_is_suffix(hands, reach, i, b, m - 1);
    } else {
        lemma_u_empty(hands, reach, hands[i].hand, b, m);
        lemma_lose_zero(hands, reach, i, m);
    }
}

/// No losses accrue among rows ranked at or below row `i`'s rank.
proof fn lemma_lose_zero(hands: Seq<Combination>, reach: Seq<i64>, i: int, m: int)
    requires
        0 <= i < hands.len(),
        m <= hands.len(),
        forall|k: int| 0 <= k < m ==> (#[trigger] hands[k]).rank <= hands[i].rank,
    ensures
        lose_reach(hands, reach, i, 0, m) == 0,
    decreases m,
{
    if m > 0 {
        lemma_lose_zero(hands, reach, i, m - 1);
    }
}

proof fn lemma_u_bound(hands: Seq<Combination>, reach: Seq<i64>, h: Hand, lo: int, hi: int)
    requires
        0 <= lo,
        hi <= reach.len(),
        forall|k: int| 0 <= k < reach.len() ==> 0 <= #[trigger] reach[k] <= REACH_BOUND,
    ensures
        0 <= unblocked_reach(hands, reach, h, lo, hi) <= (if hi >= lo {
            (hi - lo) * REACH_BOUND
        } else {
            0int
        }),
    decreases hi - lo,
{
    if lo < hi {
        lemma_u_bound(hands, reach, h, lo, hi - 1);
        assert((hi - 1 - lo) * REACH_BOUND + REACH_BOUND == (hi - lo) * REACH_BOUND)
            by (nonlinear_arith);
    }
}

/// The showdown payoff for every hand of a rank-sorted range: the stake
/// times the unblocked opponent reach it beats minus the unblocked
/// opponent reach it loses to; ties cancel.  One pass over equal-rank
/// runs, using a running total and a per-card table for the blocker
/// correction.
#[verifier::rlimit(100)]
#[verifier::loop_isolation(false)]
pub fn showdown(hands: &Vec<Combination>, op_reach_prob: &Vec<i64>, win_utility: i64) -> (util:
    Vec<i64>)
    requires
        hands@.len() == op_reach_prob@.len(),
        hands@.len() <= 0x10000,
        -WIN_BOUND <= win_utility <= WIN_BOUND,
        forall|i: int| 0 <= i < hands@.len() ==> (#[trigger] hands@[i]).wf(),
        forall|a: int, b: int|
            0 <= a < b < hands@.len() ==> hands@[a].raw_index != hands@[b].raw_index,
        forall|a: int, b: int|
            0 <= a < b < hands@.len() ==> hands@[a].rank <= hands@[b].rank,
        forall|i: int|
            0 <= i < op_reach_prob@.len() ==> 0 <= #[trigger] op_reach_prob@[i] <= REACH_BOUND,
    ensures
        util@.len() == hands@.len(),
        forall|i: int|
            0 <= i < util@.len() ==> #[trigger] util@[i] == win_utility * (win_reach(
                hands@,
                op_reach_prob@,
                i,
                0,
                hands@.len() as int,
            ) - lose_reach(hands@, op_reach_prob@, i, 0, hands@.len() as int)),
{
    let n = hands.len();
    let ghost hs = hands@;
    let ghost rs = op_reach_prob@;
    let mut util: Vec<i64> = Vec::new();
    let mut z: usize = 0;
    while z < n
        invariant
            util@.len() == z,
            z <= n,
            forall|k: int| 0 <= k < z ==> #[trigger] util@[k] == 0i64,
        decreases n - z,
    {
        util.push(0);
        z += 1;
    }
    // Seed: everything is treated as a better opponent hand.
    let mut sum: i64 = 0;
    let mut card_removal: [i64; 52] = [0; 52];
    let mut j0: usize = 0;
    while j0 < n
        invariant
            j0 <= n,
            sum == -reach_sum(rs, 0, j0 as int),
            forall|c: int|
                0 <= c < 52 ==> #[trigger] card_removal[c] == -reach_sum_with_card(
                    hs,
                    rs,
                    c as u8,
                    0,
                    j0 as int,
                ),
        decreases n - j0,
    {
        proof {
            lemma_reach_sum_bound(rs, 0, j0 as int);
            lemma_reach_sum_with_card_bound(hs, rs, hs[j0 as int].hand[0], 0, j0 as int);
            lemma_reach_sum_with_card_bound(hs, rs, hs[j0 as int].hand[1], 0, j0 as int);
            assert(j0 as int * REACH_BOUND <= 0x1_0000_0000) by (nonlinear_arith)
                requires
                    0 <= j0 <= 0x10000,
                    REACH_BOUND == 0x10000,
            ;
        }
        let c = hands[j0];
        let r = op_reach_prob[j0];
        sum = sum - r;
        let c0 = c.hand[0] as usize;
        let c1 = c.hand[1] as usize;
        card_removal[c0] = card_removal[c0] - r;
        card_removal[c1] = card_removal[c1] - r;
        proof {
            assert forall|cc: int|
                0 <= cc < 52 implies #[trigger] card_removal[cc] == -reach_sum_with_card(
                hs,
                rs,
                cc as u8,
                0,
                j0 as int + 1,
            ) by {
                assert(reach_sum_with_card(hs, rs, cc as u8, 0, j0 as int + 1)
                    == reach_sum_with_card(hs, rs, cc as u8, 0, j0 as int) + (if hs[j0 as int].hand[0]
                    == cc as u8 || hs[j0 as int].hand[1] == cc as u8 {
                    rs[j0 as int] as int
                } else {
                    0int
                }));
            }
        }
        j0 += 1;
    }
    // Sweep equal-rank runs.
    let mut i: usize = 0;
    while i < n
        invariant
            util@.len() == n,
            i <= n,
            i < n ==> forall|k: int| 0 <= k < i ==> (#[trigger] hs[k]).rank < hs[i as int].rank,
            sum == 2 * reach_sum(rs, 0, i as int) - reach_sum(rs, 0, n as int),
            forall|c: int|
                0 <= c < 52 ==> #[trigger] card_removal[c] == 2 * reach_sum_with_card(
                    hs,
                    rs,
                    c as u8,
                    0,
                    i as int,
                ) - reach_sum_with_card(hs, rs, c as u8, 0, n as int),
            forall|k: int|
                0 <= k < i ==> #[trigger] util@[k] == win_utility * (win_reach(hs, rs, k, 0, n as int)
                    - lose_reach(hs, rs, k, 0, n as int)),
        decreases n - i,
    {
        let ghost a = i as int;
        // Find the end of the equal-rank run.
        let mut j: usize = i + 1;
        while j < n && hands[j].rank == hands[i].rank
            invariant
                i < j <= n,
                forall|k: int| a <= k < j ==> (#[trigger] hs[k]).rank == hs[a].rank,
            decreases n - j,
        {
            j += 1;
        }
        proof {
            assert(j == n || hs[j as int].rank > hs[a].rank);
        }
        // First crossing: better opponents become ties.
        let mut t: usize = i;
        while t < j
            invariant
                a <= t <= j,
                sum == 2 * reach_sum(rs, 0, a) - reach_sum(rs, 0, n as int) + reach_sum(
                    rs,
                    a,
                    t as int,
                ),
                forall|c: int|
                    0 <= c < 52 ==> #[trigger] card_removal[c] == 2 * reach_sum_with_card(
                        hs,
                        rs,
                        c as u8,
                        0,
                        a,
                    ) - reach_sum_with_card(hs, rs, c as u8, 0, n as int) + reach_sum_with_card(
                        hs,
                        rs,
                        c as u8,
                        a,
                        t as int,
                    ),
                util@.len() == n,
                forall|k: int|
                    0 <= k < a ==> #[trigger] util@[k] == win_utility * (win_reach(
                        hs,
                        rs,
                        k,
                        0,
                        n as int,
                    ) - lose_reach(hs, rs, k, 0, n as int)),
            decreases j - t,
        {
            proof {
                lemma_reach_sum_bound(rs, 0, a);
                lemma_reach_sum_bound(rs, 0, n as int);
                lemma_reach_sum_bound(rs, a, t as int);
                lemma_reach_sum_with_card_bound(hs, rs, hs[t as int].hand[0], 0, a);
                lemma_reach_sum_with_card_bound(hs, rs, hs[t as int].hand[0], 0, n as int);
                lemma_reach_sum_with_card_bound(hs, rs, hs[t as int].hand[0], a, t as int);
                lemma_reach_sum_with_card_bound(hs, rs, hs[t as int].hand[1], 0, a);
                lemma_reach_sum_with_card_bound(hs, rs, hs[t as int].hand[1], 0, n as int);
                lemma_reach_sum_with_card_bound(hs, rs, hs[t as int].hand[1], a, t as int);
                assert(n as int * REACH_BOUND <= 0x1_0000_0000) by (nonlinear_arith)
                    requires
                        0 <= n <= 0x10000,
                        REACH_BOUND == 0x10000,
                ;
            }
            let c = hands[t];
            let r = op_reach_prob[t];
            sum = sum + r;
            let c0 = c.hand[0] as usize;
            let c1 = c.hand[1] as usize;
            card_removal[c0] = card_removal[c0] + r;
            card_removal[c1] = card_removal[c1] + r;
            proof {
                assert forall|cc: int|
                    0 <= cc < 52 implies #[trigger] card_removal[cc] == 2 * reach_sum_with_card(
                    hs,
                    rs,
                    cc as u8,
                    0,
                    a,
                ) - reach_sum_with_card(hs, rs, cc as u8, 0, n as int) + reach_sum_with_card(
                    hs,
                    rs,
                    cc as u8,
                    a,
                    t as int + 1,
                ) by {
                    assert(reach_sum_with_card(hs, rs, cc as u8, a, t as int + 1)
                        == reach_sum_with_card(hs, rs, cc as u8, a, t as int) + (if hs[t as int].hand[0]
                        == cc as u8 || hs[t as int].hand[1] == cc as u8 {
                        rs[t as int] as int
                    } else {
                        0int
                    }));
                }
            }
            t += 1;
        }
        // Write the run's payoffs.
        let mut w: usize = i;
        while w < j
            invariant
                a <= w <= j,
                sum == 2 * reach_sum(rs, 0, a) - reach_sum(rs, 0, n as int) + reach_sum(
                    rs,
                    a,
                    j as int,
                ),
                forall|c: int|
                    0 <= c < 52 ==> #[trigger] card_removal[c] == 2 * reach_sum_with_card(
                        hs,
                        rs,
                        c as u8,
                        0,
                        a,
                    ) - reach_sum_with_card(hs, rs, c as u8, 0, n as int) + reach_sum_with_card(
                        hs,
                        rs,
                        c as u8,
                        a,
                        j as int,
                    ),
                util@.len() == n,
                forall|k: int|
                    0 <= k < a ==> #[trigger] util@[k] == win_utility * (win_reach(
                        hs,
                        rs,
                        k,
                        0,
                        n as int,
                    ) - lose_reach(hs, rs, k, 0, n as int)),
                forall|k: int|
                    a <= k < w ==> #[trigger] util@[k] == win_utility * (win_reach(
                        hs,
                        rs,
                        k,
                        0,
                        n as int,
                    ) - lose_reach(hs, rs, k, 0, n as int)),
            decreases j - w,
        {
            let c = hands[w];
            let c0 = c.hand[0] as usize;
            let c1 = c.hand[1] as usize;
            proof {
                lemma_reach_sum_bound(rs, 0, a);
                lemma_reach_sum_bound(rs, 0, n as int);
                lemma_reach_sum_bound(rs, a, j as int);
                lemma_reach_sum_with_card_bound(hs, rs, hs[w as int].hand[0], 0, a);
                lemma_reach_sum_with_card_bound(hs, rs, hs[w as int].hand[0], 0, n as int);
                lemma_reach_sum_with_card_bound(hs, rs, hs[w as int].hand[0], a, j as int);
                lemma_reach_sum_with_card_bound(hs, rs, hs[w as int].hand[1], 0, a);
                lemma_reach_sum_with_card_bound(hs, rs, hs[w as int].hand[1], 0, n as int);
                lemma_reach_sum_with_card_bound(hs, rs, hs[w as int].hand[1], a, j as int);
                assert(n as int * REACH_BOUND <= 0x1_0000_0000) by (nonlinear_arith)
                    requires
                        0 <= n <= 0x10000,
                        REACH_BOUND == 0x10000,
                ;
            }
            let inner: i64 = sum - card_removal[c0] - card_removal[c1];
            proof {
                let k = w as int;
                lemma_inclusion_exclusion(hs, rs, k, 0, a);
                lemma_inclusion_exclusion(hs, rs, k, 0, n as int);
                lemma_inclusion_exclusion(hs, rs, k, a, j as int);
                let h = hs[k].hand;
                lemma_u_split(hs, rs, h, 0, a, j as int);
                lemma_u_split(hs, rs, h, 0, j as int, n as int);
                assert(inner == unblocked_reach(hs, rs, h, 0, a) - unblocked_reach(
                    hs,
                    rs,
                    h,
                    j as int,
                    n as int,
                ));
                lemma_win_is_prefix(hs, rs, k, a, n as int);
                lemma_lose_is_suffix(hs, rs, k, j as int, n as int);
                assert(inner == win_reach(hs, rs, k, 0, n as int) - lose_reach(
                    hs,
                    rs,
                    k,
                    0,
                    n as int,
                ));
                lemma_u_bound(hs, rs, h, 0, a);
                lemma_u_bound(hs, rs, h, j as int, n as int);
                assert(-0x1_0000_0000 <= inner <= 0x1_0000_0000);
                assert(-0x7fff_ffff_ffff_ffff <= win_utility * inner <= 0x7fff_ffff_ffff_ffff)
                    by (nonlinear_arith)
                    requires
                        -WIN_BOUND <= win_utility <= WIN_BOUND,
                        -0x1_0000_0000 <= inner <= 0x1_0000_0000,
                        WIN_BOUND == 0x2000_0000,
                ;
            }
            let v: i64 = win_utility * inner;
            util.set(w, v);
            w += 1;
        }
        // Second crossing: ties become worse opponents.
        let mut t2: usize = i;
        while t2 < j
            invariant
                a <= t2 <= j,
                sum == 2 * reach_sum(rs, 0, a) - reach_sum(rs, 0, n as int) + reach_sum(
                    rs,
                    a,
                    j as int,
                ) + reach_sum(rs, a, t2 as int),
                forall|c: int|
                    0 <= c < 52 ==> #[trigger] card_removal[c] == 2 * reach_sum_with_card(
                        hs,
                        rs,
                        c as u8,
                        0,
                        a,
                    ) - reach_sum_with_card(hs, rs, c as u8, 0, n as int) + reach_sum_with_card(
                        hs,
                        rs,
                        c as u8,
                        a,
                        j as int,
                    ) + reach_sum_with_card(hs, rs, c as u8, a, t2 as int),
                util@.len() == n,
                forall|k: int|
                    0 <= k < j ==> #[trigger] util@[k] == win_utility * (win_reach(
                        hs,
                        rs,
                        k,
                        0,
                        n as int,
                    ) - lose_reach(hs, rs, k, 0, n as int)),
            decreases j - t2,
        {
            proof {
                lemma_reach_sum_bound(rs, 0, a);
                lemma_reach_sum_bound(rs, 0, n as int);
                lemma_reach_sum_bound(rs, a, j as int);
                lemma_reach_sum_bound(rs, a, t2 as int);
                lemma_reach_sum_with_card_bound(hs, rs, hs[t2 as int].hand[0], 0, a);
                lemma_reach_sum_with_card_bound(hs, rs, hs[t2 as int].hand[0], 0, n as int);
                lemma_reach_sum_with_card_bound(hs, rs, hs[t2 as int].hand[0], a, j as int);
                lemma_reach_sum_with_card_bound(hs, rs, hs[t2 as int].hand[0], a, t2 as int);
                lemma_reach_sum_with_card_bound(hs, rs, hs[t2 as int].hand[1], 0, a);
                lemma_reach_sum_with_card_bound(hs, rs, hs[t2 as int].hand[1], 0, n as int);
                lemma_reach_sum_with_card_bound(hs, rs, hs[t2 as int].hand[1], a, j as int);
                lemma_reach_sum_with_card_bound(hs, rs, hs[t2 as int].hand[1], a, t2 as int);
                assert(n as int * REACH_BOUND <= 0x1_0000_0000) by (nonlinear_arith)
                    requires
                        0 <= n <= 0x10000,
                        REACH_BOUND == 0x10000,
                ;
            }
            let c = hands[t2];
            let r = op_reach_prob[t2];
            sum = sum + r;
            let c0 = c.hand[0] as usize;
            let c1 = c.hand[1] as usize;
            card_removal[c0] = card_removal[c0] + r;
            card_removal[c1] = card_removal[c1] + r;
            proof {
                assert forall|cc: int|
                    0 <= cc < 52 implies #[trigger] card_removal[cc] == 2 * reach_sum_with_card(
                    hs,
                    rs,
                    cc as u8,
                    0,
                    a,
                ) - reach_sum_with_card(hs, rs, cc as u8, 0, n as int) + reach_sum_with_card(
                    hs,
                    rs,
                    cc as u8,
                    a,
                    j as int,
                ) + reach_sum_with_card(hs, rs, cc as u8, a, t2 as int + 1) by {
                    assert(reach_sum_with_card(hs, rs, cc as u8, a, t2 as int + 1)
                        == reach_sum_with_card(hs, rs, cc as u8, a, t2 as int) + (if hs[t2 as int].hand[0]
                        == cc as u8 || hs[t2 as int].hand[1] == cc as u8 {
                        rs[t2 as int] as int
                    } else {
                        0int
                    }));
                }
            }
            t2 += 1;
        }
        proof {
            // The two run crossings double the run segment into the
            // prefix totals.
            lemma_sum_prefix_merge(rs, 0, a, j as int);
            assert forall|cc: int|
                0 <= cc < 52 implies #[trigger] card_removal[cc] == 2 * reach_sum_with_card(
                hs,
                rs,
                cc as u8,
                0,
                j as int,
            ) - reach_sum_with_card(hs, rs, cc as u8, 0, n as int) by {
                lemma_sum_with_card_prefix_merge(hs, rs, cc as u8, 0, a, j as int);
            }
            if j < n {
                assert forall|k: int| 0 <= k < j implies (#[trigger] hs[k]).rank
                    < hs[j as int].rank by {
                    if a <= k {
                        assert(hs[k].rank == hs[a].rank);
                    }
                }
            }
        }
        i = j;
    }
    util
}

/// A prefix total over `lo..hi` plus the segment `mid..hi` twice equals
/// the doubled prefix total over `lo..hi`... the segment sums combine:
/// `S(lo,mid)·2 + S(mid,hi)·2 == S(lo,hi)·2`.
proof fn lemma_sum_prefix_merge(reach: Seq<i64>, lo: int, mid: int, hi: int)
    requires
        lo <= mid <= hi,
    ensures
        2 * reach_sum(reach, lo, mid) + 2 * reach_sum(reach, mid, hi) == 2 * reach_sum(
            reach,
            lo,
            hi,
        ),
    decreases hi - mid,
{
    if mid < hi {
        lemma_sum_prefix_merge(reach, lo, mid, hi - 1);
    }
}

proof fn lemma_sum_with_card_prefix_merge(
    hands: Seq<Combination>,
    reach: Seq<i64>,
    c: u8,
    lo: int,
    mid: int,
    hi: int,
)
    requires
        lo <= mid <= hi,
    ensures
        2 * reach_sum_with_card(hands, reach, c, lo, mid) + 2 * reach_sum_with_card(
            hands,
            reach,
            c,
            mid,
            hi,
        ) == 2 * reach_sum_with_card(hands, reach, c, lo, hi),
    decreases hi - mid,
{
    if mid < hi {
        lemma_sum_with_card_prefix_merge(hands, reach, c, lo, mid, hi - 1);
    }
}

} // verus!

verus! {

/// What row `i` earns from row `j` alone: `j`'s reach when `i`
/// outranks it, minus `j`'s reach when `j` outranks `i`, nothing on a
/// tie or a shared card.
pub open spec fn pair_term(hands: Seq<Combination>, reach: Seq<i64>, i: int, j: int) -> int {
    if hands_overlap(hands[j].hand, hands[i].hand) {
        0int
    } else if hands[j].rank < hands[i].rank {
        reach[j] as int
    } else if hands[j].rank > hands[i].rank {
        -(reach[j] as int)
    } else {
        0int
    }
}

/// Row `i`'s earnings against rows `0..k`.
pub open spec fn row_sum(hands: Seq<Combination>, reach: Seq<i64>, i: int, k: int) -> int
    decreases k,
{
    if k <= 0 {
        0int
    } else {
        row_sum(hands, reach, i, k - 1) + pair_term(hands, reach, i, k - 1)
    }
}

proof fn lemma_row_sum_is_win_minus_lose(hands: Seq<Combination>, reach: Seq<i64>, i: int, k: int)
    requires
        0 <= i < hands.len(),
        0 <= k <= hands.len(),
        reach.len() == hands.len(),
    ensures
        row_sum(hands, reach, i, k) == win_reach(hands, reach, i, 0, k) - lose_reach(
            hands,
            reach,
            i,
            0,
            k,
        ),
    decreases k,
{
    if k > 0 {
        lemma_row_sum_is_win_minus_lose(hands, reach, i, k - 1);
    }
}

/// The reach-weighted earnings of rows `0..m`, each scored against rows
/// `0..k`.
pub open spec fn weighted_total(
    hands: Seq<Combination>,
    reach: Seq<i64>,
    m: int,
    k: int,
) -> int
    decreases m,
{
    if m <= 0 {
        0int
    } else {
        weighted_total(hands, reach, m - 1, k) + reach[m - 1] * row_sum(hands, reach, m - 1, k)
    }
}

/// What rows `0..m` earn from row `k` alone.
pub open spec fn col_sum(hands: Seq<Combination>, reach: Seq<i64>, k: int, m: int) -> int
    decreases m,
{
    if m <= 0 {
        0int
    } else {
        col_sum(hands, reach, k, m - 1) + reach[m - 1] * pair_term(hands, reach, m - 1, k)
    }
}

/// A column of the pairing cancels the matching row: what rows `0..m`
/// earn from row `k` is what row `k` pays against rows `0..m`.
proof fn lemma_column_cancels_row(hands: Seq<Combination>, reach: Seq<i64>, k: int, m: int)
    requires
        0 <= k < hands.len(),
        0 <= m <= hands.len(),
        reach.len() == hands.len(),
    ensures
        col_sum(hands, reach, k, m) == -(reach[k] as int) * row_sum(hands, reach, k, m),
    decreases m,
{
    if m == 0 {
        assert(-(reach[k] as int) * 0int == 0int) by (nonlinear_arith);
    } else {
        lemma_column_cancels_row(hands, reach, k, m - 1);
        let i = m - 1;
        let ri = reach[i] as int;
        let rk = reach[k] as int;
        let p_ik = pair_term(hands, reach, i, k);
        let p_ki = pair_term(hands, reach, k, i);
        assert(hands_overlap(hands[k].hand, hands[i].hand) == hands_overlap(
            hands[i].hand,
            hands[k].hand,
        ));
        assert(ri * p_ik == -(rk * p_ki)) by {
            if hands_overlap(hands[i].hand, hands[k].hand) {
                assert(ri * 0int == 0int) by (nonlinear_arith);
                assert(rk * 0int == 0int) by (nonlinear_arith);
            } else if hands[k].rank < hands[i].rank {
                assert(p_ik == rk && p_ki == -ri);
                assert(ri * rk == -(rk * (-ri))) by (nonlinear_arith);
            } else if hands[k].rank > hands[i].rank {
                assert(p_ik == -rk && p_ki == ri);
                assert(ri * (-rk) == -(rk * ri)) by (nonlinear_arith);
            } else {
                assert(ri * 0int == 0int) by (nonlinear_arith);
                assert(rk * 0int == 0int) by (nonlinear_arith);
            }
        }
        let row_prev = row_sum(hands, reach, k, m - 1);
        assert(col_sum(hands, reach, k, m) == col_sum(hands, reach, k, m - 1) + ri * p_ik);
        assert(row_sum(hands, reach, k, m) == row_prev + p_ki);
        assert(-rk * (row_prev + p_ki) == -rk * row_prev + -(rk * p_ki)) by (nonlinear_arith);
    }
}

proof fn lemma_weighted_total_extend(hands: Seq<Combination>, reach: Seq<i64>, m: int, k: int)
    requires
        0 <= k < hands.len(),
        0 <= m <= hands.len(),
        reach.len() == hands.len(),
    ensures
        weighted_total(hands, reach, m, k + 1) == weighted_total(hands, reach, m, k) + col_sum(
            hands,
            reach,
            k,
            m,
        ),
    decreases m,
{
    if m > 0 {
        lemma_weighted_total_extend(hands, reach, m - 1, k);
        let i = m - 1;
        let ri = reach[i] as int;
        let row_k = row_sum(hands, reach, i, k);
        let p_ik = pair_term(hands, reach, i, k);
        assert(row_sum(hands, reach, i, k + 1) == row_k + p_ik);
        assert(ri * (row_k + p_ik) == ri * row_k + ri * p_ik) by (nonlinear_arith);
    }
}

proof fn lemma_square_total_zero(hands: Seq<Combination>, reach: Seq<i64>, k: int)
    requires
        0 <= k <= hands.len(),
        reach.len() == hands.len(),
    ensures
        weighted_total(hands, reach, k, k) == 0,
    decreases k,
{
    if k > 0 {
        lemma_square_total_zero(hands, reach, k - 1);
        lemma_weighted_total_extend(hands, reach, k - 1, k - 1);
        lemma_column_cancels_row(hands, reach, k - 1, k - 1);
        let i = k - 1;
        let ri = reach[i] as int;
        let row_prev = row_sum(hands, reach, i, i);
        assert(pair_term(hands, reach, i, i) == 0);
        assert(row_sum(hands, reach, i, k) == row_prev);
        assert(weighted_total(hands, reach, k, k) == weighted_total(hands, reach, i, k) + ri
            * row_sum(hands, reach, i, k));
        assert(col_sum(hands, reach, i, i) == -ri * row_prev);
        assert(ri * row_prev + -ri * row_prev == 0) by (nonlinear_arith);
    }
}

/// The showdown is zero sum: weighting each hand's payoff by that
/// hand's own reach and totalling the range gives exactly zero, because
/// every pair of hands trades equal and opposite amounts.
pub proof fn lemma_showdown_zero_sum(hands: Seq<Combination>, reach: Seq<i64>)
    requires
        reach.len() == hands.len(),
    ensures
        weighted_total(hands, reach, hands.len() as int, hands.len() as int) == 0,
        forall|i: int|
            0 <= i < hands.len() ==> #[trigger] row_sum(hands, reach, i, hands.len() as int)
                == win_reach(hands, reach, i, 0, hands.len() as int) - lose_reach(
                hands,
                reach,
                i,
                0,
                hands.len() as int,
            ),
{
    lemma_square_total_zero(hands, reach, hands.len() as int);
    assert forall|i: int| 0 <= i < hands.len() implies #[trigger] row_sum(
        hands,
        reach,
        i,
        hands.len() as int,
    ) == win_reach(hands, reach, i, 0, hands.len() as int) - lose_reach(
        hands,
        reach,
        i,
        0,
        hands.len() as int,
    ) by {
        lemma_row_sum_is_win_minus_lose(hands, reach, i, hands.len() as int);
    }
}

} // verus!
