//! A seven-card hand evaluator.
//!
//! `eval7` maps a full five-card board plus a hole-card pair to an ordinal
//! strength: a larger value wins the showdown.  The ordinal packs the hand
//! category into its top base-16 digit and standard kicker ranks into the
//! five digits below, so comparing ordinals compares hands.  The contract
//! pins the category digit to the poker category of the seven cards and
//! the digit below it to the category's deciding rank: the straight or
//! straight-flush high card, the quad, trips, or top-pair rank, or the
//! best flush or high-card rank.  The remaining kicker digits order
//! hands within a category.
use vstd::prelude::*;

use crate::cards::{Board, Hand};

verus! {

/// The seven cards seen at showdown: the board and the hole cards.
pub open spec fn card_set(board: Board, hand: Hand) -> Seq<u8> {
    board@ + seq![hand[0], hand[1]]
}

/// Whether the card of rank `r` and suit `s` is among the cards.
pub open spec fn has_card(cs: Seq<u8>, r: int, s: int) -> bool {
    cs.contains((4 * r + s) as u8)
}

/// How many suits carry rank `r`.
pub open spec fn rank_nsuits(cs: Seq<u8>, r: int) -> int {
    (if has_card(cs, r, 0) {
        1int
    } else {
        0int
    }) + (if has_card(cs, r, 1) {
        1int
    } else {
        0int
    }) + (if has_card(cs, r, 2) {
        1int
    } else {
        0int
    }) + (if has_card(cs, r, 3) {
        1int
    } else {
        0int
    })
}

/// Whether rank `r` is present in any suit.
pub open spec fn rank_present(cs: Seq<u8>, r: int) -> bool {
    rank_nsuits(cs, r) > 0
}

/// How many of the ranks below `n` suit `s` carries.
pub open spec fn suit_nranks_upto(cs: Seq<u8>, s: int, n: int) -> int
    decreases n,
{
    if n <= 0 {
        0int
    } else {
        suit_nranks_upto(cs, s, n - 1) + (if has_card(cs, n - 1, s) {
            1int
        } else {
            0int
        })
    }
}

/// How many distinct ranks suit `s` carries.
pub open spec fn suit_nranks(cs: Seq<u8>, s: int) -> int {
    suit_nranks_upto(cs, s, 13)
}

/// A straight whose top rank is `h` over a rank-presence profile:
/// `h == 3` is the wheel, with the ace playing low.
pub open spec fn straight_at_pr(pr: Seq<bool>, h: int) -> bool {
    if h == 3 {
        pr[12] && pr[0] && pr[1] && pr[2] && pr[3]
    } else {
        pr[h] && pr[h - 1] && pr[h - 2] && pr[h - 3] && pr[h - 4]
    }
}

/// The rank-presence profile of all suits together.
pub open spec fn all_ranks_pr(cs: Seq<u8>) -> Seq<bool> {
    Seq::new(13, |r: int| rank_present(cs, r))
}

/// The rank-presence profile of suit `s` alone.
pub open spec fn suit_ranks_pr(cs: Seq<u8>, s: int) -> Seq<bool> {
    Seq::new(13, |r: int| has_card(cs, r, s))
}

pub open spec fn has_straight(cs: Seq<u8>) -> bool {
    exists|h: int| 3 <= h <= 12 && straight_at_pr(all_ranks_pr(cs), h)
}

pub open spec fn has_flush(cs: Seq<u8>) -> bool {
    exists|s: int| 0 <= s < 4 && suit_nranks(cs, s) >= 5
}

pub open spec fn has_straight_flush(cs: Seq<u8>) -> bool {
    exists|s: int, h: int| 0 <= s < 4 && 3 <= h <= 12 && straight_at_pr(suit_ranks_pr(cs, s), h)
}

pub open spec fn has_quads(cs: Seq<u8>) -> bool {
    exists|r: int| 0 <= r < 13 && rank_nsuits(cs, r) >= 4
}

pub open spec fn has_trips(cs: Seq<u8>) -> bool {
    exists|r: int| 0 <= r < 13 && rank_nsuits(cs, r) >= 3
}

pub open spec fn has_full_house(cs: Seq<u8>) -> bool {
    exists|r1: int, r2: int|
        0 <= r1 < 13 && 0 <= r2 < 13 && r1 != r2 && rank_nsuits(cs, r1) >= 3 && rank_nsuits(
            cs,
            r2,
        ) >= 2
}

pub open spec fn has_two_pair(cs: Seq<u8>) -> bool {
    exists|r1: int, r2: int|
        0 <= r1 < r2 < 13 && rank_nsuits(cs, r1) >= 2 && rank_nsuits(cs, r2) >= 2
}

pub open spec fn has_pair(cs: Seq<u8>) -> bool {
    exists|r: int| 0 <= r < 13 && rank_nsuits(cs, r) >= 2
}

/// The poker category of the seven cards, 1 (high card) through 9
/// (straight flush).
pub open spec fn hand_category(cs: Seq<u8>) -> int {
    if has_straight_flush(cs) {
        9int
    } else if has_quads(cs) {
        8int
    } else if has_full_house(cs) {
        7int
    } else if has_flush(cs) {
        6int
    } else if has_straight(cs) {
        5int
    } else if has_trips(cs) {
        4int
    } else if has_two_pair(cs) {
        3int
    } else if has_pair(cs) {
        2int
    } else {
        1int
    }
}

/// Rank `r` is the highest carried by at least `t` suits.
pub open spec fn top_count_rank(cs: Seq<u8>, t: int, r: int) -> bool {
    &&& 0 <= r < 13
    &&& rank_nsuits(cs, r) >= t
    &&& forall|x: int| r < x < 13 ==> rank_nsuits(cs, x) < t
}

/// `h` is the highest straight over the profile.
pub open spec fn top_straight_high(pr: Seq<bool>, h: int) -> bool {
    &&& 3 <= h <= 12
    &&& straight_at_pr(pr, h)
    &&& forall|y: int| h < y <= 12 ==> !straight_at_pr(pr, y)
}

/// `h` is the highest straight any single suit makes.
pub open spec fn top_sf_high(cs: Seq<u8>, h: int) -> bool {
    &&& 3 <= h <= 12
    &&& exists|s: int| 0 <= s < 4 && straight_at_pr(suit_ranks_pr(cs, s), h)
    &&& forall|s: int, y: int|
        0 <= s < 4 && h < y <= 12 ==> !straight_at_pr(suit_ranks_pr(cs, s), y)
}

/// `r` is the highest rank of some five-card suit.
pub open spec fn top_flush_rank(cs: Seq<u8>, r: int) -> bool {
    &&& 0 <= r < 13
    &&& exists|s: int|
        0 <= s < 4 && suit_nranks(cs, s) >= 5 && has_card(cs, r, s) && (forall|x: int|
            r < x < 13 ==> !has_card(cs, x, s))
}

/// `r` is the highest rank among the cards.
pub open spec fn top_present_rank(cs: Seq<u8>, r: int) -> bool {
    &&& 0 <= r < 13
    &&& rank_present(cs, r)
    &&& forall|x: int| r < x < 13 ==> !rank_present(cs, x)
}

/// A suit counting any ranks holds one.
proof fn lemma_suit_has_some_rank(cs: Seq<u8>, s: int, n: int)
    requires
        suit_nranks_upto(cs, s, n) > 0,
        0 <= n <= 13,
    ensures
        exists|r: int| 0 <= r < n && has_card(cs, r, s),
    decreases n,
{
    if n > 0 && !has_card(cs, n - 1, s) {
        lemma_suit_has_some_rank(cs, s, n - 1);
    }
}

/// Finds the highest straight over a rank-presence profile, the wheel
/// counting with top rank 3.
fn best_straight(pr: &[bool; 13]) -> (h: Option<u8>)
    ensures
        match h {
            Some(x) => 3 <= x <= 12 && straight_at_pr(pr@, x as int) && forall|y: int|
                x < y <= 12 ==> !straight_at_pr(pr@, y),
            None => forall|y: int| 3 <= y <= 12 ==> !straight_at_pr(pr@, y),
        },
{
    let mut res: Option<u8> = None;
    let mut y: usize = 3;
    while y <= 12
        invariant
            3 <= y <= 13,
            match res {
                Some(x) => 3 <= x < y && straight_at_pr(pr@, x as int) && forall|z: int|
                    x < z < y ==> !straight_at_pr(pr@, z),
                None => forall|z: int| 3 <= z < y ==> !straight_at_pr(pr@, z),
            },
        decreases 13 - y,
    {
        let here = if y == 3 {
            pr[12] && pr[0] && pr[1] && pr[2] && pr[3]
        } else {
            pr[y] && pr[y - 1] && pr[y - 2] && pr[y - 3] && pr[y - 4]
        };
        if here {
            res = Some(y as u8);
        }
        y += 1;
    }
    res
}

/// Packs a category and five kicker digits into one ordinal.
fn pack(cat: u8, d1: u8, d2: u8, d3: u8, d4: u8, d5: u8) -> (v: u32)
    requires
        1 <= cat <= 9,
        d1 < 16,
        d2 < 16,
        d3 < 16,
        d4 < 16,
        d5 < 16,
    ensures
        v == cat * 0x100000 + d1 * 0x10000 + d2 * 0x1000 + d3 * 0x100 + d4 * 0x10 + d5,
        v / 0x100000 == cat,
        v / 0x10000 % 16 == d1,
        0x100000 <= v < 0xa00000,
{
    let v: u32 = (cat as u32) * 0x100000 + (d1 as u32) * 0x10000 + (d2 as u32) * 0x1000 + (
    d3 as u32) * 0x100 + (d4 as u32) * 0x10 + (d5 as u32);
    proof {
        assert(v / 0x100000 == cat && v / 0x10000 % 16 == d1) by (nonlinear_arith)
            requires
                v == cat * 0x100000 + d1 * 0x10000 + d2 * 0x1000 + d3 * 0x100 + d4 * 0x10 + d5,
                1 <= cat <= 9,
                d1 < 16,
                d2 < 16,
                d3 < 16,
                d4 < 16,
                d5 < 16,
        ;
    }
    v
}

/// Picks the highest rank besides `skip1` and `skip2` whose presence flag
/// is set; 0 when none is.
fn top_other_rank(pr: &[bool; 13], skip1: usize, skip2: usize) -> (k: u8)
    ensures
        k < 16,
{
    let mut k: u8 = 0;
    let mut seen: bool = false;
    let mut r: usize = 13;
    while r > 0
        invariant
            r <= 13,
            k < 13,
        decreases r,
    {
        r -= 1;
        if !seen && r != skip1 && r != skip2 && pr[r] {
            k = r as u8;
            seen = true;
        }
    }
    k
}

/// Collects up to `want` of the highest set ranks besides `skip`,
/// filling unneeded places with 0.  The leading place gets the highest
/// qualifying rank when one exists.
fn top_ranks(pr: &[bool; 13], skip: usize, want: usize) -> (ds: [u8; 5])
    requires
        1 <= want <= 5,
    ensures
        forall|i: int| 0 <= i < 5 ==> ds[i] < 16,
        (exists|x: int| 0 <= x < 13 && x != skip && pr@[x]) ==> (ds[0] < 13 && ds[0] != skip
            && pr@[ds[0] as int] && forall|x: int|
            ds[0] < x < 13 && x != skip ==> !pr@[x]),
{
    let mut ds: [u8; 5] = [0; 5];
    let mut found: usize = 0;
    let mut r: usize = 13;
    while r > 0
        invariant
            r <= 13,
            1 <= want <= 5,
            found <= want,
            forall|i: int| 0 <= i < 5 ==> ds[i] < 13,
            found == 0 ==> forall|x: int| r <= x < 13 && x != skip ==> !pr@[x],
            found > 0 ==> ds[0] != skip && pr@[ds[0] as int] && forall|x: int|
                ds[0] < x < 13 && x != skip ==> !pr@[x],
        decreases r,
    {
        r -= 1;
        if found < want && r != skip && pr[r] {
            ds[found] = r as u8;
            found += 1;
        }
    }
    ds
}

/// Builds the 52-entry presence table of the seven showdown cards.
fn build_presence(board: &Board, hand: Hand) -> (present: [bool; 52])
    requires
        forall|i: int| 0 <= i < 5 ==> board@[i] < 52,
        hand[0] < 52,
        hand[1] < 52,
    ensures
        forall|c: int| 0 <= c < 52 ==> present[c] == card_set(*board, hand).contains(c as u8),
{
    let ghost cs = card_set(*board, hand);
    let mut present: [bool; 52] = [false; 52];
    present[board[0] as usize] = true;
    present[board[1] as usize] = true;
    present[board[2] as usize] = true;
    present[board[3] as usize] = true;
    present[board[4] as usize] = true;
    present[hand[0] as usize] = true;
    present[hand[1] as usize] = true;
    proof {
        assert(cs.len() == 7);
        assert(cs[0] == board@[0] && cs[1] == board@[1] && cs[2] == board@[2] && cs[3] == board@[3]
            && cs[4] == board@[4] && cs[5] == hand[0] && cs[6] == hand[1]);
        assert forall|c: int| 0 <= c < 52 implies present[c] == cs.contains(c as u8) by {
            if present[c] {
                assert(cs.contains(c as u8));
            } else {
                if cs.contains(c as u8) {
                    let i = choose|i: int| 0 <= i < cs.len() && cs[i] == c as u8;
                    assert(false);
                }
            }
        }
    }
    present
}

/// Counts, for each rank, the suits that carry it, and marks which ranks
/// are present at all.
fn rank_profile(present: &[bool; 52], Ghost(cs): Ghost<Seq<u8>>) -> (out: ([u8; 13], [bool; 13]))
    requires
        forall|c: int| 0 <= c < 52 ==> present[c] == cs.contains(c as u8),
    ensures
        forall|k: int| 0 <= k < 13 ==> out.0[k] == rank_nsuits(cs, k),
        forall|k: int| 0 <= k < 13 ==> out.1[k] == rank_present(cs, k),
        out.1@ =~= all_ranks_pr(cs),
{
    let mut rank_suits: [u8; 13] = [0; 13];
    let mut rank_pr: [bool; 13] = [false; 13];
    let mut r: usize = 0;
    while r < 13
        invariant
            forall|c: int| 0 <= c < 52 ==> present[c] == cs.contains(c as u8),
            r <= 13,
            forall|k: int| 0 <= k < r ==> rank_suits[k] == rank_nsuits(cs, k),
            forall|k: int| 0 <= k < r ==> rank_pr[k] == rank_present(cs, k),
        decreases 13 - r,
    {
        let mut cnt: u8 = 0;
        if present[4 * r] {
            cnt += 1;
        }
        if present[4 * r + 1] {
            cnt += 1;
        }
        if present[4 * r + 2] {
            cnt += 1;
        }
        if present[4 * r + 3] {
            cnt += 1;
        }
        rank_suits[r] = cnt;
        rank_pr[r] = cnt > 0;
        r += 1;
    }
    (rank_suits, rank_pr)
}

/// Counts, for each suit, the ranks it carries.
fn suit_profile(present: &[bool; 52], Ghost(cs): Ghost<Seq<u8>>) -> (suit_cnt: [u8; 4])
    requires
        forall|c: int| 0 <= c < 52 ==> present[c] == cs.contains(c as u8),
    ensures
        forall|s: int| 0 <= s < 4 ==> suit_cnt[s] == suit_nranks(cs, s),
{
    let mut suit_cnt: [u8; 4] = [0; 4];
    let mut r2: usize = 0;
    while r2 < 13
        invariant
            forall|c: int| 0 <= c < 52 ==> present[c] == cs.contains(c as u8),
            r2 <= 13,
            forall|s: int| 0 <= s < 4 ==> suit_cnt[s] == suit_nranks_upto(cs, s, r2 as int),
        decreases 13 - r2,
    {
        let mut s: usize = 0;
        while s < 4
            invariant
                forall|c: int| 0 <= c < 52 ==> present[c] == cs.contains(c as u8),
                r2 < 13,
                s <= 4,
                forall|t: int| s <= t < 4 ==> suit_cnt[t] == suit_nranks_upto(cs, t, r2 as int),
                forall|t: int| 0 <= t < s ==> suit_cnt[t] == suit_nranks_upto(cs, t, r2 as int + 1),
            decreases 4 - s,
        {
            if present[4 * r2 + s] {
                proof {
                    lemma_suit_nranks_le_thirteen(cs, s as int, r2 as int);
                }
                suit_cnt[s] = suit_cnt[s] + 1;
            } else {
                proof {
                    assert(suit_nranks_upto(cs, s as int, r2 as int + 1) == suit_nranks_upto(
                        cs,
                        s as int,
                        r2 as int,
                    ));
                }
            }
            s += 1;
        }
        r2 += 1;
    }
    suit_cnt
}

/// Finds the suit holding at least five ranks, or 4 when none does.
fn flush_suit_of(suit_cnt: &[u8; 4], Ghost(cs): Ghost<Seq<u8>>) -> (fs: usize)
    requires
        forall|s: int| 0 <= s < 4 ==> suit_cnt[s] == suit_nranks(cs, s),
    ensures
        fs <= 4,
        fs == 4 ==> !has_flush(cs),
        fs < 4 ==> suit_nranks(cs, fs as int) >= 5 && has_flush(cs),
{
    let mut fs: usize = 4;
    let mut s3: usize = 0;
    while s3 < 4
        invariant
            s3 <= 4,
            forall|s: int| 0 <= s < 4 ==> suit_cnt[s] == suit_nranks(cs, s),
            fs == 4 || (fs < s3 && suit_nranks(cs, fs as int) >= 5),
            fs == 4 ==> forall|s: int| 0 <= s < s3 ==> suit_nranks(cs, s) < 5,
        decreases 4 - s3,
    {
        if fs == 4 && suit_cnt[s3] >= 5 {
            fs = s3;
        }
        s3 += 1;
    }
    proof {
        if fs == 4 {
            assert(!has_flush(cs)) by {
                if has_flush(cs) {
                    let sw = choose|sw: int| 0 <= sw < 4 && suit_nranks(cs, sw) >= 5;
                    assert(suit_nranks(cs, sw) < 5);
                }
            }
        }
    }
    fs
}

/// Reads off the rank-presence profile of one suit.
fn suit_presence(present: &[bool; 52], fs: usize, Ghost(cs): Ghost<Seq<u8>>) -> (suit_pr: [bool;
    13])
    requires
        forall|c: int| 0 <= c < 52 ==> present[c] == cs.contains(c as u8),
        fs < 4,
    ensures
        suit_pr@ =~= suit_ranks_pr(cs, fs as int),
{
    let mut suit_pr: [bool; 13] = [false; 13];
    let mut r3: usize = 0;
    while r3 < 13
        invariant
            forall|c: int| 0 <= c < 52 ==> present[c] == cs.contains(c as u8),
            fs < 4,
            r3 <= 13,
            forall|k: int| 0 <= k < r3 ==> suit_pr[k] == has_card(cs, k, fs as int),
        decreases 13 - r3,
    {
        suit_pr[r3] = present[4 * r3 + fs];
        r3 += 1;
    }
    proof {
        assert(suit_pr@ =~= suit_ranks_pr(cs, fs as int));
    }
    suit_pr
}

/// Finds the highest rank besides `skip` that at least `thr` suits
/// carry, or 13 when there is none.
fn find_top_rank_at_least(rank_suits: &[u8; 13], thr: u8, skip: usize) -> (res: usize)
    ensures
        res <= 13,
        res == 13 ==> forall|k: int| 0 <= k < 13 && k != skip ==> rank_suits[k] < thr,
        res < 13 ==> res != skip && rank_suits[res as int] >= thr && forall|k: int|
            res < k < 13 && k != skip ==> rank_suits[k] < thr,
{
    let mut res: usize = 13;
    let mut r: usize = 13;
    while r > 0 && res == 13
        invariant
            r <= 13,
            res <= 13,
            res == 13 ==> forall|k: int| r <= k < 13 && k != skip ==> rank_suits[k] < thr,
            res < 13 ==> res != skip && rank_suits[res as int] >= thr && res == r && forall|k: int|
                res < k < 13 && k != skip ==> rank_suits[k] < thr,
        decreases r,
    {
        r -= 1;
        if r != skip && rank_suits[r] >= thr {
            res = r;
        }
    }
    res
}

/// Evaluates the pair-level hands once every stronger shape is ruled out.
fn eval_pairs(rank_suits: &[u8; 13], rank_pr: &[bool; 13], Ghost(cs): Ghost<Seq<u8>>) -> (v: u32)
    requires
        forall|k: int| 0 <= k < 13 ==> rank_suits[k] == rank_nsuits(cs, k),
        forall|k: int| 0 <= k < 13 ==> rank_pr[k] == rank_present(cs, k),
        !has_straight_flush(cs),
        !has_quads(cs),
        !has_full_house(cs),
        !has_flush(cs),
        !has_straight(cs),
        !has_trips(cs),
        exists|x: int| 0 <= x < 13 && rank_present(cs, x),
    ensures
        0x100000 <= v < 0xa00000,
        v / 0x100000 == hand_category(cs),
        ({
            let d1 = (v / 0x10000 % 16) as int;
            &&& (hand_category(cs) == 3 ==> top_count_rank(cs, 2, d1))
            &&& (hand_category(cs) == 2 ==> top_count_rank(cs, 2, d1))
            &&& (hand_category(cs) == 1 ==> top_present_rank(cs, d1))
        }),
{
    let p1 = find_top_rank_at_least(rank_suits, 2, 13);
    if p1 < 13 {
        proof {
            assert(rank_nsuits(cs, p1 as int) >= 2);
        }
        let p2 = find_top_rank_at_least(rank_suits, 2, p1);
        if p2 < 13 {
            proof {
                assert(rank_nsuits(cs, p2 as int) >= 2);
                assert(p2 < p1) by {
                    if p2 > p1 {
                        assert(rank_suits[p2 as int] < 2);
                    }
                }
                assert(has_two_pair(cs));
                assert(top_count_rank(cs, 2, p1 as int));
            }
            let kicker = top_other_rank(rank_pr, p1, p2);
            pack(3, p1 as u8, p2 as u8, kicker, 0, 0)
        } else {
            proof {
                assert(!has_two_pair(cs)) by {
                    if has_two_pair(cs) {
                        let (ra, rb) = choose|ra: int, rb: int|
                            0 <= ra < rb < 13 && rank_nsuits(cs, ra) >= 2 && rank_nsuits(cs, rb)
                                >= 2;
                        if ra != p1 {
                            assert(rank_suits[ra] < 2);
                        } else {
                            assert(rank_suits[rb] < 2);
                        }
                    }
                }
                assert(has_pair(cs));
                assert(top_count_rank(cs, 2, p1 as int));
            }
            let ds = top_ranks(rank_pr, p1, 3);
            pack(2, p1 as u8, ds[0], ds[1], ds[2], 0)
        }
    } else {
        proof {
            assert(!has_pair(cs)) by {
                if has_pair(cs) {
                    let rp = choose|rp: int| 0 <= rp < 13 && rank_nsuits(cs, rp) >= 2;
                    assert(rank_suits[rp] < 2);
                }
            }
            assert(!has_two_pair(cs)) by {
                if has_two_pair(cs) {
                    let (ra, rb) = choose|ra: int, rb: int|
                        0 <= ra < rb < 13 && rank_nsuits(cs, ra) >= 2 && rank_nsuits(cs, rb) >= 2;
                    assert(rank_suits[ra] < 2);
                }
            }
        }
        proof {
            let x = choose|x: int| 0 <= x < 13 && rank_present(cs, x);
            assert(rank_pr@[x]);
        }
        let ds = top_ranks(rank_pr, 13, 5);
        proof {
            assert(rank_present(cs, ds[0] as int));
            assert(top_present_rank(cs, ds[0] as int));
        }
        pack(1, ds[0], ds[1], ds[2], ds[3], ds[4])
    }
}

/// Evaluates the hand by rank multiplicities once flushes are ruled out.
fn eval_counts(rank_suits: &[u8; 13], rank_pr: &[bool; 13], Ghost(cs): Ghost<Seq<u8>>) -> (v: u32)
    requires
        forall|k: int| 0 <= k < 13 ==> rank_suits[k] == rank_nsuits(cs, k),
        forall|k: int| 0 <= k < 13 ==> rank_pr[k] == rank_present(cs, k),
        rank_pr@ =~= all_ranks_pr(cs),
        !has_straight_flush(cs),
        !has_flush(cs),
        exists|x: int| 0 <= x < 13 && rank_present(cs, x),
    ensures
        0x100000 <= v < 0xa00000,
        v / 0x100000 == hand_category(cs),
        ({
            let d1 = (v / 0x10000 % 16) as int;
            &&& (hand_category(cs) == 8 ==> top_count_rank(cs, 4, d1))
            &&& (hand_category(cs) == 7 ==> top_count_rank(cs, 3, d1))
            &&& (hand_category(cs) == 5 ==> top_straight_high(all_ranks_pr(cs), d1))
            &&& (hand_category(cs) == 4 ==> top_count_rank(cs, 3, d1))
            &&& (hand_category(cs) == 3 ==> top_count_rank(cs, 2, d1))
            &&& (hand_category(cs) == 2 ==> top_count_rank(cs, 2, d1))
            &&& (hand_category(cs) == 1 ==> top_present_rank(cs, d1))
        }),
{
    let q = find_top_rank_at_least(rank_suits, 4, 13);
    if q < 13 {
        proof {
            assert(rank_nsuits(cs, q as int) >= 4);
            assert(has_quads(cs));
        }
        let kicker = top_other_rank(rank_pr, q, 13);
        pack(8, q as u8, kicker, 0, 0, 0)
    } else {
        proof {
            assert(!has_quads(cs)) by {
                if has_quads(cs) {
                    let rq = choose|rq: int| 0 <= rq < 13 && rank_nsuits(cs, rq) >= 4;
                    assert(rank_suits[rq] < 4);
                }
            }
        }
        let t = find_top_rank_at_least(rank_suits, 3, 13);
        if t < 13 {
            proof {
                assert(rank_nsuits(cs, t as int) >= 3);
            }
            let p = find_top_rank_at_least(rank_suits, 2, t);
            if p < 13 {
                proof {
                    assert(rank_nsuits(cs, p as int) >= 2);
                    assert(has_full_house(cs));
                }
                pack(7, t as u8, p as u8, 0, 0, 0)
            } else {
                proof {
                    assert(!has_full_house(cs)) by {
                        if has_full_house(cs) {
                            let (ra, rb) = choose|ra: int, rb: int|
                                0 <= ra < 13 && 0 <= rb < 13 && ra != rb && rank_nsuits(cs, ra)
                                    >= 3 && rank_nsuits(cs, rb) >= 2;
                            if rb != t {
                                assert(rank_suits[rb] < 2);
                            } else {
                                assert(rank_suits[ra] < 2);
                            }
                        }
                    }
                    assert(has_trips(cs));
                }
                match best_straight(rank_pr) {
                    Some(h) => {
                        proof {
                            assert(has_straight(cs));
                        }
                        pack(5, h, 0, 0, 0, 0)
                    },
                    None => {
                        proof {
                            assert(!has_straight(cs)) by {
                                if has_straight(cs) {
                                    let hh = choose|hh: int|
                                        3 <= hh <= 12 && straight_at_pr(all_ranks_pr(cs), hh);
                                    assert(!straight_at_pr(rank_pr@, hh));
                                }
                            }
                        }
                        let ds = top_ranks(rank_pr, t, 2);
                        pack(4, t as u8, ds[0], ds[1], 0, 0)
                    },
                }
            }
        } else {
            proof {
                assert(!has_trips(cs)) by {
                    if has_trips(cs) {
                        let rt = choose|rt: int| 0 <= rt < 13 && rank_nsuits(cs, rt) >= 3;
                        assert(rank_suits[rt] < 3);
                    }
                }
                assert(!has_full_house(cs)) by {
                    if has_full_house(cs) {
                        let (ra, rb) = choose|ra: int, rb: int|
                            0 <= ra < 13 && 0 <= rb < 13 && ra != rb && rank_nsuits(cs, ra) >= 3
                                && rank_nsuits(cs, rb) >= 2;
                        assert(rank_suits[ra] < 3);
                    }
                }
            }
            match best_straight(rank_pr) {
                Some(h) => {
                    proof {
                        assert(has_straight(cs));
                    }
                    pack(5, h, 0, 0, 0, 0)
                },
                None => {
                    proof {
                        assert(!has_straight(cs)) by {
                            if has_straight(cs) {
                                let hh = choose|hh: int|
                                    3 <= hh <= 12 && straight_at_pr(all_ranks_pr(cs), hh);
                                assert(!straight_at_pr(rank_pr@, hh));
                            }
                        }
                    }
                    eval_pairs(rank_suits, rank_pr, Ghost(cs))
                },
            }
        }
    }
}

/// Evaluates the best five-card poker hand among the board and the hole
/// cards.  Larger ordinals beat smaller ones; the top base-16 digit of
/// the ordinal is the hand category.
pub fn eval7(board: &Board, hand: Hand) -> (v: u32)
    requires
        forall|i: int| 0 <= i < 5 ==> board@[i] < 52,
        hand[0] < 52,
        hand[1] < 52,
    ensures
        0x100000 <= v < 0xa00000,
        v / 0x100000 == hand_category(card_set(*board, hand)),
        ({
            let cs = card_set(*board, hand);
            let d1 = (v / 0x10000 % 16) as int;
            &&& (hand_category(cs) == 9 ==> top_sf_high(cs, d1))
            &&& (hand_category(cs) == 8 ==> top_count_rank(cs, 4, d1))
            &&& (hand_category(cs) == 7 ==> top_count_rank(cs, 3, d1))
            &&& (hand_category(cs) == 6 ==> top_flush_rank(cs, d1))
            &&& (hand_category(cs) == 5 ==> top_straight_high(all_ranks_pr(cs), d1))
            &&& (hand_category(cs) == 4 ==> top_count_rank(cs, 3, d1))
            &&& (hand_category(cs) == 3 ==> top_count_rank(cs, 2, d1))
            &&& (hand_category(cs) == 2 ==> top_count_rank(cs, 2, d1))
            &&& (hand_category(cs) == 1 ==> top_present_rank(cs, d1))
        }),
{
    let ghost cs = card_set(*board, hand);
    proof {
        assert(cs.len() == 7);
    }
    let present = build_presence(board, hand);
    let profiles = rank_profile(&present, Ghost(cs));
    let rank_suits = profiles.0;
    let rank_pr = profiles.1;
    let suit_cnt = suit_profile(&present, Ghost(cs));
    let fs = flush_suit_of(&suit_cnt, Ghost(cs));
    if fs < 4 {
        let suit_pr = suit_presence(&present, fs, Ghost(cs));
        match best_straight(&suit_pr) {
            Some(h) => {
                proof {
                    assert(straight_at_pr(suit_ranks_pr(cs, fs as int), h as int));
                    assert(has_straight_flush(cs));
                    assert(hand_category(cs) == 9);
                    assert forall|s: int, y: int|
                        0 <= s < 4 && h < y <= 12 implies !straight_at_pr(
                        suit_ranks_pr(cs, s),
                        y,
                    ) by {
                        if straight_at_pr(suit_ranks_pr(cs, s), y) {
                            lemma_straight_needs_five(cs, s, y);
                            if s != fs as int {
                                lemma_two_flushes_impossible(cs, s, fs as int);
                            } else {
                                assert(straight_at_pr(suit_pr@, y));
                            }
                        }
                    }
                    assert(top_sf_high(cs, h as int));
                }
                pack(9, h, 0, 0, 0, 0)
            },
            None => {
                proof {
                    lemma_one_flush_no_sf(cs, fs as int);
                    lemma_flush_excludes_quads_boat(cs, fs as int);
                    assert(has_flush(cs));
                    assert(hand_category(cs) == 6);
                    lemma_suit_has_some_rank(cs, fs as int, 13);
                    let rw = choose|r: int| 0 <= r < 13 && has_card(cs, r, fs as int);
                    assert(suit_pr@[rw]);
                }
                let ds = top_ranks(&suit_pr, 13, 5);
                proof {
                    assert(has_card(cs, ds[0] as int, fs as int));
                    assert forall|x: int| ds[0] < x < 13 implies !has_card(cs, x, fs as int) by {
                        assert(!suit_pr@[x]);
                    }
                    assert(top_flush_rank(cs, ds[0] as int));
                }
                pack(6, ds[0], ds[1], ds[2], ds[3], ds[4])
            },
        }
    } else {
        proof {
            lemma_no_flush_no_sf(cs);
            let c0 = cs[0];
            assert(cs.contains(c0));
            assert(c0 == (4 * (c0 as int / 4) + (c0 as int % 4)) as u8);
            assert(has_card(cs, c0 as int / 4, c0 as int % 4));
            assert(rank_present(cs, c0 as int / 4));
        }
        eval_counts(&rank_suits, &rank_pr, Ghost(cs))
    }
}

/// With no five-card suit there can be no straight flush.
proof fn lemma_no_flush_no_sf(cs: Seq<u8>)
    requires
        !has_flush(cs),
    ensures
        !has_straight_flush(cs),
{
    assert forall|s: int, h: int|
        0 <= s < 4 && 3 <= h <= 12 implies !straight_at_pr(suit_ranks_pr(cs, s), h) by {
        if straight_at_pr(suit_ranks_pr(cs, s), h) {
            lemma_straight_needs_five(cs, s, h);
            assert(has_flush(cs));
        }
    }
}

/// When the only five-card suit holds no straight, there is no straight
/// flush at all.
proof fn lemma_one_flush_no_sf(cs: Seq<u8>, fs: int)
    requires
        0 <= fs < 4,
        cs.len() == 7,
        suit_nranks(cs, fs) >= 5,
        forall|h: int| 3 <= h <= 12 ==> !straight_at_pr(suit_ranks_pr(cs, fs), h),
    ensures
        !has_straight_flush(cs),
{
    assert forall|s: int, h: int|
        0 <= s < 4 && 3 <= h <= 12 implies !straight_at_pr(suit_ranks_pr(cs, s), h) by {
        if straight_at_pr(suit_ranks_pr(cs, s), h) {
            lemma_straight_needs_five(cs, s, h);
            if s != fs {
                lemma_two_flushes_impossible(cs, s, fs);
            }
        }
    }
}

/// The member cards of suit `s` whose rank lies below `n`, listed by
/// ascending rank.
spec fn suit_cards_upto(cs: Seq<u8>, s: int, n: int) -> Seq<u8>
    decreases n,
{
    if n <= 0 {
        Seq::empty()
    } else {
        let p = suit_cards_upto(cs, s, n - 1);
        if has_card(cs, n - 1, s) {
            p.push((4 * (n - 1) + s) as u8)
        } else {
            p
        }
    }
}

proof fn lemma_suit_cards_upto(cs: Seq<u8>, s: int, n: int)
    requires
        0 <= s < 4,
        0 <= n <= 13,
    ensures
        suit_cards_upto(cs, s, n).len() == suit_nranks_upto(cs, s, n),
        forall|i: int|
            0 <= i < suit_cards_upto(cs, s, n).len() ==> (#[trigger] suit_cards_upto(cs, s, n)[i]
                % 4 == s && suit_cards_upto(cs, s, n)[i] / 4 < n && cs.contains(
                suit_cards_upto(cs, s, n)[i],
            )),
        forall|i: int, j: int|
            0 <= i < j < suit_cards_upto(cs, s, n).len() ==> suit_cards_upto(cs, s, n)[i]
                < suit_cards_upto(cs, s, n)[j],
    decreases n,
{
    if n > 0 {
        lemma_suit_cards_upto(cs, s, n - 1);
        if has_card(cs, n - 1, s) {
            let c = (4 * (n - 1) + s) as u8;
            assert(c % 4 == s && c / 4 == n - 1) by (nonlinear_arith)
                requires
                    0 <= s < 4,
                    1 <= n <= 13,
                    c == 4 * (n - 1) + s,
            ;
        }
    }
}

/// The member cards of rank `r` whose suit lies below `m`, skipping the
/// suit `excl`, listed by ascending suit.
spec fn rank_cards_upto(cs: Seq<u8>, r: int, excl: int, m: int) -> Seq<u8>
    decreases m,
{
    if m <= 0 {
        Seq::empty()
    } else {
        let p = rank_cards_upto(cs, r, excl, m - 1);
        if m - 1 != excl && has_card(cs, r, m - 1) {
            p.push((4 * r + (m - 1)) as u8)
        } else {
            p
        }
    }
}

/// How many of the suits below `m` carry rank `r`.
spec fn rank_count_upto_m(cs: Seq<u8>, r: int, m: int) -> int
    decreases m,
{
    if m <= 0 {
        0int
    } else {
        rank_count_upto_m(cs, r, m - 1) + (if has_card(cs, r, m - 1) {
            1int
        } else {
            0int
        })
    }
}

proof fn lemma_rank_cards_props(cs: Seq<u8>, r: int, excl: int, m: int)
    requires
        0 <= r < 13,
        0 <= m <= 4,
    ensures
        rank_cards_upto(cs, r, excl, m).len() == rank_count_upto_m(cs, r, m) - (if 0 <= excl < m
            && has_card(cs, r, excl) {
            1int
        } else {
            0int
        }),
        rank_cards_upto(cs, r, excl, m).len() >= rank_count_upto_m(cs, r, m) - 1,
        forall|i: int|
            0 <= i < rank_cards_upto(cs, r, excl, m).len() ==> (#[trigger] rank_cards_upto(
                cs,
                r,
                excl,
                m,
            )[i] % 4 != excl && rank_cards_upto(cs, r, excl, m)[i] % 4 < m && rank_cards_upto(
                cs,
                r,
                excl,
                m,
            )[i] / 4 == r && cs.contains(rank_cards_upto(cs, r, excl, m)[i])),
        forall|i: int, j: int|
            0 <= i < j < rank_cards_upto(cs, r, excl, m).len() ==> rank_cards_upto(
                cs,
                r,
                excl,
                m,
            )[i] < rank_cards_upto(cs, r, excl, m)[j],
    decreases m,
{
    if m > 0 {
        lemma_rank_cards_props(cs, r, excl, m - 1);
        if m - 1 != excl && has_card(cs, r, m - 1) {
            let c = (4 * r + (m - 1)) as u8;
            assert(c % 4 == m - 1 && c / 4 == r) by (nonlinear_arith)
                requires
                    0 <= r < 13,
                    1 <= m <= 4,
                    c == 4 * r + (m - 1),
            ;
        }
    }
}

proof fn lemma_rank_count_eq_nsuits(cs: Seq<u8>, r: int)
    ensures
        rank_count_upto_m(cs, r, 4) == rank_nsuits(cs, r),
{
    reveal_with_fuel(rank_count_upto_m, 5);
}

/// A list of distinct members of `cs` is no longer than `cs`.
proof fn lemma_count_distinct_in(cs: Seq<u8>, cards: Seq<u8>)
    requires
        cards.no_duplicates(),
        forall|i: int| 0 <= i < cards.len() ==> cs.contains(#[trigger] cards[i]),
    ensures
        cards.len() <= cs.len(),
{
    broadcast use vstd::seq_lib::seq_to_set_is_finite;

    cards.unique_seq_to_set();
    assert(cards.to_set().subset_of(cs.to_set()));
    cs.lemma_cardinality_of_set();
    vstd::set_lib::lemma_len_subset(cards.to_set(), cs.to_set());
}

/// Seven cards holding a five-card suit leave no room for four of a kind
/// or a full house.
proof fn lemma_flush_excludes_quads_boat(cs: Seq<u8>, fs: int)
    requires
        0 <= fs < 4,
        cs.len() == 7,
        suit_nranks(cs, fs) >= 5,
    ensures
        !has_quads(cs),
        !has_full_house(cs),
{
    let a = suit_cards_upto(cs, fs, 13);
    lemma_suit_cards_upto(cs, fs, 13);
    assert(!has_quads(cs)) by {
        if has_quads(cs) {
            let r = choose|r: int| 0 <= r < 13 && rank_nsuits(cs, r) >= 4;
            let b = rank_cards_upto(cs, r, fs, 4);
            lemma_rank_cards_props(cs, r, fs, 4);
            lemma_rank_count_eq_nsuits(cs, r);
            let all = a + b;
            assert(all.no_duplicates());
            assert(forall|i: int| 0 <= i < all.len() ==> cs.contains(#[trigger] all[i]));
            lemma_count_distinct_in(cs, all);
        }
    }
    assert(!has_full_house(cs)) by {
        if has_full_house(cs) {
            let (r1, r2) = choose|r1: int, r2: int|
                0 <= r1 < 13 && 0 <= r2 < 13 && r1 != r2 && rank_nsuits(cs, r1) >= 3
                    && rank_nsuits(cs, r2) >= 2;
            let b = rank_cards_upto(cs, r1, fs, 4);
            let c = rank_cards_upto(cs, r2, fs, 4);
            lemma_rank_cards_props(cs, r1, fs, 4);
            lemma_rank_cards_props(cs, r2, fs, 4);
            lemma_rank_count_eq_nsuits(cs, r1);
            lemma_rank_count_eq_nsuits(cs, r2);
            let all = a + b + c;
            assert(all.no_duplicates());
            assert(forall|i: int| 0 <= i < all.len() ==> cs.contains(#[trigger] all[i]));
            lemma_count_distinct_in(cs, all);
        }
    }
}

/// A straight within one suit occupies five distinct ranks of that suit.
proof fn lemma_straight_needs_five(cs: Seq<u8>, s: int, h: int)
    requires
        0 <= s < 4,
        3 <= h <= 12,
        straight_at_pr(suit_ranks_pr(cs, s), h),
    ensures
        suit_nranks(cs, s) >= 5,
{
    if h == 3 {
        lemma_suit_count_from_ranks_upto(cs, s, seq![0int, 1int, 2int, 3int, 12int], 13);
    } else {
        lemma_suit_count_from_ranks_upto(cs, s, seq![h - 4, h - 3, h - 2, h - 1, h], 13);
    }
}

proof fn lemma_suit_count_from_ranks_upto(cs: Seq<u8>, s: int, ranks: Seq<int>, n: int)
    requires
        0 <= s < 4,
        0 <= n <= 13,
        forall|i: int| 0 <= i < ranks.len() ==> 0 <= #[trigger] ranks[i] < n,
        forall|i: int, j: int| 0 <= i < j < ranks.len() ==> ranks[i] < ranks[j],
        forall|i: int| 0 <= i < ranks.len() ==> has_card(cs, #[trigger] ranks[i], s),
    ensures
        suit_nranks_upto(cs, s, n) >= ranks.len(),
    decreases n,
{
    if ranks.len() == 0 {
        lemma_suit_nranks_nonneg(cs, s, n);
    } else {
        let last = ranks[ranks.len() - 1];
        assert(forall|i: int| 0 <= i < ranks.len() - 1 ==> #[trigger] ranks[i] < last);
        if last == n - 1 {
            lemma_suit_count_from_ranks_upto(cs, s, ranks.drop_last(), n - 1);
        } else {
            lemma_suit_count_from_ranks_upto(cs, s, ranks, n - 1);
        }
    }
}

proof fn lemma_suit_nranks_nonneg(cs: Seq<u8>, s: int, n: int)
    ensures
        suit_nranks_upto(cs, s, n) >= 0,
    decreases n,
{
    if n > 0 {
        lemma_suit_nranks_nonneg(cs, s, n - 1);
    }
}

proof fn lemma_suit_nranks_le_thirteen(cs: Seq<u8>, s: int, n: int)
    requires
        0 <= n <= 13,
    ensures
        suit_nranks_upto(cs, s, n) <= n,
        suit_nranks_upto(cs, s, n) >= 0,
    decreases n,
{
    if n > 0 {
        lemma_suit_nranks_le_thirteen(cs, s, n - 1);
    }
}

/// The cards of two given suits that the card list holds, with rank
/// below `n`.
spec fn suit_pair_cards(cs: Seq<u8>, s1: int, s2: int, n: int) -> Set<u8> {
    Set::new(|c: u8| cs.contains(c) && (c % 4 == s1 || c % 4 == s2) && c / 4 < n)
}

/// Two different suits together cannot hold more ranks than there are
/// cards, so only one suit of seven cards can reach five.
proof fn lemma_two_flushes_impossible(cs: Seq<u8>, s1: int, s2: int)
    requires
        0 <= s1 < 4,
        0 <= s2 < 4,
        s1 != s2,
    ensures
        suit_nranks(cs, s1) + suit_nranks(cs, s2) <= cs.len(),
{
    lemma_members_bound(cs, s1, s2, 13);
    lemma_set_size(cs, s1, s2, 13);
}

proof fn lemma_members_bound(cs: Seq<u8>, s1: int, s2: int, n: int)
    requires
        0 <= s1 < 4,
        0 <= s2 < 4,
        s1 != s2,
        0 <= n <= 13,
    ensures
        suit_pair_cards(cs, s1, s2, n).finite(),
        suit_pair_cards(cs, s1, s2, n).len() >= suit_nranks_upto(cs, s1, n) + suit_nranks_upto(
            cs,
            s2,
            n,
        ),
    decreases n,
{
    if n == 0 {
        assert(suit_pair_cards(cs, s1, s2, 0) =~= Set::<u8>::empty());
    } else {
        lemma_members_bound(cs, s1, s2, n - 1);
        let prev = suit_pair_cards(cs, s1, s2, n - 1);
        let cur = suit_pair_cards(cs, s1, s2, n);
        let c1 = (4 * (n - 1) + s1) as u8;
        let c2 = (4 * (n - 1) + s2) as u8;
        assert(c1 % 4 == s1 && c1 / 4 == n - 1 && c2 % 4 == s2 && c2 / 4 == n - 1) by (
        nonlinear_arith)
            requires
                0 <= s1 < 4,
                0 <= s2 < 4,
                1 <= n <= 13,
                c1 == 4 * (n - 1) + s1,
                c2 == 4 * (n - 1) + s2,
        ;
        if has_card(cs, n - 1, s1) && has_card(cs, n - 1, s2) {
            assert(cur =~= prev.insert(c1).insert(c2));
            assert(!prev.contains(c1) && !prev.contains(c2) && c1 != c2);
        } else if has_card(cs, n - 1, s1) {
            assert(cur =~= prev.insert(c1));
            assert(!prev.contains(c1));
        } else if has_card(cs, n - 1, s2) {
            assert(cur =~= prev.insert(c2));
            assert(!prev.contains(c2));
        } else {
            assert(cur =~= prev);
        }
    }
}

proof fn lemma_set_size(cs: Seq<u8>, s1: int, s2: int, n: int)
    requires
        0 <= n <= 13,
    ensures
        suit_pair_cards(cs, s1, s2, n).len() <= cs.len(),
{
    broadcast use vstd::seq_lib::seq_to_set_is_finite;

    let m = suit_pair_cards(cs, s1, s2, n);
    assert(m.subset_of(cs.to_set()));
    assert(cs.to_set().finite());
    assert(cs.to_set().len() <= cs.len()) by {
        cs.lemma_cardinality_of_set();
    }
    vstd::set_lib::lemma_len_subset(m, cs.to_set());
}

} // verus!
