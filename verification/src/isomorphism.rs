//! Suit-group computation and canonical hand keys for suit isomorphism.
//!
//! Two suits are interchangeable on a board when permuting them leaves the
//! board unchanged: on the flop, when they carry the same set of board
//! ranks; on later streets, additionally when they were interchangeable on
//! the earlier street.  `suit_groups[s]` names the lowest interchangeable
//! suit, so `s` is grouped with `s'` exactly when the entries agree.
//!
//! A canonical key for a hole-card pair is the least card-pair index
//! reachable by a suit permutation that respects the groups.  Two hands
//! get the same key exactly when such a permutation maps one to the
//! other, which makes the key a bucket id for suit-equivalent hands.
use vstd::prelude::*;

use crate::cards::{Board, Hand};

verus! {

/// Every slot of the board holds a card or the absent sentinel.
pub open spec fn board_wf(board: Board) -> bool {
    forall|i: int| 0 <= i < 5 ==> board[i] <= 52
}

/// The rank bitmask of suit `s` over the first `n` board slots.
pub open spec fn mask_upto(board: Board, s: int, n: int) -> u16
    decreases n,
{
    if n <= 0 {
        0u16
    } else {
        let prev = mask_upto(board, s, n - 1);
        let c = board[n - 1];
        if c != 52 && c % 4 == s {
            prev | (1u16 << ((c / 4) as u16))
        } else {
            prev
        }
    }
}

/// The rank bitmask of suit `s` over the whole board.
pub open spec fn suit_mask(board: Board, s: int) -> u16 {
    mask_upto(board, s, 5)
}

fn board_rank_masks(board: &Board) -> (masks: [u16; 4])
    requires
        board_wf(*board),
    ensures
        forall|s: int| 0 <= s < 4 ==> masks[s] == suit_mask(*board, s),
{
    let mut masks: [u16; 4] = [0u16; 4];
    let mut k: usize = 0;
    while k < 5
        invariant
            board_wf(*board),
            k <= 5,
            forall|s: int| 0 <= s < 4 ==> masks[s] == mask_upto(*board, s, k as int),
        decreases 5 - k,
    {
        let c = board[k];
        if c != 52 {
            let suit = (c % 4) as usize;
            let rank = (c / 4) as u16;
            masks[suit] = masks[suit] | (1u16 << rank);
        }
        k += 1;
    }
    masks
}

/// The groups for the first street of a game: `groups[i]` is the least
/// suit whose board rank-set equals suit `i`'s.
pub fn build_initial_suit_groups(board: &Board) -> (groups: Vec<u8>)
    requires
        board_wf(*board),
    ensures
        groups@.len() == 4,
        forall|i: int| 0 <= i < 4 ==> 0 <= #[trigger] groups@[i] <= i,
        forall|i: int| 0 <= i < 4 ==> suit_mask(*board, #[trigger] groups@[i] as int) == suit_mask(
            *board,
            i,
        ),
        forall|i: int, j: int|
            0 <= i < 4 && 0 <= j < groups@[i] ==> suit_mask(*board, j) != suit_mask(*board, i),
{
    let masks = board_rank_masks(board);
    let mut groups: Vec<u8> = Vec::new();
    let mut i: usize = 0;
    while i < 4
        invariant
            board_wf(*board),
            i <= 4,
            groups@.len() == i,
            forall|s: int| 0 <= s < 4 ==> masks[s] == suit_mask(*board, s),
            forall|k: int| 0 <= k < i ==> 0 <= #[trigger] groups@[k] <= k,
            forall|k: int|
                0 <= k < i ==> suit_mask(*board, #[trigger] groups@[k] as int) == suit_mask(
                    *board,
                    k,
                ),
            forall|k: int, j: int|
                0 <= k < i && 0 <= j < groups@[k] ==> suit_mask(*board, j) != suit_mask(*board, k),
        decreases 4 - i,
    {
        let mut j: usize = 0;
        while j < i && masks[j] != masks[i]
            invariant
                i < 4,
                j <= i,
                forall|s: int| 0 <= s < 4 ==> masks[s] == suit_mask(*board, s),
                forall|k: int| 0 <= k < j ==> suit_mask(*board, k) != suit_mask(*board, i as int),
            decreases i - j,
        {
            j += 1;
        }
        groups.push(j as u8);
        i += 1;
    }
    groups
}

/// The groups for a later street: suits are grouped when their whole-board
/// rank-sets agree and they were already grouped on the earlier street.
pub fn build_next_suit_groups(board: &Board, prior_groups: &Vec<u8>) -> (groups: Vec<u8>)
    requires
        board_wf(*board),
        prior_groups@.len() == 4,
    ensures
        groups@.len() == 4,
        forall|i: int| 0 <= i < 4 ==> 0 <= #[trigger] groups@[i] <= i,
        forall|i: int|
            0 <= i < 4 ==> suit_mask(*board, #[trigger] groups@[i] as int) == suit_mask(*board, i)
                && prior_groups@[groups@[i] as int] == prior_groups@[i],
        forall|i: int, j: int|
            0 <= i < 4 && 0 <= j < groups@[i] ==> !(suit_mask(*board, j) == suit_mask(*board, i)
                && prior_groups@[j] == prior_groups@[i]),
{
    let masks = board_rank_masks(board);
    let mut groups: Vec<u8> = Vec::new();
    let mut i: usize = 0;
    while i < 4
        invariant
            board_wf(*board),
            prior_groups@.len() == 4,
            i <= 4,
            groups@.len() == i,
            forall|s: int| 0 <= s < 4 ==> masks[s] == suit_mask(*board, s),
            forall|k: int| 0 <= k < i ==> 0 <= #[trigger] groups@[k] <= k,
            forall|k: int|
                0 <= k < i ==> suit_mask(*board, #[trigger] groups@[k] as int) == suit_mask(
                    *board,
                    k,
                ) && prior_groups@[groups@[k] as int] == prior_groups@[k],
            forall|k: int, j: int|
                0 <= k < i && 0 <= j < groups@[k] ==> !(suit_mask(*board, j) == suit_mask(
                    *board,
                    k,
                ) && prior_groups@[j] == prior_groups@[k]),
        decreases 4 - i,
    {
        let mut j: usize = 0;
        while j < i && !(masks[j] == masks[i] && prior_groups[j] == prior_groups[i])
            invariant
                i < 4,
                j <= i,
                prior_groups@.len() == 4,
                forall|s: int| 0 <= s < 4 ==> masks[s] == suit_mask(*board, s),
                forall|k: int|
                    0 <= k < j ==> !(suit_mask(*board, k) == suit_mask(*board, i as int)
                        && prior_groups@[k] == prior_groups@[i as int]),
            decreases i - j,
        {
            j += 1;
        }
        groups.push(j as u8);
        i += 1;
    }
    groups
}

/// A suit permutation that respects the groups: a bijection on suits that
/// only moves a suit within its group.
pub open spec fn is_valid_perm(groups: Seq<u8>, p: Seq<u8>) -> bool {
    &&& p.len() == 4
    &&& groups.len() == 4
    &&& forall|s: int| 0 <= s < 4 ==> 0 <= #[trigger] p[s] < 4
    &&& forall|s1: int, s2: int| 0 <= s1 < s2 < 4 ==> p[s1] != p[s2]
    &&& forall|s: int| 0 <= s < 4 ==> groups[#[trigger] p[s] as int] == groups[s]
}

/// The card reached by relabeling `c`'s suit through `p`.
pub open spec fn permuted_card(p: Seq<u8>, c: u8) -> int {
    4 * (c as int / 4) + p[c as int % 4]
}

/// The pair index of a hand after relabeling both suits through `p`,
/// with the two cards put in ascending order.
pub open spec fn perm_key(p: Seq<u8>, h: Hand) -> int {
    let a = permuted_card(p, h[0]);
    let b = permuted_card(p, h[1]);
    if a <= b {
        52 * a + b
    } else {
        52 * b + a
    }
}

/// The encoding that drives the exec enumeration of all suit maps.
spec fn perm_code(p: Seq<u8>) -> int {
    64 * p[0] + 16 * p[1] + 4 * p[2] + p[3]
}

/// The canonical key of a hand under the board's suit groups: the least
/// pair index reachable by a group-respecting suit permutation.  Hands
/// with equal keys are suit-isomorphic on the board.
#[verifier::rlimit(60)]
pub fn iso_hand_key(groups: &Vec<u8>, hand: Hand) -> (key: u64)
    requires
        groups@.len() == 4,
        hand[0] < 52,
        hand[1] < 52,
    ensures
        exists|p: Seq<u8>| is_valid_perm(groups@, p) && key == perm_key(p, hand),
        forall|p: Seq<u8>| is_valid_perm(groups@, p) ==> key <= perm_key(p, hand),
        key < 52 * 52,
{
    let mut best: u64 = u64::MAX;
    let mut idx: usize = 0;
    while idx < 256
        invariant
            groups@.len() == 4,
            hand[0] < 52,
            hand[1] < 52,
            idx <= 256,
            best == u64::MAX || (exists|p: Seq<u8>|
                is_valid_perm(groups@, p) && best == perm_key(p, hand)),
            best == u64::MAX || best < 52 * 52,
            forall|p: Seq<u8>|
                is_valid_perm(groups@, p) && perm_code(p) < idx ==> best <= perm_key(p, hand),
        decreases 256 - idx,
    {
        let p0 = (idx / 64) as u8;
        let p1 = ((idx / 16) % 4) as u8;
        let p2 = ((idx / 4) % 4) as u8;
        let p3 = (idx % 4) as u8;
        let p: [u8; 4] = [p0, p1, p2, p3];
        let ghost pseq: Seq<u8> = p@;
        proof {
            assert(pseq.len() == 4);
            assert(pseq[0] == p0 && pseq[1] == p1 && pseq[2] == p2 && pseq[3] == p3);
            assert(perm_code(pseq) == idx);
        }
        let distinct = p0 != p1 && p0 != p2 && p0 != p3 && p1 != p2 && p1 != p3 && p2 != p3;
        let respects = groups[p0 as usize] == groups[0] && groups[p1 as usize] == groups[1]
            && groups[p2 as usize] == groups[2] && groups[p3 as usize] == groups[3];
        if distinct && respects {
            proof {
                assert(is_valid_perm(groups@, pseq));
            }
            let a = 4 * (hand[0] / 4) + p[(hand[0] % 4) as usize];
            let b = 4 * (hand[1] / 4) + p[(hand[1] % 4) as usize];
            let cand: u64 = if a <= b {
                52 * (a as u64) + (b as u64)
            } else {
                52 * (b as u64) + (a as u64)
            };
            proof {
                assert(a == permuted_card(pseq, hand[0]));
                assert(b == permuted_card(pseq, hand[1]));
                assert(cand == perm_key(pseq, hand));
                assert(cand < 52 * 52);
            }
            if cand < best {
                best = cand;
            }
        } else {
            proof {
                assert(!is_valid_perm(groups@, pseq));
            }
        }
        proof {
            assert forall|q: Seq<u8>|
                is_valid_perm(groups@, q) && perm_code(q) < idx + 1 implies best <= perm_key(
                q,
                hand,
            ) by {
                if perm_code(q) == idx {
                    assert(0 <= q[0] < 4 && 0 <= q[1] < 4 && 0 <= q[2] < 4 && 0 <= q[3] < 4);
                    assert(q[0] == p0 && q[1] == p1 && q[2] == p2 && q[3] == p3);
                    assert(q =~= pseq);
                }
            }
        }
        idx += 1;
    }
    proof {
        let iq: Seq<u8> = seq![0u8, 1u8, 2u8, 3u8];
        assert(is_valid_perm(groups@, iq));
        assert(perm_code(iq) < 256);
        assert(best <= perm_key(iq, hand));
        assert(perm_key(iq, hand) < 52 * 52);
    }
    best
}

} // verus!

verus! {

/// The least suit at or below `i` whose board rank-set matches suit
/// `i`'s, scanning upward from `j`.
pub open spec fn first_same_mask(board: Board, i: int, j: int) -> int
    decreases i - j,
{
    if j >= i {
        i
    } else if suit_mask(board, j) == suit_mask(board, i) {
        j
    } else {
        first_same_mask(board, i, j + 1)
    }
}

/// The group of suit `i` on the first street: the least suit with the
/// same board rank-set.
pub open spec fn spec_initial_group(board: Board, i: int) -> int {
    first_same_mask(board, i, 0)
}

pub open spec fn first_same_mask_and_prior(board: Board, prior: Seq<u8>, i: int, j: int) -> int
    decreases i - j,
{
    if j >= i {
        i
    } else if suit_mask(board, j) == suit_mask(board, i) && prior[j] == prior[i] {
        j
    } else {
        first_same_mask_and_prior(board, prior, i, j + 1)
    }
}

/// The group of suit `i` on a later street: the least suit with the
/// same whole-board rank-set that was already grouped with it before.
pub open spec fn spec_next_group(board: Board, prior: Seq<u8>, i: int) -> int {
    first_same_mask_and_prior(board, prior, i, 0)
}

proof fn lemma_first_same_mask_pins(board: Board, i: int, j0: int, j: int)
    requires
        0 <= j <= j0 <= i,
        suit_mask(board, j0) == suit_mask(board, i),
        forall|k: int| 0 <= k < j0 ==> suit_mask(board, k) != suit_mask(board, i),
    ensures
        first_same_mask(board, i, j) == j0,
    decreases i - j,
{
    if j < j0 {
        lemma_first_same_mask_pins(board, i, j0, j + 1);
    }
}

/// The computed groups are exactly the least-matching-suit groups.
pub proof fn lemma_initial_groups_pinned(board: Board, groups: Seq<u8>)
    requires
        groups.len() == 4,
        forall|i: int| 0 <= i < 4 ==> 0 <= #[trigger] groups[i] <= i,
        forall|i: int|
            0 <= i < 4 ==> suit_mask(board, #[trigger] groups[i] as int) == suit_mask(board, i),
        forall|i: int, j: int|
            0 <= i < 4 && 0 <= j < groups[i] ==> suit_mask(board, j) != suit_mask(board, i),
    ensures
        forall|i: int| 0 <= i < 4 ==> #[trigger] groups[i] as int == spec_initial_group(board, i),
{
    assert forall|i: int| 0 <= i < 4 implies #[trigger] groups[i] as int == spec_initial_group(
        board,
        i,
    ) by {
        lemma_first_same_mask_pins(board, i, groups[i] as int, 0);
    }
}

proof fn lemma_first_same_mask_and_prior_pins(
    board: Board,
    prior: Seq<u8>,
    i: int,
    j0: int,
    j: int,
)
    requires
        0 <= j <= j0 <= i,
        suit_mask(board, j0) == suit_mask(board, i) && prior[j0] == prior[i],
        forall|k: int|
            0 <= k < j0 ==> !(suit_mask(board, k) == suit_mask(board, i) && prior[k] == prior[i]),
    ensures
        first_same_mask_and_prior(board, prior, i, j) == j0,
    decreases i - j,
{
    if j < j0 {
        lemma_first_same_mask_and_prior_pins(board, prior, i, j0, j + 1);
    }
}

/// The computed refined groups are exactly the least-matching-suit
/// groups under the earlier street's grouping.
pub proof fn lemma_next_groups_pinned(board: Board, prior: Seq<u8>, groups: Seq<u8>)
    requires
        prior.len() == 4,
        groups.len() == 4,
        forall|i: int| 0 <= i < 4 ==> 0 <= #[trigger] groups[i] <= i,
        forall|i: int|
            0 <= i < 4 ==> suit_mask(board, #[trigger] groups[i] as int) == suit_mask(board, i)
                && prior[groups[i] as int] == prior[i],
        forall|i: int, j: int|
            0 <= i < 4 && 0 <= j < groups[i] ==> !(suit_mask(board, j) == suit_mask(board, i)
                && prior[j] == prior[i]),
    ensures
        forall|i: int| 0 <= i < 4 ==> #[trigger] groups[i] as int == spec_next_group(
            board,
            prior,
            i,
        ),
{
    assert forall|i: int| 0 <= i < 4 implies #[trigger] groups[i] as int == spec_next_group(
        board,
        prior,
        i,
    ) by {
        lemma_first_same_mask_and_prior_pins(board, prior, i, groups[i] as int, 0);
    }
}

} // verus!

verus! {

/// Bit `r` of a suit's rank mask is set exactly when the board holds
/// that suit's card of rank `r`.
pub proof fn lemma_mask_bit(board: Board, s: int, n: int, r: int)
    requires
        board_wf(board),
        0 <= r < 16,
        0 <= n <= 5,
    ensures
        ((mask_upto(board, s, n) >> (r as u16)) & 1u16 == 1u16) <==> exists|k: int|
            0 <= k < n && board[k] != 52 && #[trigger] board[k] % 4 == s && board[k] / 4 == r,
    decreases n,
{
    if n == 0 {
        let rr = r as u16;
        assert((0u16 >> rr) & 1u16 == 0u16) by (bit_vector);
    } else {
        lemma_mask_bit(board, s, n - 1, r);
        let prev = mask_upto(board, s, n - 1);
        let c = board[n - 1];
        if c != 52 && c % 4 == s {
            let rank = (c / 4) as u16;
            let rr = r as u16;
            assert((((prev | (1u16 << rank)) >> rr) & 1u16 == 1u16) <==> (((prev >> rr) & 1u16
                == 1u16) || rank == rr)) by (bit_vector)
                requires
                    rank < 16u16,
                    rr < 16u16,
            ;
            if ((mask_upto(board, s, n) >> (r as u16)) & 1u16 == 1u16) {
                if rank == rr {
                    assert(board[n - 1] % 4 == s && board[n - 1] / 4 == r);
                }
            }
        } else {
            assert forall|k: int|
                0 <= k < n && board[k] != 52 && #[trigger] board[k] % 4 == s && board[k] / 4
                    == r implies k < n - 1 by {}
        }
    }
}

/// Suits with equal rank masks hold exactly the same board ranks, so a
/// card of one is on the board exactly when the matching card of the
/// other is.
pub proof fn lemma_equal_masks_equal_blocking(board: Board, s1: int, s2: int, r: int)
    requires
        board_wf(board),
        0 <= s1 < 4,
        0 <= s2 < 4,
        0 <= r < 13,
        suit_mask(board, s1) == suit_mask(board, s2),
    ensures
        board@.contains((4 * r + s1) as u8) <==> board@.contains((4 * r + s2) as u8),
{
    lemma_mask_bit(board, s1, 5, r);
    lemma_mask_bit(board, s2, 5, r);
    assert forall|s: int| 0 <= s < 4 implies (#[trigger] board@.contains((4 * r + s) as u8)
        <==> exists|k: int|
        0 <= k < 5 && board[k] != 52 && #[trigger] board[k] % 4 == s && board[k] / 4 == r) by {
        let c = (4 * r + s) as u8;
        assert(c % 4 == s && c / 4 == r && c != 52) by (nonlinear_arith)
            requires
                0 <= s < 4,
                0 <= r < 13,
                c == 4 * r + s,
        ;
        if board@.contains(c) {
            let k = choose|k: int| 0 <= k < 5 && board@[k] == c;
            assert(board[k] % 4 == s && board[k] / 4 == r && board[k] != 52);
        }
        if exists|k: int|
            0 <= k < 5 && board[k] != 52 && #[trigger] board[k] % 4 == s && board[k] / 4 == r {
            let k = choose|k: int|
                0 <= k < 5 && board[k] != 52 && #[trigger] board[k] % 4 == s && board[k] / 4 == r;
            assert(board[k] == c) by (nonlinear_arith)
                requires
                    board[k] % 4 == s,
                    board[k] / 4 == r,
                    c == 4 * r + s,
                    0 <= board[k] < 256,
            ;
            assert(board@[k] == c);
        }
    }
}

/// The scanned group shares the suit's mask.
pub proof fn lemma_first_same_mask_props(board: Board, i: int, j: int)
    requires
        0 <= j <= i,
    ensures
        j <= first_same_mask(board, i, j) <= i,
        suit_mask(board, first_same_mask(board, i, j)) == suit_mask(board, i),
        forall|k: int|
            j <= k < first_same_mask(board, i, j) ==> suit_mask(board, k) != suit_mask(board, i),
    decreases i - j,
{
    if j < i && suit_mask(board, j) != suit_mask(board, i) {
        lemma_first_same_mask_props(board, i, j + 1);
    }
}

/// A scanned group is its own group: nothing below it matches it.
pub proof fn lemma_initial_group_idempotent(board: Board, i: int)
    requires
        0 <= i < 4,
    ensures
        spec_initial_group(board, spec_initial_group(board, i)) == spec_initial_group(board, i),
{
    let g = spec_initial_group(board, i);
    lemma_first_same_mask_props(board, i, 0);
    lemma_first_same_mask_pins(board, g, g, 0);
}

/// The scanned refined group shares the suit's mask and earlier group.
pub proof fn lemma_first_same_mask_and_prior_props(board: Board, prior: Seq<u8>, i: int, j: int)
    requires
        0 <= j <= i,
    ensures
        j <= first_same_mask_and_prior(board, prior, i, j) <= i,
        suit_mask(board, first_same_mask_and_prior(board, prior, i, j)) == suit_mask(board, i),
        prior[first_same_mask_and_prior(board, prior, i, j)] == prior[i],
        forall|k: int|
            j <= k < first_same_mask_and_prior(board, prior, i, j) ==> !(suit_mask(board, k)
                == suit_mask(board, i) && prior[k] == prior[i]),
    decreases i - j,
{
    if j < i && !(suit_mask(board, j) == suit_mask(board, i) && prior[j] == prior[i]) {
        lemma_first_same_mask_and_prior_props(board, prior, i, j + 1);
    }
}

/// A scanned refined group is its own refined group.
pub proof fn lemma_next_group_idempotent(board: Board, prior: Seq<u8>, i: int)
    requires
        0 <= i < 4,
    ensures
        spec_next_group(board, prior, spec_next_group(board, prior, i)) == spec_next_group(
            board,
            prior,
            i,
        ),
{
    let g = spec_next_group(board, prior, i);
    lemma_first_same_mask_and_prior_props(board, prior, i, 0);
    lemma_first_same_mask_and_prior_pins(board, prior, g, g, 0);
}

} // verus!
