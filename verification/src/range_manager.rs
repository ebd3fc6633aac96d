//! Per-board ranges and the projections between streets.
//!
//! A range manager owns one range per reachable board, keyed by a
//! mixed-radix encoding of the board's five card slots.  For every child
//! board it also owns an index table that pulls the parent street's
//! per-hand values into child order (`get_next_reach_probs`) and pushes
//! child utilities back into parent slots (`map_utility_backwards`).
//! River ranges are sorted ascending by showdown rank, with their tables
//! permuted alongside, so the showdown sweep can walk equal-rank runs.
//!
//! The isomorphic manager additionally buckets flop and turn hands by a
//! canonical suit key: the first hand of a bucket is its representative
//! (`weight >= 1`), later ones are aliases (`weight == 0`) whose
//! `canon_index` names the representative, and the per-board table sends
//! every member of a bucket to the representative's row.
use vstd::prelude::*;

use crate::cards::Board;
use crate::combination::Combination;
use std::collections::HashMap;

verus! {

/// The mixed-radix key of a board: two decimal digits per dealt slot,
/// each holding the card value plus one, absent slots holding zero.
pub open spec fn spec_get_key(board: Board) -> int {
    if board[3] == 52 {
        100000000 * (board[0] + 1) + 1000000 * (board[1] + 1) + 10000 * (board[2] + 1)
    } else if board[4] == 52 {
        100000000 * (board[0] + 1) + 1000000 * (board[1] + 1) + 10000 * (board[2] + 1) + 100 * (
        board[3] + 1)
    } else {
        100000000 * (board[0] + 1) + 1000000 * (board[1] + 1) + 10000 * (board[2] + 1) + 100 * (
        board[3] + 1) + (board[4] + 1)
    }
}

/// Computes the board key.
pub fn get_key(board: &Board) -> (k: u64)
    requires
        crate::isomorphism::board_wf(*board),
    ensures
        k == spec_get_key(*board),
{
    if board[3] == 52 {
        100000000 * (board[0] as u64 + 1) + 1000000 * (board[1] as u64 + 1) + 10000 * (
        board[2] as u64 + 1)
    } else if board[4] == 52 {
        100000000 * (board[0] as u64 + 1) + 1000000 * (board[1] as u64 + 1) + 10000 * (
        board[2] as u64 + 1) + 100 * (board[3] as u64 + 1)
    } else {
        100000000 * (board[0] as u64 + 1) + 1000000 * (board[1] as u64 + 1) + 10000 * (
        board[2] as u64 + 1) + 100 * (board[3] as u64 + 1) + (board[4] as u64 + 1)
    }
}

/// The board one street earlier: the river slot cleared when dealt, else
/// the turn slot.
pub open spec fn parent_board(b: Board) -> Board {
    if b[4] != 52 {
        [b[0], b[1], b[2], b[3], 52u8]
    } else {
        [b[0], b[1], b[2], 52u8, 52u8]
    }
}

/// Clears the latest dealt slot of the board.
pub fn compute_parent_board(b: &Board) -> (p: Board)
    ensures
        p == parent_board(*b),
{
    if b[4] != 52 {
        [b[0], b[1], b[2], b[3], 52u8]
    } else {
        [b[0], b[1], b[2], 52u8, 52u8]
    }
}

/// A board with a dealt flop, whose undealt slots are the trailing
/// ones.
pub open spec fn board_shape_ok(b: Board) -> bool {
    &&& b[0] < 52
    &&& b[1] < 52
    &&& b[2] < 52
    &&& b[3] <= 52
    &&& b[4] <= 52
    &&& (b[3] == 52 ==> b[4] == 52)
}

/// The child-order view of parent values: entry `i` reads the parent
/// slot the table names.
pub open spec fn gathered(src: Seq<i64>, map: Seq<usize>) -> Seq<i64> {
    Seq::new(map.len(), |i: int| src[map[i] as int])
}

/// The first `n` child utilities accumulated into their parent slots.
pub open spec fn scatter_add(dst: Seq<i64>, map: Seq<usize>, util: Seq<i64>, n: int) -> Seq<i64>
    decreases n,
{
    if n <= 0 {
        dst
    } else {
        let prev = scatter_add(dst, map, util, n - 1);
        prev.update(map[n - 1] as int, (prev[map[n - 1] as int] + util[n - 1]) as i64)
    }
}

/// A bound all utilities handed across street projections stay under;
/// sums of whole ranges then stay far from overflow.
pub const UTIL_BOUND: i64 = 0x100_0000_0000;

proof fn lemma_scatter_add_bound(dst: Seq<i64>, map: Seq<usize>, util: Seq<i64>, n: int)
    requires
        0 <= n <= map.len(),
        map.len() <= 0x10000,
        util.len() == map.len(),
        forall|i: int| 0 <= i < n ==> 0 <= #[trigger] map[i] < dst.len(),
        forall|i: int| 0 <= i < dst.len() ==> -UTIL_BOUND <= #[trigger] dst[i] <= UTIL_BOUND,
        forall|i: int| 0 <= i < util.len() ==> -UTIL_BOUND <= #[trigger] util[i] <= UTIL_BOUND,
    ensures
        forall|k: int|
            0 <= k < dst.len() ==> -UTIL_BOUND * (n + 1) <= #[trigger] scatter_add(
                dst,
                map,
                util,
                n,
            )[k] <= UTIL_BOUND * (n + 1),
        scatter_add(dst, map, util, n).len() == dst.len(),
    decreases n,
{
    if n == 0 {
        assert forall|k: int|
            0 <= k < dst.len() implies -UTIL_BOUND * 1 <= #[trigger] scatter_add(
            dst,
            map,
            util,
            0,
        )[k] <= UTIL_BOUND * 1 by {
            assert(scatter_add(dst, map, util, 0) == dst);
        }
    } else {
        lemma_scatter_add_bound(dst, map, util, n - 1);
        let prev = scatter_add(dst, map, util, n - 1);
        let idx = map[n - 1] as int;
        assert forall|k: int|
            0 <= k < dst.len() implies -UTIL_BOUND * (n + 1) <= #[trigger] scatter_add(
            dst,
            map,
            util,
            n,
        )[k] <= UTIL_BOUND * (n + 1) by {
            assert(-UTIL_BOUND * n <= prev[k] <= UTIL_BOUND * n);
            assert(-UTIL_BOUND * n <= prev[idx] <= UTIL_BOUND * n);
            assert(-UTIL_BOUND * (n + 1) <= prev[idx] + util[n - 1] <= UTIL_BOUND * (n + 1))
                by (nonlinear_arith)
                requires
                    -UTIL_BOUND * n <= prev[idx] <= UTIL_BOUND * n,
                    -UTIL_BOUND <= util[n - 1] <= UTIL_BOUND,
                    n >= 1,
            ;
            assert(-0x7fff_ffff_ffff_ffff <= prev[idx] + util[n - 1] <= 0x7fff_ffff_ffff_ffff)
                by (nonlinear_arith)
                requires
                    -UTIL_BOUND * (n + 1) <= prev[idx] + util[n - 1] <= UTIL_BOUND * (n + 1),
                    1 <= n <= 0x10000,
                    UTIL_BOUND == 0x100_0000_0000,
            ;
        }
    }
}

/// Accumulates child utilities into parent slots through the index
/// table: slot `map[i]` gains `util[i]`.
pub fn apply_scatter_add(mapped: &mut Vec<i64>, map: &Vec<usize>, util: &Vec<i64>)
    requires
        util@.len() == map@.len(),
        map@.len() <= 0x10000,
        forall|i: int| 0 <= i < map@.len() ==> 0 <= #[trigger] map@[i] < old(mapped)@.len(),
        forall|i: int|
            0 <= i < old(mapped)@.len() ==> -UTIL_BOUND <= #[trigger] old(mapped)@[i]
                <= UTIL_BOUND,
        forall|i: int| 0 <= i < util@.len() ==> -UTIL_BOUND <= #[trigger] util@[i] <= UTIL_BOUND,
    ensures
        final(mapped)@ == scatter_add(old(mapped)@, map@, util@, map@.len() as int),
        final(mapped)@.len() == old(mapped)@.len(),
{
    let n = map.len();
    let mut i: usize = 0;
    while i < n
        invariant
            n == map@.len(),
            util@.len() == n,
            n <= 0x10000,
            i <= n,
            forall|k: int| 0 <= k < n ==> 0 <= #[trigger] map@[k] < old(mapped)@.len(),
            forall|k: int|
                0 <= k < old(mapped)@.len() ==> -UTIL_BOUND <= #[trigger] old(mapped)@[k]
                    <= UTIL_BOUND,
            forall|k: int| 0 <= k < n ==> -UTIL_BOUND <= #[trigger] util@[k] <= UTIL_BOUND,
            mapped@ == scatter_add(old(mapped)@, map@, util@, i as int),
            mapped@.len() == old(mapped)@.len(),
        decreases n - i,
    {
        proof {
            lemma_scatter_add_bound(old(mapped)@, map@, util@, i as int);
            lemma_scatter_add_bound(old(mapped)@, map@, util@, i as int + 1);
        }
        let idx = map[i];
        let ghost prev = mapped@;
        let v = mapped[idx];
        proof {
            assert(-UTIL_BOUND * (i + 1) <= prev[idx as int] <= UTIL_BOUND * (i + 1));
            assert(-UTIL_BOUND * (i + 1) - UTIL_BOUND <= prev[idx as int] + util@[i as int]
                <= UTIL_BOUND * (i + 1) + UTIL_BOUND) by (nonlinear_arith)
                requires
                    -UTIL_BOUND * (i + 1) <= prev[idx as int] <= UTIL_BOUND * (i + 1),
                    -UTIL_BOUND <= util@[i as int] <= UTIL_BOUND,
            ;
            assert(-0x7fff_ffff_ffff_ffff <= prev[idx as int] + util@[i as int]
                <= 0x7fff_ffff_ffff_ffff) by (nonlinear_arith)
                requires
                    -UTIL_BOUND * (i + 1) - UTIL_BOUND <= prev[idx as int] + util@[i as int]
                        <= UTIL_BOUND * (i + 1) + UTIL_BOUND,
                    0 <= i < 0x10000,
                    UTIL_BOUND == 0x100_0000_0000,
            ;
        }
        let sum = v + util[i];
        mapped.set(idx, sum);
        proof {
            assert(mapped@ == scatter_add(old(mapped)@, map@, util@, i as int + 1));
        }
        i += 1;
    }
}

/// Reads parent values into child order through the index table.
pub fn apply_gather(src: &Vec<i64>, map: &Vec<usize>) -> (out: Vec<i64>)
    requires
        forall|i: int| 0 <= i < map@.len() ==> 0 <= #[trigger] map@[i] < src@.len(),
    ensures
        out@ == gathered(src@, map@),
        out@.len() == map@.len(),
{
    let mut out: Vec<i64> = Vec::new();
    let mut i: usize = 0;
    while i < map.len()
        invariant
            forall|k: int| 0 <= k < map@.len() ==> 0 <= #[trigger] map@[k] < src@.len(),
            i <= map@.len(),
            out@.len() == i,
            forall|k: int| 0 <= k < i ==> out@[k] == src@[#[trigger] map@[k] as int],
        decreases map@.len() - i,
    {
        let idx = map[i];
        out.push(src[idx]);
        i += 1;
    }
    proof {
        assert(out@ =~= gathered(src@, map@));
    }
    out
}

/// A stored range: well-formed combinations with pairwise distinct pair
/// indexes.
pub open spec fn range_ok(r: Seq<Combination>) -> bool {
    &&& forall|i: int| 0 <= i < r.len() ==> (#[trigger] r[i]).wf()
    &&& forall|i: int, j: int| 0 <= i < j < r.len() ==> r[i].raw_index != r[j].raw_index
}

/// Restricts a parent range to the hands that miss the board, keeping
/// parent order, and records each survivor's parent row.
#[verifier::rlimit(60)]
fn filter_unblocked(parent: &Vec<Combination>, board: &Board) -> (out: (
    Vec<Combination>,
    Vec<usize>,
))
    requires
        range_ok(parent@),
    ensures
        out.0@.len() == out.1@.len(),
        range_ok(out.0@),
        forall|i: int|
            0 <= i < out.0@.len() ==> {
                let c = #[trigger] out.0@[i];
                let p = parent@[out.1@[i] as int];
                &&& out.1@[i] < parent@.len()
                &&& c.hand == p.hand
                &&& c.combos == p.combos
                &&& c.rank == 0
                &&& c.weight == 1
                &&& c.raw_index == p.raw_index
                &&& c.canon_index == c.raw_index
                &&& !board@.contains(c.hand[0])
                &&& !board@.contains(c.hand[1])
            },
        forall|i: int, j: int| 0 <= i < j < out.1@.len() ==> out.1@[i] < out.1@[j],
        forall|p: int|
            0 <= p < parent@.len() ==> ((!board@.contains(#[trigger] parent@[p].hand[0])
                && !board@.contains(parent@[p].hand[1])) <==> (exists|i: int|
                0 <= i < out.1@.len() && #[trigger] out.1@[i] == p)),
        turn_entry_ok(out.0@, out.1@, parent@, *board),
{
    let mut kids: Vec<Combination> = Vec::new();
    let mut mapping: Vec<usize> = Vec::new();
    let mut p: usize = 0;
    while p < parent.len()
        invariant
            range_ok(parent@),
            p <= parent@.len(),
            kids@.len() == mapping@.len(),
            range_ok(kids@),
            forall|i: int|
                0 <= i < kids@.len() ==> {
                    let c = #[trigger] kids@[i];
                    let q = parent@[mapping@[i] as int];
                    &&& mapping@[i] < parent@.len()
                    &&& c.hand == q.hand
                    &&& c.combos == q.combos
                    &&& c.rank == 0
                    &&& c.weight == 1
                    &&& c.raw_index == q.raw_index
                    &&& c.canon_index == c.raw_index
                    &&& !board@.contains(c.hand[0])
                    &&& !board@.contains(c.hand[1])
                },
            forall|i: int, j: int| 0 <= i < j < mapping@.len() ==> mapping@[i] < mapping@[j],
            forall|i: int| 0 <= i < mapping@.len() ==> #[trigger] mapping@[i] < p,
            forall|q: int|
                0 <= q < p ==> ((!board@.contains(#[trigger] parent@[q].hand[0])
                    && !board@.contains(parent@[q].hand[1])) <==> (exists|i: int|
                    0 <= i < mapping@.len() && #[trigger] mapping@[i] == q)),
        decreases parent@.len() - p,
    {
        let c = parent[p];
        let ghost map_before = mapping@;
        if !crate::cards::check_hand_overlap(c.hand, board) {
            let kid = Combination {
                hand: c.hand,
                rank: 0,
                combos: c.combos,
                weight: 1,
                raw_index: c.raw_index,
                canon_index: c.raw_index,
            };
            kids.push(kid);
            mapping.push(p);
            proof {
                assert forall|q: int|
                    0 <= q < p + 1 implies ((!board@.contains(#[trigger] parent@[q].hand[0])
                    && !board@.contains(parent@[q].hand[1])) <==> (exists|i: int|
                    0 <= i < mapping@.len() && #[trigger] mapping@[i] == q)) by {
                    if q == p {
                        assert(mapping@[mapping@.len() - 1] == q);
                    } else {
                        if !board@.contains(parent@[q].hand[0]) && !board@.contains(
                            parent@[q].hand[1],
                        ) {
                            let i = choose|i: int|
                                0 <= i < map_before.len() && #[trigger] map_before[i] == q;
                            assert(mapping@[i] == q);
                        } else {
                            if exists|i: int|
                                0 <= i < mapping@.len() && #[trigger] mapping@[i] == q {
                                let i = choose|i: int|
                                    0 <= i < mapping@.len() && #[trigger] mapping@[i] == q;
                                assert(i < map_before.len());
                                assert(map_before[i] == q);
                            }
                        }
                    }
                }
            }
        } else {
            proof {
                assert forall|q: int|
                    0 <= q < p + 1 implies ((!board@.contains(#[trigger] parent@[q].hand[0])
                    && !board@.contains(parent@[q].hand[1])) <==> (exists|i: int|
                    0 <= i < mapping@.len() && #[trigger] mapping@[i] == q)) by {
                    if q == p {
                        assert(board@.contains(parent@[q].hand[0]) || board@.contains(
                            parent@[q].hand[1],
                        ));
                    }
                }
            }
        }
        p += 1;
    }
    proof {
        assert forall|q: int|
            0 <= q < parent@.len() implies ((!board@.contains(#[trigger] parent@[q].hand[0])
            && !board@.contains(parent@[q].hand[1])) <==> (exists|i: int|
            0 <= i < mapping@.len() && #[trigger] mapping@[i] == q)) by {
            if !board@.contains(parent@[q].hand[0]) && !board@.contains(parent@[q].hand[1]) {
                let i = choose|i: int| 0 <= i < mapping@.len() && #[trigger] mapping@[i] == q;
                assert(0 <= i < mapping@.len() && mapping@[i] == q);
            }
        }
        assert forall|i: int|
            0 <= i < kids@.len() implies #[trigger] entry_row_ok(
            kids@,
            mapping@,
            parent@,
            *board,
            i,
        ) && kids@[i].rank == 0 by {}
        assert forall|q: int|
            0 <= q < parent@.len() implies #[trigger] survivor_covered(
            mapping@,
            parent@,
            *board,
            q,
        ) by {}
        assert(turn_entry_ok(kids@, mapping@, parent@, *board));
    }
    (kids, mapping)
}

/// Stamps every combination with its showdown rank on a completed board.
fn assign_ranks(kids: &mut Vec<Combination>, board: &Board)
    requires
        forall|i: int| 0 <= i < 5 ==> #[trigger] board@[i] < 52,
        range_ok(old(kids)@),
    ensures
        final(kids)@.len() == old(kids)@.len(),
        forall|i: int|
            0 <= i < final(kids)@.len() ==> {
                let c = #[trigger] final(kids)@[i];
                let q = old(kids)@[i];
                c.hand == q.hand && c.combos == q.combos && c.weight == q.weight && c.raw_index
                    == q.raw_index && c.canon_index == q.canon_index
            },
        range_ok(final(kids)@),
{
    let n = kids.len();
    let mut i: usize = 0;
    while i < n
        invariant
            forall|k: int| 0 <= k < 5 ==> #[trigger] board@[k] < 52,
            n == kids@.len(),
            kids@.len() == old(kids)@.len(),
            i <= n,
            range_ok(old(kids)@),
            forall|k: int|
                0 <= k < n ==> {
                    let c = #[trigger] kids@[k];
                    let q = old(kids)@[k];
                    c.hand == q.hand && c.combos == q.combos && c.weight == q.weight
                        && c.raw_index == q.raw_index && c.canon_index == q.canon_index
                },
            range_ok(kids@),
        decreases n - i,
    {
        let c = kids[i];
        let rank = crate::evaluator::eval7(board, c.hand);
        let updated = Combination { rank, ..c };
        kids.set(i, updated);
        i += 1;
    }
}

} // verus!

verus! {

broadcast use vstd::std_specs::hash::group_hash_axioms;

/// The index table names a same-hand parent row for every child row.
pub open spec fn hands_match(
    child: Seq<Combination>,
    m: Seq<usize>,
    parent: Seq<Combination>,
) -> bool {
    &&& m.len() == child.len()
    &&& forall|i: int|
        0 <= i < child.len() ==> #[trigger] m[i] < parent.len() && parent[m[i] as int].hand
            == child[i].hand
}

/// A range sorted ascending by showdown rank.
pub open spec fn sorted_by_rank(r: Seq<Combination>) -> bool {
    forall|a: int, b: int| 0 <= a < b < r.len() ==> r[a].rank <= r[b].rank
}

/// The board with its turn slot dealt.
pub open spec fn with_turn(b: Board, t: u8) -> Board {
    [b[0], b[1], b[2], t, 52u8]
}

/// The board with its river slot dealt.
pub open spec fn with_river(b: Board, r: u8) -> Board {
    [b[0], b[1], b[2], b[3], r]
}

/// Row `i` of a child entry reads its named parent row: same hand,
/// same weight, the isomorphism marks reset, and no card on the board.
pub open spec fn entry_row_ok(
    child: Seq<Combination>,
    m: Seq<usize>,
    parent: Seq<Combination>,
    b: Board,
    i: int,
) -> bool {
    &&& m[i] < parent.len()
    &&& child[i].hand == parent[m[i] as int].hand
    &&& child[i].combos == parent[m[i] as int].combos
    &&& child[i].weight == 1
    &&& child[i].canon_index == child[i].raw_index
    &&& !b@.contains(child[i].hand[0])
    &&& !b@.contains(child[i].hand[1])
}

/// Parent row `p` survives the board's blockers exactly when some
/// child row names it.
pub open spec fn survivor_covered(
    m: Seq<usize>,
    parent: Seq<Combination>,
    b: Board,
    p: int,
) -> bool {
    (!b@.contains(parent[p].hand[0]) && !b@.contains(parent[p].hand[1])) <==> exists|i: int|
        0 <= i < m.len() && #[trigger] m[i] == p
}

/// A turn street's stored entry: the parent range with every hand the
/// board blocks removed, in parent order, weights carried over and the
/// isomorphism marks reset, the table naming each row's parent row.
pub open spec fn turn_entry_ok(
    child: Seq<Combination>,
    m: Seq<usize>,
    parent: Seq<Combination>,
    b: Board,
) -> bool {
    &&& m.len() == child.len()
    &&& forall|i: int|
        0 <= i < child.len() ==> #[trigger] entry_row_ok(child, m, parent, b, i) && child[i].rank
            == 0
    &&& forall|i: int, j: int| 0 <= i < j < m.len() ==> m[i] < m[j]
    &&& forall|p: int| 0 <= p < parent.len() ==> #[trigger] survivor_covered(m, parent, b, p)
}

/// A river's stored entry: the blocked hands removed, each row naming
/// its same-hand parent row, rank-stamped and sorted ascending, and
/// every surviving parent hand present.
pub open spec fn river_entry_ok(
    child: Seq<Combination>,
    m: Seq<usize>,
    parent: Seq<Combination>,
    b: Board,
) -> bool {
    &&& m.len() == child.len()
    &&& forall|i: int| 0 <= i < child.len() ==> #[trigger] entry_row_ok(child, m, parent, b, i)
    &&& sorted_by_rank(child)
    &&& forall|p: int| 0 <= p < parent.len() ==> #[trigger] survivor_covered(m, parent, b, p)
}

/// Builds one river board's entry from its parent range: filter the
/// blocked hands, stamp showdown ranks, and sort rows and table
/// together by rank.
#[verifier::rlimit(100)]
fn make_river_entry(parent: &Vec<Combination>, river_board: &Board) -> (out: (
    Vec<Combination>,
    Vec<usize>,
))
    requires
        range_ok(parent@),
        forall|i: int| 0 <= i < 5 ==> #[trigger] river_board@[i] < 52,
    ensures
        range_ok(out.0@),
        river_entry_ok(out.0@, out.1@, parent@, *river_board),
{
    let filtered = filter_unblocked(parent, river_board);
    let mut kids = filtered.0;
    let ghost mapping0 = filtered.1@;
    assign_ranks(&mut kids, river_board);
    let ghost kids1 = kids@;
    let sorted = sort_range_and_mapping(kids, filtered.1);
    proof {
        assert forall|i: int|
            0 <= i < sorted.0@.len() implies #[trigger] entry_row_ok(
            sorted.0@,
            sorted.1@,
            parent@,
            *river_board,
            i,
        ) by {
            assert(row_from(sorted.0@[i], sorted.1@[i], kids1, mapping0));
            let j = choose|j: int|
                0 <= j < kids1.len() && sorted.0@[i] == #[trigger] kids1[j] && sorted.1@[i]
                    == mapping0[j];
        }
        assert forall|p: int|
            0 <= p < parent@.len() implies #[trigger] survivor_covered(
            sorted.1@,
            parent@,
            *river_board,
            p,
        ) by {
            if !river_board@.contains(parent@[p].hand[0]) && !river_board@.contains(
                parent@[p].hand[1],
            ) {
                let j = choose|j: int| 0 <= j < mapping0.len() && #[trigger] mapping0[j] == p;
                assert(row_to(kids1[j], mapping0[j], sorted.0@, sorted.1@));
                let i = choose|i: int|
                    0 <= i < sorted.0@.len() && sorted.0@[i] == kids1[j] && sorted.1@[i]
                        == mapping0[j];
                assert(sorted.1@[i] == p);
            }
            if exists|i: int| 0 <= i < sorted.1@.len() && #[trigger] sorted.1@[i] == p {
                let i = choose|i: int| 0 <= i < sorted.1@.len() && #[trigger] sorted.1@[i] == p;
                assert(row_from(sorted.0@[i], sorted.1@[i], kids1, mapping0));
                let j = choose|j: int|
                    0 <= j < kids1.len() && sorted.0@[i] == #[trigger] kids1[j] && sorted.1@[i]
                        == mapping0[j];
                assert(mapping0[j] == p);
            }
        }
        assert(river_entry_ok(sorted.0@, sorted.1@, parent@, *river_board));
    }
    sorted
}

/// The range manager that keeps every physical hand separate/// The range manager that keeps every physical hand separate: each child
/// row reads exactly one parent row, and the parent rows of two child
/// rows differ.
pub struct DefaultRangeManager {
    pub starting_combinations: Vec<Combination>,
    pub ranges: HashMap<u64, Vec<Combination>>,
    pub reach_probs_mapping: HashMap<u64, Vec<usize>>,
}

impl DefaultRangeManager {
    /// Every stored range holds well-formed, pairwise distinct hands.
    pub open spec fn wf(self) -> bool {
        forall|k: u64| #[trigger] self.ranges@.contains_key(k) ==> range_ok(self.ranges@[k]@)
    }

    pub open spec fn has_range(self, b: Board) -> bool {
        self.ranges@.contains_key(spec_get_key(b) as u64)
    }

    pub open spec fn range_at(self, b: Board) -> Seq<Combination> {
        self.ranges@[spec_get_key(b) as u64]@
    }

    pub open spec fn has_mapping(self, b: Board) -> bool {
        self.reach_probs_mapping@.contains_key(spec_get_key(b) as u64)
    }

    pub open spec fn mapping_at(self, b: Board) -> Seq<usize> {
        self.reach_probs_mapping@[spec_get_key(b) as u64]@
    }

    fn add_range_for_board(&mut self, range: Vec<Combination>, board_key: u64)
        requires
            old(self).wf(),
            range_ok(range@),
        ensures
            final(self).wf(),
            final(self).ranges@ == old(self).ranges@.insert(board_key, range),
            final(self).reach_probs_mapping == old(self).reach_probs_mapping,
            final(self).starting_combinations == old(self).starting_combinations,
    {
        self.ranges.insert(board_key, range);
    }

    fn add_mapping_for_board(&mut self, mapping: Vec<usize>, board_key: u64)
        requires
            old(self).wf(),
        ensures
            final(self).wf(),
            final(self).reach_probs_mapping@ == old(self).reach_probs_mapping@.insert(
                board_key,
                mapping,
            ),
            final(self).ranges == old(self).ranges,
            final(self).starting_combinations == old(self).starting_combinations,
    {
        self.reach_probs_mapping.insert(board_key, mapping);
    }

    fn init_ranges_from_river(&mut self, initial_board: &Board)
        requires
            old(self).wf(),
            forall|i: int| 0 <= i < 5 ==> #[trigger] initial_board@[i] < 52,
            range_ok(old(self).starting_combinations@),
        ensures
            final(self).wf(),
            final(self).has_range(*initial_board),
            sorted_by_rank(final(self).range_at(*initial_board)),
            exists|m: Seq<usize>|
                river_entry_ok(
                    final(self).range_at(*initial_board),
                    m,
                    old(self).starting_combinations@,
                    *initial_board,
                ),
            final(self).starting_combinations == old(self).starting_combinations,
    {
        let key = get_key(initial_board);
        let entry = make_river_entry(&self.starting_combinations, initial_board);
        let ghost m = entry.1@;
        self.add_range_for_board(entry.0, key);
        proof {
            assert(river_entry_ok(
                self.range_at(*initial_board),
                m,
                old(self).starting_combinations@,
                *initial_board,
            ));
        }
    }

    /// Builds the manager for a game rooted at the given board: the
    /// root range is the starting range; every turn board reachable
    /// from a flop root stores the blocker-filtered starting range in
    /// order with its parent table; every river board stores the same,
    /// rank-stamped and sorted.
    pub fn new(starting_combinations: Vec<Combination>, initial_board: Board) -> (rm:
        DefaultRangeManager)
        requires
            range_ok(starting_combinations@),
            board_shape_ok(initial_board),
        ensures
            rm.wf(),
            rm.has_range(initial_board),
            rm.starting_combinations@ == starting_combinations@,
            initial_board[4] == 52 ==> rm.range_at(initial_board) == starting_combinations@,
            initial_board[4] != 52 ==> sorted_by_rank(rm.range_at(initial_board)),
            initial_board[4] != 52 ==> exists|m: Seq<usize>|
                river_entry_ok(
                    rm.range_at(initial_board),
                    m,
                    starting_combinations@,
                    initial_board,
                ),
            initial_board[3] != 52 && initial_board[4] == 52 ==> forall|rc: u8|
                rc < 52 && !initial_board@.contains(rc) ==> {
                    let rb = with_river(initial_board, rc);
                    &&& rm.has_range(rb)
                    &&& rm.has_mapping(rb)
                    &&& river_entry_ok(
                        rm.range_at(rb),
                        rm.mapping_at(rb),
                        starting_combinations@,
                        rb,
                    )
                },
            initial_board[3] == 52 ==> forall|tc: u8|
                tc < 52 && !initial_board@.contains(tc) ==> {
                    let tb = with_turn(initial_board, tc);
                    &&& rm.has_range(tb)
                    &&& rm.has_mapping(tb)
                    &&& turn_entry_ok(
                        rm.range_at(tb),
                        rm.mapping_at(tb),
                        starting_combinations@,
                        tb,
                    )
                },
            initial_board[3] == 52 ==> forall|tc: u8, rc: u8|
                tc < 52 && !initial_board@.contains(tc) && rc < 52 && rc != tc
                    && !initial_board@.contains(rc) ==> {
                    let tb = with_turn(initial_board, tc);
                    let rb = with_river(tb, rc);
                    &&& rm.has_range(rb)
                    &&& rm.has_mapping(rb)
                    &&& river_entry_ok(
                        rm.range_at(rb),
                        rm.mapping_at(rb),
                        rm.range_at(tb),
                        rb,
                    )
                },
    {
        let mut rm = DefaultRangeManager {
            starting_combinations,
            ranges: HashMap::new(),
            reach_probs_mapping: HashMap::new(),
        };
        let root_key = get_key(&initial_board);
        let mut root_copy: Vec<Combination> = Vec::new();
        let mut i: usize = 0;
        while i < rm.starting_combinations.len()
            invariant
                range_ok(rm.starting_combinations@),
                i <= rm.starting_combinations@.len(),
                root_copy@.len() == i,
                forall|k: int| 0 <= k < i ==> #[trigger] root_copy@[k] == rm.starting_combinations@[k],
            decreases rm.starting_combinations@.len() - i,
        {
            root_copy.push(rm.starting_combinations[i]);
            i += 1;
        }
        proof {
            assert(root_copy@ =~= rm.starting_combinations@);
        }
        rm.add_range_for_board(root_copy, root_key);
        if !crate::cards::board_has_turn(&initial_board) {
            rm.init_ranges_from_flop(&initial_board);
        } else if !crate::cards::board_has_river(&initial_board) {
            rm.init_ranges_from_turn(&initial_board);
        } else {
            rm.init_ranges_from_river(&initial_board);
        }
        rm
    }

    fn init_ranges_from_turn(&mut self, initial_board: &Board)
        requires
            old(self).wf(),
            crate::isomorphism::board_wf(*initial_board),
            initial_board@[3] != 52,
            initial_board@[4] == 52,
            forall|i: int| 0 <= i < 4 ==> #[trigger] initial_board@[i] < 52,
            range_ok(old(self).starting_combinations@),
            old(self).has_range(*initial_board),
        ensures
            final(self).wf(),
            final(self).has_range(*initial_board),
            final(self).range_at(*initial_board) == old(self).range_at(*initial_board),
            forall|rcard: u8|
                rcard < 52 && !initial_board@.contains(rcard) ==> {
                    let rb = with_river(*initial_board, rcard);
                    &&& final(self).has_range(rb)
                    &&& final(self).has_mapping(rb)
                    &&& river_entry_ok(
                        final(self).range_at(rb),
                        final(self).mapping_at(rb),
                        old(self).starting_combinations@,
                        rb,
                    )
                },
            final(self).starting_combinations == old(self).starting_combinations,
    {
        let ghost root_key = spec_get_key(*initial_board) as u64;
        let mut river: u8 = 0;
        while river < 52
            invariant
                self.wf(),
                crate::isomorphism::board_wf(*initial_board),
                initial_board@[3] != 52,
                initial_board@[4] == 52,
                forall|i: int| 0 <= i < 4 ==> #[trigger] initial_board@[i] < 52,
                range_ok(self.starting_combinations@),
                root_key as int == spec_get_key(*initial_board),
                self.ranges@.contains_key(root_key),
                self.ranges@[root_key] == old(self).ranges@[root_key],
                forall|rc: u8|
                    rc < river && !initial_board@.contains(rc) ==> {
                        let rb = with_river(*initial_board, rc);
                        &&& self.has_range(rb)
                        &&& self.has_mapping(rb)
                        &&& river_entry_ok(
                            self.range_at(rb),
                            self.mapping_at(rb),
                            old(self).starting_combinations@,
                            rb,
                        )
                    },
                self.starting_combinations == old(self).starting_combinations,
            decreases 52 - river,
        {
            if !crate::cards::check_card_overlap(river, initial_board) {
                let river_board: Board = [
                    initial_board[0],
                    initial_board[1],
                    initial_board[2],
                    initial_board[3],
                    river,
                ];
                let river_key = get_key(&river_board);
                proof {
                    assert(spec_get_key(river_board) != spec_get_key(*initial_board));
                    assert(0 <= spec_get_key(*initial_board) < 0x1_0000_0000_0000_0000);
                    assert(root_key == spec_get_key(*initial_board));
                    assert(river_key != root_key);
                    assert(river_board == with_river(*initial_board, river));
                    assert forall|rc: u8|
                        rc < 52 && !initial_board@.contains(rc) && rc != river implies spec_get_key(
                        with_river(*initial_board, rc),
                    ) != spec_get_key(river_board) by {
                        assert(with_river(*initial_board, rc)[4] == rc);
                    }
                }
                let entry = make_river_entry(&self.starting_combinations, &river_board);
                self.add_mapping_for_board(entry.1, river_key);
                self.add_range_for_board(entry.0, river_key);
                proof {
                    assert(self.has_range(river_board) && self.has_mapping(river_board));
                    assert forall|rc: u8|
                        rc < river + 1 && !initial_board@.contains(rc) implies {
                        let rb = with_river(*initial_board, rc);
                        &&& self.has_range(rb)
                        &&& self.has_mapping(rb)
                        &&& river_entry_ok(
                            self.range_at(rb),
                            self.mapping_at(rb),
                            old(self).starting_combinations@,
                            rb,
                        )
                    } by {
                        if rc != river {
                            assert(spec_get_key(with_river(*initial_board, rc)) != spec_get_key(
                                river_board,
                            ));
                            assert(0 <= spec_get_key(with_river(*initial_board, rc))
                                < 0x1_0000_0000_0000_0000);
                        }
                    }
                }
            }
            river += 1;
        }
    }

    fn init_ranges_from_flop(&mut self, initial_board: &Board)
        requires
            old(self).wf(),
            crate::isomorphism::board_wf(*initial_board),
            initial_board@[3] == 52,
            initial_board@[4] == 52,
            forall|i: int| 0 <= i < 3 ==> #[trigger] initial_board@[i] < 52,
            range_ok(old(self).starting_combinations@),
            old(self).has_range(*initial_board),
        ensures
            final(self).wf(),
            final(self).has_range(*initial_board),
            final(self).range_at(*initial_board) == old(self).range_at(*initial_board),
            forall|tc: u8|
                tc < 52 && !initial_board@.contains(tc) ==> {
                    let tb = with_turn(*initial_board, tc);
                    &&& final(self).has_range(tb)
                    &&& final(self).has_mapping(tb)
                    &&& turn_entry_ok(
                        final(self).range_at(tb),
                        final(self).mapping_at(tb),
                        old(self).starting_combinations@,
                        tb,
                    )
                },
            forall|tc: u8, rc: u8|
                tc < 52 && !initial_board@.contains(tc) && rc < 52 && rc != tc
                    && !initial_board@.contains(rc) ==> {
                    let tb = with_turn(*initial_board, tc);
                    let rb = with_river(tb, rc);
                    &&& final(self).has_range(rb)
                    &&& final(self).has_mapping(rb)
                    &&& river_entry_ok(
                        final(self).range_at(rb),
                        final(self).mapping_at(rb),
                        final(self).range_at(tb),
                        rb,
                    )
                },
            final(self).starting_combinations == old(self).starting_combinations,
    {
        let ghost root_key = spec_get_key(*initial_board) as u64;
        let mut turn: u8 = 0;
        while turn < 52
            invariant
                self.wf(),
                crate::isomorphism::board_wf(*initial_board),
                initial_board@[3] == 52,
                initial_board@[4] == 52,
                forall|i: int| 0 <= i < 3 ==> #[trigger] initial_board@[i] < 52,
                range_ok(self.starting_combinations@),
                root_key as int == spec_get_key(*initial_board),
                self.ranges@.contains_key(root_key),
                self.ranges@[root_key] == old(self).ranges@[root_key],
                forall|tc: u8|
                    tc < turn && !initial_board@.contains(tc) ==> {
                        let tb = with_turn(*initial_board, tc);
                        &&& self.has_range(tb)
                        &&& self.has_mapping(tb)
                        &&& turn_entry_ok(
                            self.range_at(tb),
                            self.mapping_at(tb),
                            old(self).starting_combinations@,
                            tb,
                        )
                    },
                forall|tc: u8, rc: u8|
                    tc < turn && !initial_board@.contains(tc) && rc < 52 && rc != tc
                        && !initial_board@.contains(rc) ==> {
                        let tb = with_turn(*initial_board, tc);
                        let rb = with_river(tb, rc);
                        &&& self.has_range(rb)
                        &&& self.has_mapping(rb)
                        &&& river_entry_ok(
                            self.range_at(rb),
                            self.mapping_at(rb),
                            self.range_at(tb),
                            rb,
                        )
                    },
                self.starting_combinations == old(self).starting_combinations,
            decreases 52 - turn,
        {
            if !crate::cards::check_card_overlap(turn, initial_board) {
                let turn_board: Board = [
                    initial_board[0],
                    initial_board[1],
                    initial_board[2],
                    turn,
                    52,
                ];
                let turn_key = get_key(&turn_board);
                proof {
                    assert(turn_board == with_turn(*initial_board, turn));
                    assert(spec_get_key(turn_board) != spec_get_key(*initial_board));
                    assert(0 <= spec_get_key(*initial_board) < 0x1_0000_0000_0000_0000);
                    assert(root_key == spec_get_key(*initial_board));
                    assert(turn_key != root_key);
                }
                let filtered = filter_unblocked(&self.starting_combinations, &turn_board);
                let turn_hands = filtered.0;
                let turn_mapping = filtered.1;
                let mut river: u8 = 0;
                while river < 52
                    invariant
                        self.wf(),
                        crate::isomorphism::board_wf(*initial_board),
                        initial_board@[3] == 52,
                        initial_board@[4] == 52,
                        forall|i: int| 0 <= i < 3 ==> #[trigger] initial_board@[i] < 52,
                        turn < 52,
                        !initial_board@.contains(turn),
                        turn_board == with_turn(*initial_board, turn),
                        range_ok(self.starting_combinations@),
                        range_ok(turn_hands@),
                        turn_entry_ok(
                            turn_hands@,
                            turn_mapping@,
                            self.starting_combinations@,
                            turn_board,
                        ),
                        root_key as int == spec_get_key(*initial_board),
                        self.ranges@.contains_key(root_key),
                        self.ranges@[root_key] == old(self).ranges@[root_key],
                        forall|tc: u8|
                            tc < turn && !initial_board@.contains(tc) ==> {
                                let tb = with_turn(*initial_board, tc);
                                &&& self.has_range(tb)
                                &&& self.has_mapping(tb)
                                &&& turn_entry_ok(
                                    self.range_at(tb),
                                    self.mapping_at(tb),
                                    old(self).starting_combinations@,
                                    tb,
                                )
                            },
                        forall|tc: u8, rc: u8|
                            tc < turn && !initial_board@.contains(tc) && rc < 52 && rc != tc
                                && !initial_board@.contains(rc) ==> {
                                let tb = with_turn(*initial_board, tc);
                                let rb = with_river(tb, rc);
                                &&& self.has_range(rb)
                                &&& self.has_mapping(rb)
                                &&& river_entry_ok(
                                    self.range_at(rb),
                                    self.mapping_at(rb),
                                    self.range_at(tb),
                                    rb,
                                )
                            },
                        forall|rc: u8|
                            rc < river && rc != turn && !initial_board@.contains(rc) ==> {
                                let rb = with_river(turn_board, rc);
                                &&& self.has_range(rb)
                                &&& self.has_mapping(rb)
                                &&& river_entry_ok(
                                    self.range_at(rb),
                                    self.mapping_at(rb),
                                    turn_hands@,
                                    rb,
                                )
                            },
                        self.starting_combinations == old(self).starting_combinations,
                    decreases 52 - river,
                {
                    if !crate::cards::check_card_overlap(river, &turn_board) {
                        let river_board: Board = [
                            initial_board[0],
                            initial_board[1],
                            initial_board[2],
                            turn,
                            river,
                        ];
                        let river_key = get_key(&river_board);
                        proof {
                            assert(river_board == with_river(turn_board, river));
                            assert(spec_get_key(river_board) != spec_get_key(*initial_board));
                            assert(root_key == spec_get_key(*initial_board));
                            assert(river_key != root_key);
                            // Other boards keep their entries: their keys
                            // differ from this river board's.
                            assert forall|tc: u8|
                                tc < 52 && !initial_board@.contains(tc) implies spec_get_key(
                                with_turn(*initial_board, tc),
                            ) != spec_get_key(river_board) by {
                                assert(with_turn(*initial_board, tc)[3] == tc);
                            }
                            assert forall|tc: u8, rc: u8|
                                tc < 52 && rc < 52 && !(tc == turn && rc == river) implies
                                spec_get_key(with_river(with_turn(*initial_board, tc), rc))
                                != spec_get_key(river_board) by {
                                assert(with_river(with_turn(*initial_board, tc), rc)[3] == tc);
                                assert(with_river(with_turn(*initial_board, tc), rc)[4] == rc);
                            }
                        }
                        let entry = make_river_entry(&turn_hands, &river_board);
                        self.add_mapping_for_board(entry.1, river_key);
                        self.add_range_for_board(entry.0, river_key);
                    }
                    river += 1;
                }
                proof {
                    // The turn entry's own key differs from every river
                    // key and from earlier turn keys.
                    assert forall|tc: u8, rc: u8|
                        tc < 52 && rc < 52 implies spec_get_key(
                        with_river(with_turn(*initial_board, tc), rc),
                    ) != spec_get_key(turn_board) by {
                        assert(with_river(with_turn(*initial_board, tc), rc)[4] == rc);
                        assert(with_river(with_turn(*initial_board, tc), rc)[3] == tc);
                    }
                    assert forall|tc: u8|
                        tc < 52 && tc != turn implies spec_get_key(with_turn(*initial_board, tc))
                        != spec_get_key(turn_board) by {
                        assert(with_turn(*initial_board, tc)[3] == tc);
                    }
                }
                self.add_mapping_for_board(turn_mapping, turn_key);
                self.add_range_for_board(turn_hands, turn_key);
                proof {
                    assert(self.range_at(turn_board) == self.ranges@[turn_key]@);
                    assert forall|rc: u8|
                        rc < 52 && rc != turn && !initial_board@.contains(rc) implies {
                        let rb = with_river(turn_board, rc);
                        &&& self.has_range(rb)
                        &&& self.has_mapping(rb)
                        &&& river_entry_ok(
                            self.range_at(rb),
                            self.mapping_at(rb),
                            self.range_at(turn_board),
                            rb,
                        )
                    } by {
                        let rb = with_river(turn_board, rc);
                        assert(spec_get_key(rb) != spec_get_key(turn_board)) by {
                            assert(rb[4] == rc);
                        }
                        assert(0 <= spec_get_key(rb) < 0x1_0000_0000_0000_0000);
                    }
                }
            }
            turn += 1;
        }
    }

    /// Leaves utilities untouched: without isomorphism there are no
    /// aliases to merge.
    pub fn merge_canonical_utilities(&self, _board: &Board, utility: &mut Vec<i64>)
        ensures
            final(utility)@ == old(utility)@,
    {
    }

    /// Accumulates child-street utilities into the parent rows the
    /// child board's table names.
    pub fn map_utility_backwards(
        &self,
        new_board: &Board,
        utility: &Vec<i64>,
        mapped_utility: &mut Vec<i64>,
    )
        requires
            crate::isomorphism::board_wf(*new_board),
            self.has_mapping(*new_board),
            utility@.len() == self.mapping_at(*new_board).len(),
            self.mapping_at(*new_board).len() <= 0x10000,
            forall|i: int|
                0 <= i < self.mapping_at(*new_board).len() ==> #[trigger] self.mapping_at(
                    *new_board,
                )[i] < old(mapped_utility)@.len(),
            forall|i: int|
                0 <= i < old(mapped_utility)@.len() ==> -UTIL_BOUND <= #[trigger] old(
                    mapped_utility,
                )@[i] <= UTIL_BOUND,
            forall|i: int|
                0 <= i < utility@.len() ==> -UTIL_BOUND <= #[trigger] utility@[i] <= UTIL_BOUND,
        ensures
            final(mapped_utility)@ == scatter_add(
                old(mapped_utility)@,
                self.mapping_at(*new_board),
                utility@,
                utility@.len() as int,
            ),
            final(mapped_utility)@.len() == old(mapped_utility)@.len(),
    {
        let key = get_key(new_board);
        let map = self.reach_probs_mapping.get(&key).unwrap();
        proof {
            assert(map@ == self.mapping_at(*new_board));
        }
        apply_scatter_add(mapped_utility, map, utility);
    }

    /// Reads the parent street's per-hand values into child order.
    pub fn get_next_reach_probs(&self, new_board: &Board, opp_reach_probs: &Vec<i64>) -> (out: Vec<
        i64,
    >)
        requires
            crate::isomorphism::board_wf(*new_board),
            self.has_mapping(*new_board),
            forall|i: int|
                0 <= i < self.mapping_at(*new_board).len() ==> #[trigger] self.mapping_at(
                    *new_board,
                )[i] < opp_reach_probs@.len(),
        ensures
            out@ == gathered(opp_reach_probs@, self.mapping_at(*new_board)),
    {
        let key = get_key(new_board);
        let map = self.reach_probs_mapping.get(&key).unwrap();
        proof {
            assert(map@ == self.mapping_at(*new_board));
        }
        apply_gather(opp_reach_probs, map)
    }

    /// Whether a range is stored for the board.
    pub fn has_range_for_board(&self, board: &Board) -> (b: bool)
        requires
            crate::isomorphism::board_wf(*board),
        ensures
            b == self.has_range(*board),
    {
        let key = get_key(board);
        self.ranges.contains_key(&key)
    }

    /// The range stored for a board.
    pub fn get_range_for_board(&self, board: &Board) -> (out: &Vec<Combination>)
        requires
            crate::isomorphism::board_wf(*board),
            self.has_range(*board),
        ensures
            out@ == self.range_at(*board),
    {
        let key = get_key(board);
        self.ranges.get(&key).unwrap()
    }

    /// The index table stored for a board.
    pub fn get_reach_probs_mapping(&self, board: &Board) -> (out: &Vec<usize>)
        requires
            crate::isomorphism::board_wf(*board),
            self.has_mapping(*board),
        ensures
            out@ == self.mapping_at(*board),
    {
        let key = get_key(board);
        self.reach_probs_mapping.get(&key).unwrap()
    }

    /// A copy of the range the manager was seeded with.
    pub fn get_starting_combinations(&self) -> (out: Vec<Combination>)
        ensures
            out@ == self.starting_combinations@,
    {
        let mut out: Vec<Combination> = Vec::new();
        let mut i: usize = 0;
        while i < self.starting_combinations.len()
            invariant
                i <= self.starting_combinations@.len(),
                out@.len() == i,
                forall|k: int| 0 <= k < i ==> #[trigger] out@[k] == self.starting_combinations@[k],
            decreases self.starting_combinations@.len() - i,
        {
            out.push(self.starting_combinations[i]);
            i += 1;
        }
        proof {
            assert(out@ =~= self.starting_combinations@);
        }
        out
    }
}

/// A source row appears somewhere in the output, intact.
pub open spec fn row_to(
    c: Combination,
    mi: usize,
    out_k: Seq<Combination>,
    out_m: Seq<usize>,
) -> bool {
    exists|i: int| 0 <= i < out_k.len() && out_k[i] == c && out_m[i] == mi
}

/// One output row carries a source row intact: the combination and its
/// parent index stay together.
pub open spec fn row_from(
    c: Combination,
    m: usize,
    kids: Seq<Combination>,
    mapping: Seq<usize>,
) -> bool {
    exists|j: int| 0 <= j < kids.len() && c == #[trigger] kids[j] && m == mapping[j]
}

/// Sorts a range and its parent table together by rank, keeping each
/// row paired with its parent index.
fn sort_range_and_mapping(kids: Vec<Combination>, mapping: Vec<usize>) -> (out: (
    Vec<Combination>,
    Vec<usize>,
))
    requires
        kids@.len() == mapping@.len(),
        range_ok(kids@),
    ensures
        out.0@.len() == kids@.len(),
        out.1@.len() == kids@.len(),
        range_ok(out.0@),
        sorted_by_rank(out.0@),
        forall|i: int|
            0 <= i < out.0@.len() ==> #[trigger] row_from(out.0@[i], out.1@[i], kids@, mapping@),
        forall|j: int|
            0 <= j < kids@.len() ==> #[trigger] row_to(kids@[j], mapping@[j], out.0@, out.1@),
{
    broadcast use vstd::seq_lib::to_multiset_contains;

    let n = kids.len();
    let mut pairs: Vec<(Combination, usize)> = Vec::new();
    let mut i: usize = 0;
    while i < n
        invariant
            n == kids@.len(),
            mapping@.len() == n,
            i <= n,
            pairs@.len() == i,
            forall|k: int|
                0 <= k < i ==> #[trigger] pairs@[k] == (kids@[k], mapping@[k] as usize),
        decreases n - i,
    {
        pairs.push((kids[i], mapping[i]));
        i += 1;
    }
    let ghost before = pairs@;
    crate::combination::sort_pairs_by_rank(&mut pairs);
    let mut out_kids: Vec<Combination> = Vec::new();
    let mut out_map: Vec<usize> = Vec::new();
    let mut j: usize = 0;
    while j < pairs.len()
        invariant
            pairs@.len() == n,
            n == kids@.len(),
            mapping@.len() == n,
            pairs@.to_multiset() == before.to_multiset(),
            forall|k: int| 0 <= k < n ==> #[trigger] before[k] == (kids@[k], mapping@[k] as usize),
            forall|a: int, b: int| 0 <= a < b < n ==> pairs@[a].0.rank <= pairs@[b].0.rank,
            j <= n,
            out_kids@.len() == j,
            out_map@.len() == j,
            forall|k: int| 0 <= k < j ==> #[trigger] out_kids@[k] == pairs@[k].0,
            forall|k: int| 0 <= k < j ==> #[trigger] out_map@[k] == pairs@[k].1,
        decreases pairs@.len() - j,
    {
        let pr = pairs[j];
        out_kids.push(pr.0);
        out_map.push(pr.1);
        j += 1;
    }
    proof {
        assert forall|i2: int|
            0 <= i2 < out_kids@.len() implies #[trigger] row_from(
            out_kids@[i2],
            out_map@[i2],
            kids@,
            mapping@,
        ) by {
            let pr = pairs@[i2];
            assert(pairs@.to_multiset().contains(pr));
            assert(before.contains(pr));
            let j2 = choose|j2: int| 0 <= j2 < before.len() && before[j2] == pr;
            assert(before[j2] == (kids@[j2], mapping@[j2] as usize));
            assert(out_kids@[i2] == kids@[j2] && out_map@[i2] == mapping@[j2]);
        }
        assert forall|a: int, b: int|
            0 <= a < b < out_kids@.len() implies out_kids@[a].rank <= out_kids@[b].rank by {
            assert(out_kids@[a] == pairs@[a].0);
        }
        assert forall|i2: int| 0 <= i2 < out_kids@.len() implies (#[trigger] out_kids@[i2]).wf() by {
            assert(row_from(out_kids@[i2], out_map@[i2], kids@, mapping@));
            let j2 = choose|j2: int|
                0 <= j2 < kids@.len() && out_kids@[i2] == #[trigger] kids@[j2] && out_map@[i2]
                    == mapping@[j2];
        }
        assert forall|a: int, b: int|
            0 <= a < b < out_kids@.len() implies out_kids@[a].raw_index != out_kids@[b].raw_index
        by {
            let pa = pairs@[a];
            let pb = pairs@[b];
            assert(out_kids@[a] == pa.0 && out_kids@[b] == pb.0);
            lemma_distinct_pairs(before, pairs@, kids@, mapping@, a, b);
        }
        assert forall|j2: int|
            0 <= j2 < kids@.len() implies #[trigger] row_to(
            kids@[j2],
            mapping@[j2],
            out_kids@,
            out_map@,
        ) by {
            let pr = before[j2];
            assert(before.contains(pr));
            assert(pairs@.to_multiset().contains(pr));
            assert(pairs@.contains(pr));
            let i2 = choose|i2: int| 0 <= i2 < pairs@.len() && pairs@[i2] == pr;
            assert(out_kids@[i2] == pr.0 && out_map@[i2] == pr.1);
            assert(out_kids@[i2] == kids@[j2] && out_map@[i2] == mapping@[j2]);
        }
    }
    (out_kids, out_map)
}

/// Two distinct positions of the sorted pair list came from distinct
/// source rows, so their pair indexes differ.
proof fn lemma_distinct_pairs(
    before: Seq<(Combination, usize)>,
    after: Seq<(Combination, usize)>,
    kids: Seq<Combination>,
    mapping: Seq<usize>,
    a: int,
    b: int,
)
    requires
        range_ok(kids),
        kids.len() == mapping.len(),
        before.len() == kids.len(),
        after.len() == before.len(),
        after.to_multiset() == before.to_multiset(),
        forall|k: int| 0 <= k < kids.len() ==> #[trigger] before[k] == (kids[k], mapping[k] as usize),
        0 <= a < b < after.len(),
    ensures
        after[a].0.raw_index != after[b].0.raw_index,
{
    broadcast use vstd::seq_lib::to_multiset_contains;
    broadcast use vstd::seq_lib::group_to_multiset_ensures;

    let pa = after[a];
    let pb = after[b];
    assert(after.to_multiset().contains(pa));
    assert(before.contains(pa));
    let ja = choose|j: int| 0 <= j < before.len() && before[j] == pa;
    if pa == pb {
        // Two copies of one pair would need two source rows with the
        // same parent index, which distinct rows cannot supply.
        lemma_dup_in_multiset(after, a, b);
        assert(before.to_multiset().count(pa) >= 2);
        lemma_count_two_positions(before, pa);
        let (j1, j2) = choose|j1: int, j2: int|
            0 <= j1 < j2 < before.len() && before[j1] == pa && before[j2] == pa;
        assert(kids[j1].raw_index != kids[j2].raw_index);
        assert(false);
    } else {
        assert(after.contains(pb));
        assert(after.to_multiset().count(pb) > 0);
        assert(before.contains(pb));
        let jb = choose|j: int| 0 <= j < before.len() && before[j] == pb;
        assert(before[ja] == pa && before[jb] == pb);
        assert(ja != jb);
        assert(pa.0.raw_index == kids[ja].raw_index);
        assert(pb.0.raw_index == kids[jb].raw_index);
    }
}

proof fn lemma_dup_in_multiset<A>(s: Seq<A>, a: int, b: int)
    requires
        0 <= a < b < s.len(),
        s[a] == s[b],
    ensures
        s.to_multiset().count(s[a]) >= 2,
{
    broadcast use vstd::seq_lib::group_to_multiset_ensures;
    broadcast use vstd::seq_lib::to_multiset_remove;
    broadcast use vstd::seq_lib::to_multiset_contains;
    broadcast use vstd::multiset::group_multiset_axioms;

    let x = s[a];
    let s1 = s.remove(b);
    assert(s1[a] == x);
    assert(s1.contains(x));
    assert(s1.to_multiset().count(x) >= 1);
    assert(s.to_multiset() == s1.to_multiset().insert(s[b]));
    assert(s.to_multiset().count(x) == s1.to_multiset().count(x) + 1);
}

proof fn lemma_count_two_positions<A>(s: Seq<A>, x: A)
    requires
        s.to_multiset().count(x) >= 2,
    ensures
        exists|j1: int, j2: int| 0 <= j1 < j2 < s.len() && s[j1] == x && s[j2] == x,
    decreases s.len(),
{
    broadcast use vstd::seq_lib::group_to_multiset_ensures;
    broadcast use vstd::seq_lib::to_multiset_remove;
    broadcast use vstd::seq_lib::to_multiset_contains;
    broadcast use vstd::multiset::group_multiset_axioms;

    assert(s.to_multiset().count(x) > 0);
    assert(s.contains(x));
    let j2 = choose|j: int| 0 <= j < s.len() && s[j] == x;
    let s1 = s.remove(j2);
    assert(s.to_multiset() == s1.to_multiset().insert(x)) by {
        assert(s.remove(j2).to_multiset() == s.to_multiset().remove(s[j2]));
        assert(s.to_multiset().contains(x));
        assert(s1.to_multiset().insert(x) =~= s.to_multiset());
    }
    assert(s1.to_multiset().count(x) >= 1);
    assert(s1.contains(x));
    let j1 = choose|j: int| 0 <= j < s1.len() && s1[j] == x;
    if j1 < j2 {
        assert(s[j1] == x);
    } else {
        assert(s[j1 + 1] == x);
        assert(s[j2] == x);
    }
}

} // verus!

verus! {


/// The canonical key of a hand under the board's suit groups: the
/// least pair index reachable by a group-respecting suit permutation
/// (what `iso_hand_key` computes).
pub open spec fn spec_is_iso_key(groups: Seq<u8>, h: crate::cards::Hand, k: u64) -> bool {
    &&& exists|p: Seq<u8>|
        crate::isomorphism::is_valid_perm(groups, p) && k == crate::isomorphism::perm_key(p, h)
    &&& forall|p: Seq<u8>|
        crate::isomorphism::is_valid_perm(groups, p) ==> k <= crate::isomorphism::perm_key(p, h)
}

/// How many of the first `n` keys equal `k`.
pub open spec fn key_count(keys: Seq<u64>, k: u64, n: int) -> int
    decreases n,
{
    if n <= 0 {
        0int
    } else {
        key_count(keys, k, n - 1) + (if keys[n - 1] == k {
            1int
        } else {
            0int
        })
    }
}

/// The range is bucketed by canonical keys: a row is a representative
/// exactly when its key has not appeared before; a representative
/// counts its bucket (capped at the weight type's maximum); an alias
/// names an earlier representative of its own bucket.
pub open spec fn canon_buckets_ok(r: Seq<Combination>, groups: Seq<u8>, keys: Seq<u64>) -> bool {
    &&& keys.len() == r.len()
    &&& forall|i: int|
        0 <= i < r.len() ==> spec_is_iso_key(groups, (#[trigger] r[i]).hand, keys[i])
    &&& forall|i: int|
        0 <= i < r.len() ==> ((#[trigger] r[i]).weight != 0 <==> (forall|j: int|
            0 <= j < i ==> keys[j] != keys[i]))
    &&& forall|i: int|
        0 <= i < r.len() && (#[trigger] r[i]).weight != 0 ==> {
            let cnt = key_count(keys, keys[i], r.len() as int);
            r[i].weight == (if cnt <= 127 {
                cnt
            } else {
                127int
            })
        }
    &&& forall|i: int|
        0 <= i < r.len() && (#[trigger] r[i]).weight == 0 ==> exists|j: int|
            0 <= j < i && r[j].weight != 0 && keys[j] == keys[i] && r[j].raw_index
                == r[i].canon_index
}

proof fn lemma_key_count_push(keys: Seq<u64>, x: u64, k: u64, n: int)
    requires
        0 <= n <= keys.len(),
    ensures
        key_count(keys.push(x), k, n) == key_count(keys, k, n),
    decreases n,
{
    if n > 0 {
        lemma_key_count_push(keys, x, k, n - 1);
    }
}

proof fn lemma_key_count_bound(keys: Seq<u64>, k: u64, n: int)
    ensures
        0 <= key_count(keys, k, n) <= (if n >= 0 {
            n
        } else {
            0int
        }),
    decreases n,
{
    if n > 0 {
        lemma_key_count_bound(keys, k, n - 1);
    }
}

/// Canonical marks are consistent: a representative points at itself and
/// an alias points at some representative in the same range.
pub open spec fn canon_marks_ok(r: Seq<Combination>) -> bool {
    forall|i: int|
        0 <= i < r.len() ==> (((#[trigger] r[i]).weight != 0 ==> r[i].canon_index
            == r[i].raw_index) && (r[i].weight == 0 ==> exists|j: int|
            0 <= j < r.len() && (#[trigger] r[j]).weight != 0 && r[j].raw_index
                == r[i].canon_index))
}

/// The per-board bucket table: every hand's pair index leads to the row
/// of its bucket representative.
pub open spec fn canon_table_ok(r: Seq<Combination>, m: Seq<usize>) -> bool {
    &&& m.len() == 2703
    &&& forall|i: int|
        0 <= i < r.len() ==> {
            let c = #[trigger] r[i];
            &&& c.raw_index < 2703
            &&& c.canon_index < 2703
            &&& m[c.raw_index as int] < r.len()
            &&& m[c.canon_index as int] < r.len()
            &&& m[c.raw_index as int] == m[c.canon_index as int]
            &&& (c.weight != 0 ==> c.canon_index == c.raw_index && m[c.raw_index as int] == i)
            &&& (c.weight == 0 ==> {
                let rep = r[m[c.canon_index as int] as int];
                rep.weight != 0 && rep.raw_index == c.canon_index
            })
        }
}

/// The capped bucket weight for a count.
pub open spec fn sat_weight(cnt: int) -> int {
    if cnt <= 127 {
        cnt
    } else {
        127int
    }
}

/// One alias step preserves the bucket structure: the new row is an
/// alias of the representative at `pos`, whose count grows by one.
proof fn lemma_bucket_step_alias(
    r0: Seq<Combination>,
    r1: Seq<Combination>,
    keys0: Seq<u64>,
    keys: Seq<u64>,
    i: int,
    pos: int,
)
    requires
        keys0.len() == i,
        keys == keys0.push(keys0[pos]),
        0 <= pos < i < r0.len(),
        r1.len() == r0.len(),
        r1[i].weight == 0,
        r1[i].canon_index == r0[pos].raw_index,
        r1[pos].raw_index == r0[pos].raw_index,
        r1[pos].weight as int == sat_weight(r0[pos].weight + 1),
        forall|k: int| 0 <= k < r0.len() && k != i && k != pos ==> r1[k] == r0[k],
        r0[pos].weight > 0,
        forall|k: int|
            0 <= k < i ==> ((#[trigger] r0[k]).weight != 0 <==> (forall|j: int|
                0 <= j < k ==> keys0[j] != keys0[k])),
        forall|k: int|
            0 <= k < i && (#[trigger] r0[k]).weight != 0 ==> r0[k].weight as int == sat_weight(
                key_count(keys0, keys0[k], i),
            ),
        forall|k: int|
            0 <= k < i && (#[trigger] r0[k]).weight == 0 ==> exists|j: int|
                0 <= j < k && r0[j].weight != 0 && keys0[j] == keys0[k] && r0[j].raw_index
                    == r0[k].canon_index,
    ensures
        forall|k: int|
            0 <= k < i + 1 ==> ((#[trigger] r1[k]).weight != 0 <==> (forall|j: int|
                0 <= j < k ==> keys[j] != keys[k])),
        forall|k: int|
            0 <= k < i + 1 && (#[trigger] r1[k]).weight != 0 ==> r1[k].weight as int == sat_weight(
                key_count(keys, keys[k], i + 1),
            ),
        forall|k: int|
            0 <= k < i + 1 && (#[trigger] r1[k]).weight == 0 ==> exists|j: int|
                0 <= j < k && r1[j].weight != 0 && keys[j] == keys[k] && r1[j].raw_index
                    == r1[k].canon_index,
{
    let key = keys0[pos];
    assert(keys[i] == key);
    assert forall|k: int| 0 <= k < i implies keys[k] == keys0[k] by {}
    // A representative's key appears nowhere else among earlier rows,
    // so only `pos`'s count changes.
    assert forall|k: int|
        0 <= k < i + 1 implies ((#[trigger] r1[k]).weight != 0 <==> (forall|j: int|
        0 <= j < k ==> keys[j] != keys[k])) by {
        if k == i {
            assert(keys[pos] == keys[k]);
            assert(!(forall|j: int| 0 <= j < k ==> keys[j] != keys[k]));
        } else {
            assert(r1[k].weight != 0 <==> r0[k].weight != 0) by {
                if k == pos {
                    assert(r1[pos].weight as int == sat_weight(r0[pos].weight + 1));
                    assert(r1[pos].weight > 0);
                } else {
                    assert(r1[k] == r0[k]);
                }
            }
            assert((forall|j: int| 0 <= j < k ==> keys[j] != keys[k]) <==> (forall|j: int|
                0 <= j < k ==> keys0[j] != keys0[k])) by {
                if forall|j: int| 0 <= j < k ==> keys0[j] != keys0[k] {
                    assert forall|j: int| 0 <= j < k implies keys[j] != keys[k] by {
                        assert(keys0[j] != keys0[k]);
                    }
                }
                if forall|j: int| 0 <= j < k ==> keys[j] != keys[k] {
                    assert forall|j: int| 0 <= j < k implies keys0[j] != keys0[k] by {
                        assert(keys[j] != keys[k]);
                    }
                }
            }
        }
    }
    assert forall|k: int|
        0 <= k < i + 1 && (#[trigger] r1[k]).weight != 0 implies r1[k].weight as int == sat_weight(
        key_count(keys, keys[k], i + 1),
    ) by {
        lemma_key_count_push(keys0, key, keys[k], i);
        if k == pos {
            lemma_key_count_bound(keys0, key, i);
            assert(key_count(keys, key, i + 1) == key_count(keys0, key, i) + 1);
            let cnt0 = key_count(keys0, key, i);
            assert(r0[pos].weight as int == sat_weight(cnt0));
            assert(sat_weight(sat_weight(cnt0) + 1) == sat_weight(cnt0 + 1));
        } else if k == i {
            assert(r1[i].weight == 0);
        } else {
            assert(r1[k] == r0[k]);
            assert(keys[k] != key) by {
                if keys0[k] == key {
                    assert(r0[k].weight != 0 ==> keys0[pos] != keys0[k] || !(pos < k));
                    if k < pos {
                        assert(r0[pos].weight != 0);
                        assert(keys0[k] != keys0[pos]);
                    } else {
                        assert(keys0[pos] != keys0[k]);
                    }
                }
            }
            assert(key_count(keys, keys[k], i + 1) == key_count(keys, keys[k], i));
        }
    }
    assert forall|k: int|
        0 <= k < i + 1 && (#[trigger] r1[k]).weight == 0 implies exists|j: int|
        0 <= j < k && r1[j].weight != 0 && keys[j] == keys[k] && r1[j].raw_index
            == r1[k].canon_index by {
        if k == i {
            assert(r1[pos].weight != 0 && keys[pos] == keys[k] && r1[pos].raw_index
                == r1[k].canon_index);
        } else {
            assert(r1[k] == r0[k]);
            let j = choose|j: int|
                0 <= j < k && r0[j].weight != 0 && keys0[j] == keys0[k] && r0[j].raw_index
                    == r0[k].canon_index;
            if j == pos {
                assert(r1[j].weight != 0 && r1[j].raw_index == r0[j].raw_index);
            } else {
                assert(r1[j] == r0[j]);
            }
            assert(r1[j].weight != 0 && keys[j] == keys[k] && r1[j].raw_index
                == r1[k].canon_index);
        }
    }
}

/// Buckets the hands of a fresh range by their canonical suit key: the
/// first hand of each bucket becomes its representative and counts the
/// members, later members become weight-0 aliases naming it.
#[verifier::rlimit(100)]
#[verifier::spinoff_prover]
fn canonicalize(kids: &mut Vec<Combination>, groups: &Vec<u8>)
    requires
        groups@.len() == 4,
        range_ok(old(kids)@),
        forall|i: int|
            0 <= i < old(kids)@.len() ==> (#[trigger] old(kids)@[i]).weight == 1 && old(
                kids,
            )@[i].canon_index == old(kids)@[i].raw_index,
    ensures
        final(kids)@.len() == old(kids)@.len(),
        forall|i: int|
            0 <= i < final(kids)@.len() ==> {
                let c = #[trigger] final(kids)@[i];
                let q = old(kids)@[i];
                c.hand == q.hand && c.combos == q.combos && c.rank == q.rank && c.raw_index
                    == q.raw_index
            },
        range_ok(final(kids)@),
        canon_marks_ok(final(kids)@),
        exists|keys: Seq<u64>| canon_buckets_ok(final(kids)@, groups@, keys),
{
    let n = kids.len();
    let mut seen: HashMap<u64, usize> = HashMap::new();
    let ghost mut keys: Seq<u64> = Seq::empty();
    let mut i: usize = 0;
    while i < n
        invariant
            groups@.len() == 4,
            n == kids@.len(),
            kids@.len() == old(kids)@.len(),
            i <= n,
            keys.len() == i,
            range_ok(old(kids)@),
            forall|k: int|
                0 <= k < n ==> (#[trigger] old(kids)@[k]).weight == 1 && old(
                    kids,
                )@[k].canon_index == old(kids)@[k].raw_index,
            forall|k: int|
                0 <= k < n ==> {
                    let c = #[trigger] kids@[k];
                    let q = old(kids)@[k];
                    c.hand == q.hand && c.combos == q.combos && c.rank == q.rank && c.raw_index
                        == q.raw_index
                },
            range_ok(kids@),
            forall|k: int| 0 <= k < n ==> (#[trigger] kids@[k]).weight >= 0,
            forall|k: int|
                0 <= k < i ==> spec_is_iso_key(groups@, (#[trigger] kids@[k]).hand, keys[k]),
            forall|key: u64| #[trigger]
                seen@.contains_key(key) ==> seen@[key] < i && kids@[seen@[key] as int].weight != 0
                    && keys[seen@[key] as int] == key,
            forall|key: u64| #[trigger]
                seen@.contains_key(key) <==> exists|j: int| 0 <= j < i && keys[j] == key,
            forall|k: int|
                0 <= k < i ==> ((#[trigger] kids@[k]).weight != 0 <==> (forall|j: int|
                    0 <= j < k ==> keys[j] != keys[k])),
            forall|k: int|
                0 <= k < i && (#[trigger] kids@[k]).weight != 0 ==> kids@[k].weight as int
                    == sat_weight(key_count(keys, keys[k], i as int)),
            forall|k: int|
                0 <= k < i && (#[trigger] kids@[k]).weight == 0 ==> exists|j: int|
                    0 <= j < k && kids@[j].weight != 0 && keys[j] == keys[k] && kids@[j].raw_index
                        == kids@[k].canon_index,
            forall|k: int|
                0 <= k < i && (#[trigger] kids@[k]).weight != 0 ==> kids@[k].canon_index
                    == kids@[k].raw_index,
            forall|k: int|
                i <= k < n ==> (#[trigger] kids@[k]).weight == 1 && kids@[k].canon_index
                    == kids@[k].raw_index,
        decreases n - i,
    {
        let c = kids[i];
        proof {
            assert(c.wf());
        }
        let key = crate::isomorphism::iso_hand_key(groups, c.hand);
        let ghost kids_before = kids@;
        let ghost keys_before = keys;
        match seen.get(&key) {
            Some(pos_ref) => {
                let pos = *pos_ref;
                let rep = kids[pos];
                let alias = Combination { weight: 0, canon_index: rep.raw_index, ..c };
                kids.set(i, alias);
                let bumped = if rep.weight < 127 {
                    Combination { weight: rep.weight + 1, ..rep }
                } else {
                    rep
                };
                kids.set(pos, bumped);
                proof {
                    keys = keys.push(key);
                    assert(keys_before[pos as int] == key);
                    assert(bumped.weight as int == sat_weight(rep.weight + 1));
                    lemma_bucket_step_alias(
                        kids_before,
                        kids@,
                        keys_before,
                        keys,
                        i as int,
                        pos as int,
                    );
                    assert forall|key2: u64| #[trigger]
                        seen@.contains_key(key2) <==> exists|j: int|
                        0 <= j < i + 1 && keys[j] == key2 by {
                        if seen@.contains_key(key2) {
                            let j = choose|j: int| 0 <= j < i && keys_before[j] == key2;
                            assert(keys[j] == key2);
                        }
                        if exists|j: int| 0 <= j < i + 1 && keys[j] == key2 {
                            let j = choose|j: int| 0 <= j < i + 1 && keys[j] == key2;
                            if j == i {
                                assert(key2 == key);
                            } else {
                                assert(keys_before[j] == key2);
                            }
                        }
                    }
                }
            },
            None => {
                seen.insert(key, i);
                proof {
                    keys = keys.push(key);
                    assert forall|key2: u64| #[trigger]
                        seen@.contains_key(key2) <==> exists|j: int|
                        0 <= j < i + 1 && keys[j] == key2 by {
                        if seen@.contains_key(key2) {
                            if key2 == key {
                                assert(keys[i as int] == key2);
                            } else {
                                let j = choose|j: int| 0 <= j < i && keys_before[j] == key2;
                                assert(keys[j] == key2);
                            }
                        }
                        if exists|j: int| 0 <= j < i + 1 && keys[j] == key2 {
                            let j = choose|j: int| 0 <= j < i + 1 && keys[j] == key2;
                            if j < i {
                                assert(keys_before[j] == key2);
                            } else {
                                assert(key2 == key);
                            }
                        }
                    }
                    assert(forall|j: int| 0 <= j < i ==> keys_before[j] != key);
                    lemma_key_count_zero(keys_before, key, i as int);
                    lemma_key_count_push(keys_before, key, key, i as int);
                    assert(key_count(keys, key, i as int + 1) == 1);
                    assert forall|k: int|
                        0 <= k < i + 1 && (#[trigger] kids@[k]).weight != 0 implies kids@[k].weight
                        as int == sat_weight(key_count(keys, keys[k], i as int + 1)) by {
                        if k < i {
                            assert(keys[k] != key);
                            lemma_key_count_push(keys_before, key, keys[k], i as int);
                            assert(key_count(keys, keys[k], i as int + 1) == key_count(
                                keys_before,
                                keys[k],
                                i as int,
                            ));
                        }
                    }
                }
            },
        }
        i += 1;
    }
    proof {
        assert(canon_buckets_ok(kids@, groups@, keys));
        assert forall|k: int|
            0 <= k < kids@.len() && (#[trigger] kids@[k]).weight == 0 implies exists|j: int|
            0 <= j < kids@.len() && (#[trigger] kids@[j]).weight != 0 && kids@[j].raw_index
                == kids@[k].canon_index by {
            let j = choose|j: int|
                0 <= j < k && kids@[j].weight != 0 && keys[j] == keys[k] && kids@[j].raw_index
                    == kids@[k].canon_index;
            assert(0 <= j < kids@.len() && kids@[j].weight != 0 && kids@[j].raw_index
                == kids@[k].canon_index);
        }
        assert(canon_marks_ok(kids@));
    }
}

/// Every count over keys none of which match is zero./// Every count over keys none of which match is zero.
proof fn lemma_key_count_zero(keys: Seq<u64>, k: u64, n: int)
    requires
        0 <= n <= keys.len(),
        forall|j: int| 0 <= j < n ==> keys[j] != k,
    ensures
        key_count(keys, k, n) == 0,
    decreases n,
{
    if n > 0 {
        lemma_key_count_zero(keys, k, n - 1);
    }
}

/// Builds the bucket table of a canonically marked range.
fn build_canon_table(kids: &Vec<Combination>) -> (table: Vec<usize>)
    requires
        range_ok(kids@),
        canon_marks_ok(kids@),
    ensures
        canon_table_ok(kids@, table@),
{
    let n = kids.len();
    let mut table: Vec<usize> = Vec::new();
    let mut z: usize = 0;
    while z < 2703
        invariant
            table@.len() == z,
            z <= 2703,
            forall|t: int| 0 <= t < z ==> #[trigger] table@[t] == 0,
        decreases 2703 - z,
    {
        table.push(0);
        z += 1;
    }
    // Representatives first: their own row.
    let mut i: usize = 0;
    while i < n
        invariant
            n == kids@.len(),
            i <= n,
            range_ok(kids@),
            canon_marks_ok(kids@),
            table@.len() == 2703,
            forall|k: int|
                0 <= k < i && (#[trigger] kids@[k]).weight != 0 ==> table@[kids@[k].raw_index as int]
                    == k,
        decreases n - i,
    {
        let c = kids[i];
        proof {
            assert(c.wf());
        }
        if c.weight != 0 {
            table.set(c.raw_index, i);
        }
        i += 1;
    }
    // Aliases second: their representative's row.
    let mut j: usize = 0;
    while j < n
        invariant
            n == kids@.len(),
            j <= n,
            range_ok(kids@),
            canon_marks_ok(kids@),
            table@.len() == 2703,
            forall|k: int|
                0 <= k < n && (#[trigger] kids@[k]).weight != 0 ==> table@[kids@[k].raw_index as int]
                    == k,
            forall|k: int|
                0 <= k < j && (#[trigger] kids@[k]).weight == 0 ==> table@[kids@[k].raw_index as int]
                    == table@[kids@[k].canon_index as int] && table@[kids@[k].canon_index as int]
                    < n && kids@[table@[kids@[k].canon_index as int] as int].weight != 0
                    && kids@[table@[kids@[k].canon_index as int] as int].raw_index
                    == kids@[k].canon_index,
        decreases n - j,
    {
        let c = kids[j];
        proof {
            assert(c.wf());
            if c.weight == 0 {
                let r = choose|r: int|
                    0 <= r < kids@.len() && (#[trigger] kids@[r]).weight != 0 && kids@[r].raw_index
                        == c.canon_index;
                assert(kids@[r].wf());
                assert(table@[c.canon_index as int] == r);
            }
        }
        if c.weight == 0 {
            let rep_row = table[c.canon_index];
            table.set(c.raw_index, rep_row);
            proof {
                assert forall|k: int|
                    0 <= k < n && (#[trigger] kids@[k]).weight != 0 implies table@[kids@[
                    k].raw_index as int] == k by {
                    assert(kids@[k].raw_index != c.raw_index);
                }
                assert forall|k: int|
                    0 <= k < j + 1 && (#[trigger] kids@[k]).weight == 0 implies table@[kids@[
                    k].raw_index as int] == table@[kids@[k].canon_index as int] && table@[kids@[
                    k].canon_index as int] < n && kids@[table@[kids@[k].canon_index as int] as int].weight
                    != 0 && kids@[table@[kids@[k].canon_index as int] as int].raw_index
                    == kids@[k].canon_index by {
                    let rk = choose|r: int|
                        0 <= r < kids@.len() && (#[trigger] kids@[r]).weight != 0
                            && kids@[r].raw_index == kids@[k].canon_index;
                    assert(kids@[k].canon_index as int != c.raw_index as int);
                    if k < j {
                        assert(kids@[k].raw_index != c.raw_index);
                    }
                }
            }
        }
        j += 1;
    }
    proof {
        assert forall|i2: int| 0 <= i2 < kids@.len() implies {
            let c = #[trigger] kids@[i2];
            &&& c.raw_index < 2703
            &&& c.canon_index < 2703
            &&& table@[c.raw_index as int] < kids@.len()
            &&& table@[c.canon_index as int] < kids@.len()
            &&& table@[c.raw_index as int] == table@[c.canon_index as int]
            &&& (c.weight != 0 ==> c.canon_index == c.raw_index && table@[c.raw_index as int]
                == i2)
            &&& (c.weight == 0 ==> kids@[table@[c.canon_index as int] as int].weight != 0
                && kids@[table@[c.canon_index as int] as int].raw_index == c.canon_index)
        } by {
            assert(kids@[i2].wf());
        }
    }
    table
}

} // verus!

verus! {

/// The parent-table rows of a child range: each child hand's pair index
/// looked up in the parent board's bucket table.
pub open spec fn iso_rows(child: Seq<Combination>, pm: Seq<usize>) -> Seq<usize> {
    Seq::new(child.len(), |i: int| pm[child[i].raw_index as int])
}

fn compute_rows(child: &Vec<Combination>, pm: &Vec<usize>) -> (rows: Vec<usize>)
    requires
        forall|i: int|
            0 <= i < child@.len() ==> (#[trigger] child@[i]).raw_index < pm@.len(),
    ensures
        rows@ == iso_rows(child@, pm@),
        rows@.len() == child@.len(),
{
    let mut rows: Vec<usize> = Vec::new();
    let mut i: usize = 0;
    while i < child.len()
        invariant
            forall|k: int|
                0 <= k < child@.len() ==> (#[trigger] child@[k]).raw_index < pm@.len(),
            i <= child@.len(),
            rows@.len() == i,
            forall|k: int|
                0 <= k < i ==> #[trigger] rows@[k] == pm@[child@[k].raw_index as int],
        decreases child@.len() - i,
    {
        rows.push(pm[child[i].raw_index]);
        i += 1;
    }
    proof {
        assert(rows@ =~= iso_rows(child@, pm@));
    }
    rows
}

/// The utilities after a canonical merge: every alias row reads the
/// value at its representative's row, every representative keeps its
/// own.
pub open spec fn merged_utilities(r: Seq<Combination>, m: Seq<usize>, u: Seq<i64>) -> Seq<i64> {
    Seq::new(
        u.len(),
        |i: int|
            if r[i].weight == 0 {
                u[m[r[i].canon_index as int] as int]
            } else {
                u[i]
            },
    )
}

/// Row `i` of a child range reads its named surviving parent row.
pub open spec fn row_match(
    child: Seq<Combination>,
    m: Seq<usize>,
    parent: Seq<Combination>,
    b: Board,
    i: int,
) -> bool {
    &&& m[i] < parent.len()
    &&& child[i].hand == parent[m[i] as int].hand
    &&& child[i].combos == parent[m[i] as int].combos
    &&& !b@.contains(child[i].hand[0])
    &&& !b@.contains(child[i].hand[1])
}

/// The child range is the parent range filtered of the board's blocked
/// hands, in parent order.
pub open spec fn range_rows_match(
    child: Seq<Combination>,
    m: Seq<usize>,
    parent: Seq<Combination>,
    b: Board,
) -> bool {
    &&& m.len() == child.len()
    &&& forall|i: int| 0 <= i < child.len() ==> #[trigger] row_match(child, m, parent, b, i)
    &&& forall|i: int, j: int| 0 <= i < j < m.len() ==> m[i] < m[j]
    &&& forall|p: int| 0 <= p < parent.len() ==> #[trigger] survivor_covered(m, parent, b, p)
}

/// A flop or turn board's stored entry under isomorphism: the filtered
/// parent hands in order, bucketed by the board's canonical suit key,
/// with a consistent bucket table.
pub open spec fn canon_entry_ok(
    child: Seq<Combination>,
    table: Seq<usize>,
    parent: Seq<Combination>,
    b: Board,
) -> bool {
    &&& exists|m: Seq<usize>| range_rows_match(child, m, parent, b)
    &&& canon_table_ok(child, table)
    &&& exists|keys: Seq<u64>| canon_buckets_ok(child, crate::tree::chance_groups(b), keys)
}

/// The range manager that shares work across suit-equivalent hands.
pub struct IsomorphicRangeManager {
    pub starting_combinations: Vec<Combination>,
    pub ranges: HashMap<u64, Vec<Combination>>,
    pub reach_probs_mapping: HashMap<u64, Vec<usize>>,
}

impl IsomorphicRangeManager {
    /// Every stored range holds well-formed, pairwise distinct hands.
    pub open spec fn wf(self) -> bool {
        forall|k: u64| #[trigger] self.ranges@.contains_key(k) ==> range_ok(self.ranges@[k]@)
    }

    pub open spec fn has_range(self, b: Board) -> bool {
        self.ranges@.contains_key(spec_get_key(b) as u64)
    }

    pub open spec fn range_at(self, b: Board) -> Seq<Combination> {
        self.ranges@[spec_get_key(b) as u64]@
    }

    pub open spec fn has_mapping(self, b: Board) -> bool {
        self.reach_probs_mapping@.contains_key(spec_get_key(b) as u64)
    }

    pub open spec fn mapping_at(self, b: Board) -> Seq<usize> {
        self.reach_probs_mapping@[spec_get_key(b) as u64]@
    }

    /// The board's range and table form a consistent bucket structure.
    pub open spec fn canon_ok(self, b: Board) -> bool {
        &&& self.has_range(b)
        &&& self.has_mapping(b)
        &&& canon_table_ok(self.range_at(b), self.mapping_at(b))
    }

    fn add_range_for_board(&mut self, range: Vec<Combination>, board_key: u64)
        requires
            old(self).wf(),
            range_ok(range@),
        ensures
            final(self).wf(),
            final(self).ranges@ == old(self).ranges@.insert(board_key, range),
            final(self).reach_probs_mapping == old(self).reach_probs_mapping,
            final(self).starting_combinations == old(self).starting_combinations,
    {
        self.ranges.insert(board_key, range);
    }

    fn add_mapping_for_board(&mut self, mapping: Vec<usize>, board_key: u64)
        requires
            old(self).wf(),
        ensures
            final(self).wf(),
            final(self).reach_probs_mapping@ == old(self).reach_probs_mapping@.insert(
                board_key,
                mapping,
            ),
            final(self).ranges == old(self).ranges,
            final(self).starting_combinations == old(self).starting_combinations,
    {
        self.reach_probs_mapping.insert(board_key, mapping);
    }

    /// Builds the manager for a game rooted at the given board: a flop
    /// root and every turn board store the blocker-filtered starting
    /// hands bucketed by the board's canonical suit key with their
    /// bucket tables; every river board stores its rank-sorted entry
    /// over the turn range.
    pub fn new(starting_combinations: Vec<Combination>, initial_board: Board) -> (rm:
        IsomorphicRangeManager)
        requires
            range_ok(starting_combinations@),
            board_shape_ok(initial_board),
        ensures
            rm.wf(),
            rm.has_range(initial_board),
            rm.starting_combinations@ == starting_combinations@,
            initial_board[3] == 52 ==> rm.canon_ok(initial_board),
            initial_board[3] == 52 ==> canon_entry_ok(
                rm.range_at(initial_board),
                rm.mapping_at(initial_board),
                starting_combinations@,
                initial_board,
            ),
            initial_board[3] == 52 ==> forall|tc: u8|
                tc < 52 && !initial_board@.contains(tc) ==> {
                    let tb = with_turn(initial_board, tc);
                    &&& rm.has_range(tb)
                    &&& rm.has_mapping(tb)
                    &&& canon_entry_ok(
                        rm.range_at(tb),
                        rm.mapping_at(tb),
                        starting_combinations@,
                        tb,
                    )
                },
            initial_board[3] == 52 ==> forall|tc: u8, rc: u8|
                tc < 52 && !initial_board@.contains(tc) && rc < 52 && rc != tc
                    && !initial_board@.contains(rc) ==> {
                    let tb = with_turn(initial_board, tc);
                    let rb = with_river(tb, rc);
                    &&& rm.has_range(rb)
                    &&& rm.has_mapping(rb)
                    &&& river_entry_ok(
                        rm.range_at(rb),
                        rm.mapping_at(rb),
                        rm.range_at(tb),
                        rb,
                    )
                },
            initial_board[3] != 52 && initial_board[4] == 52 ==> forall|rc: u8|
                rc < 52 && !initial_board@.contains(rc) ==> {
                    let rb = with_river(initial_board, rc);
                    &&& rm.has_range(rb)
                    &&& rm.has_mapping(rb)
                    &&& river_entry_ok(
                        rm.range_at(rb),
                        rm.mapping_at(rb),
                        starting_combinations@,
                        rb,
                    )
                },
            initial_board[4] != 52 ==> sorted_by_rank(rm.range_at(initial_board)),
            initial_board[4] != 52 ==> exists|m: Seq<usize>|
                river_entry_ok(
                    rm.range_at(initial_board),
                    m,
                    starting_combinations@,
                    initial_board,
                ),
    {
        let mut rm = IsomorphicRangeManager {
            starting_combinations,
            ranges: HashMap::new(),
            reach_probs_mapping: HashMap::new(),
        };
        let root_key = get_key(&initial_board);
        let mut root_copy: Vec<Combination> = Vec::new();
        let mut i: usize = 0;
        while i < rm.starting_combinations.len()
            invariant
                range_ok(rm.starting_combinations@),
                i <= rm.starting_combinations@.len(),
                root_copy@.len() == i,
                forall|k: int|
                    0 <= k < i ==> #[trigger] root_copy@[k] == rm.starting_combinations@[k],
            decreases rm.starting_combinations@.len() - i,
        {
            root_copy.push(rm.starting_combinations[i]);
            i += 1;
        }
        proof {
            assert(root_copy@ =~= rm.starting_combinations@);
        }
        rm.add_range_for_board(root_copy, root_key);
        if !crate::cards::board_has_turn(&initial_board) {
            rm.init_ranges_from_flop(&initial_board);
        } else if !crate::cards::board_has_river(&initial_board) {
            rm.init_ranges_from_turn(&initial_board);
        } else {
            rm.init_ranges_from_river(&initial_board);
        }
        rm
    }

    fn init_ranges_from_river(&mut self, initial_board: &Board)
        requires
            old(self).wf(),
            forall|i: int| 0 <= i < 5 ==> #[trigger] initial_board@[i] < 52,
            range_ok(old(self).starting_combinations@),
        ensures
            final(self).wf(),
            final(self).has_range(*initial_board),
            sorted_by_rank(final(self).range_at(*initial_board)),
            exists|m: Seq<usize>|
                river_entry_ok(
                    final(self).range_at(*initial_board),
                    m,
                    old(self).starting_combinations@,
                    *initial_board,
                ),
            final(self).starting_combinations == old(self).starting_combinations,
    {
        let key = get_key(initial_board);
        let entry = make_river_entry(&self.starting_combinations, initial_board);
        let ghost m = entry.1@;
        self.add_range_for_board(entry.0, key);
        proof {
            assert(river_entry_ok(
                self.range_at(*initial_board),
                m,
                old(self).starting_combinations@,
                *initial_board,
            ));
        }
    }

    fn init_ranges_from_turn(&mut self, initial_board: &Board)
        requires
            old(self).wf(),
            crate::isomorphism::board_wf(*initial_board),
            initial_board@[3] != 52,
            initial_board@[4] == 52,
            forall|i: int| 0 <= i < 4 ==> #[trigger] initial_board@[i] < 52,
            range_ok(old(self).starting_combinations@),
            old(self).has_range(*initial_board),
        ensures
            final(self).wf(),
            final(self).has_range(*initial_board),
            final(self).range_at(*initial_board) == old(self).range_at(*initial_board),
            forall|rcard: u8|
                rcard < 52 && !initial_board@.contains(rcard) ==> {
                    let rb = with_river(*initial_board, rcard);
                    &&& final(self).has_range(rb)
                    &&& final(self).has_mapping(rb)
                    &&& river_entry_ok(
                        final(self).range_at(rb),
                        final(self).mapping_at(rb),
                        old(self).starting_combinations@,
                        rb,
                    )
                },
            final(self).starting_combinations == old(self).starting_combinations,
    {
        let ghost root_key = spec_get_key(*initial_board) as u64;
        let mut river: u8 = 0;
        while river < 52
            invariant
                self.wf(),
                crate::isomorphism::board_wf(*initial_board),
                initial_board@[3] != 52,
                initial_board@[4] == 52,
                forall|i: int| 0 <= i < 4 ==> #[trigger] initial_board@[i] < 52,
                range_ok(self.starting_combinations@),
                root_key as int == spec_get_key(*initial_board),
                self.ranges@.contains_key(root_key),
                self.ranges@[root_key] == old(self).ranges@[root_key],
                forall|rc: u8|
                    rc < river && !initial_board@.contains(rc) ==> {
                        let rb = with_river(*initial_board, rc);
                        &&& self.has_range(rb)
                        &&& self.has_mapping(rb)
                        &&& river_entry_ok(
                            self.range_at(rb),
                            self.mapping_at(rb),
                            old(self).starting_combinations@,
                            rb,
                        )
                    },
                self.starting_combinations == old(self).starting_combinations,
            decreases 52 - river,
        {
            if !crate::cards::check_card_overlap(river, initial_board) {
                let river_board: Board = [
                    initial_board[0],
                    initial_board[1],
                    initial_board[2],
                    initial_board[3],
                    river,
                ];
                let river_key = get_key(&river_board);
                proof {
                    assert(spec_get_key(river_board) != spec_get_key(*initial_board));
                    assert(0 <= spec_get_key(*initial_board) < 0x1_0000_0000_0000_0000);
                    assert(root_key == spec_get_key(*initial_board));
                    assert(river_key != root_key);
                    assert(river_board == with_river(*initial_board, river));
                    assert forall|rc: u8|
                        rc < 52 && !initial_board@.contains(rc) && rc != river implies spec_get_key(
                        with_river(*initial_board, rc),
                    ) != spec_get_key(river_board) by {
                        assert(with_river(*initial_board, rc)[4] == rc);
                    }
                }
                let entry = make_river_entry(&self.starting_combinations, &river_board);
                self.add_mapping_for_board(entry.1, river_key);
                self.add_range_for_board(entry.0, river_key);
                proof {
                    assert forall|rc: u8|
                        rc < river + 1 && !initial_board@.contains(rc) implies {
                        let rb = with_river(*initial_board, rc);
                        &&& self.has_range(rb)
                        &&& self.has_mapping(rb)
                        &&& river_entry_ok(
                            self.range_at(rb),
                            self.mapping_at(rb),
                            old(self).starting_combinations@,
                            rb,
                        )
                    } by {
                        if rc != river {
                            assert(spec_get_key(with_river(*initial_board, rc)) != spec_get_key(
                                river_board,
                            ));
                            assert(0 <= spec_get_key(with_river(*initial_board, rc))
                                < 0x1_0000_0000_0000_0000);
                        }
                    }
                }
            }
            river += 1;
        }
    }

    fn init_ranges_from_flop(&mut self, initial_board: &Board)
        requires
            old(self).wf(),
            crate::isomorphism::board_wf(*initial_board),
            initial_board@[3] == 52,
            initial_board@[4] == 52,
            forall|i: int| 0 <= i < 3 ==> #[trigger] initial_board@[i] < 52,
            range_ok(old(self).starting_combinations@),
            old(self).has_range(*initial_board),
        ensures
            final(self).wf(),
            final(self).has_range(*initial_board),
            final(self).canon_ok(*initial_board),
            canon_entry_ok(
                final(self).range_at(*initial_board),
                final(self).mapping_at(*initial_board),
                old(self).starting_combinations@,
                *initial_board,
            ),
            forall|tc: u8|
                tc < 52 && !initial_board@.contains(tc) ==> {
                    let tb = with_turn(*initial_board, tc);
                    &&& final(self).has_range(tb)
                    &&& final(self).has_mapping(tb)
                    &&& canon_entry_ok(
                        final(self).range_at(tb),
                        final(self).mapping_at(tb),
                        old(self).starting_combinations@,
                        tb,
                    )
                },
            forall|tc: u8, rc: u8|
                tc < 52 && !initial_board@.contains(tc) && rc < 52 && rc != tc
                    && !initial_board@.contains(rc) ==> {
                    let tb = with_turn(*initial_board, tc);
                    let rb = with_river(tb, rc);
                    &&& final(self).has_range(rb)
                    &&& final(self).has_mapping(rb)
                    &&& river_entry_ok(
                        final(self).range_at(rb),
                        final(self).mapping_at(rb),
                        final(self).range_at(tb),
                        rb,
                    )
                },
            final(self).starting_combinations == old(self).starting_combinations,
    {
        let flop_groups = crate::isomorphism::build_initial_suit_groups(initial_board);
        proof {
            crate::isomorphism::lemma_initial_groups_pinned(*initial_board, flop_groups@);
            assert(flop_groups@ =~= crate::tree::chance_groups(*initial_board));
        }
        let root_key = get_key(initial_board);
        let filtered = filter_unblocked(&self.starting_combinations, initial_board);
        let ghost root_rows = filtered.1@;
        let mut flop_hands = filtered.0;
        let ghost flop_filtered = flop_hands@;
        canonicalize(&mut flop_hands, &flop_groups);
        let flop_table = build_canon_table(&flop_hands);
        proof {
            assert forall|i: int|
                0 <= i < flop_hands@.len() implies #[trigger] row_match(
                flop_hands@,
                root_rows,
                self.starting_combinations@,
                *initial_board,
                i,
            ) by {
                assert(entry_row_ok(
                    flop_filtered,
                    root_rows,
                    self.starting_combinations@,
                    *initial_board,
                    i,
                ));
            }
            assert(range_rows_match(
                flop_hands@,
                root_rows,
                self.starting_combinations@,
                *initial_board,
            ));
            assert(canon_entry_ok(
                flop_hands@,
                flop_table@,
                self.starting_combinations@,
                *initial_board,
            ));
        }
        self.add_mapping_for_board(flop_table, root_key);
        self.add_range_for_board(flop_hands, root_key);
        let ghost root_key_g = spec_get_key(*initial_board) as u64;
        let mut turn: u8 = 0;
        while turn < 52
            invariant
                self.wf(),
                crate::isomorphism::board_wf(*initial_board),
                initial_board@[3] == 52,
                initial_board@[4] == 52,
                forall|i: int| 0 <= i < 3 ==> #[trigger] initial_board@[i] < 52,
                flop_groups@.len() == 4,
                flop_groups@ == crate::tree::chance_groups(*initial_board),
                forall|k: int|
                    0 <= k < 4 ==> #[trigger] flop_groups@[k] as int
                        == crate::isomorphism::spec_initial_group(*initial_board, k),
                range_ok(self.starting_combinations@),
                root_key_g as int == spec_get_key(*initial_board),
                self.ranges@.contains_key(root_key_g),
                self.reach_probs_mapping@.contains_key(root_key_g),
                canon_entry_ok(
                    self.range_at(*initial_board),
                    self.mapping_at(*initial_board),
                    self.starting_combinations@,
                    *initial_board,
                ),
                canon_table_ok(self.range_at(*initial_board), self.mapping_at(*initial_board)),
                forall|tc: u8|
                    tc < turn && !initial_board@.contains(tc) ==> {
                        let tb = with_turn(*initial_board, tc);
                        &&& self.has_range(tb)
                        &&& self.has_mapping(tb)
                        &&& canon_entry_ok(
                            self.range_at(tb),
                            self.mapping_at(tb),
                            self.starting_combinations@,
                            tb,
                        )
                    },
                forall|tc: u8, rc: u8|
                    tc < turn && !initial_board@.contains(tc) && rc < 52 && rc != tc
                        && !initial_board@.contains(rc) ==> {
                        let tb = with_turn(*initial_board, tc);
                        let rb = with_river(tb, rc);
                        &&& self.has_range(rb)
                        &&& self.has_mapping(rb)
                        &&& river_entry_ok(
                            self.range_at(rb),
                            self.mapping_at(rb),
                            self.range_at(tb),
                            rb,
                        )
                    },
                self.starting_combinations == old(self).starting_combinations,
            decreases 52 - turn,
        {
            if !crate::cards::check_card_overlap(turn, initial_board) {
                let turn_board: Board = [
                    initial_board[0],
                    initial_board[1],
                    initial_board[2],
                    turn,
                    52,
                ];
                let turn_groups = crate::isomorphism::build_next_suit_groups(
                    &turn_board,
                    &flop_groups,
                );
                proof {
                    assert(turn_board == with_turn(*initial_board, turn));
                    crate::isomorphism::lemma_next_groups_pinned(
                        turn_board,
                        flop_groups@,
                        turn_groups@,
                    );
                    assert([turn_board[0], turn_board[1], turn_board[2], 52u8, 52u8]
                        =~= *initial_board);
                    assert(turn_groups@ =~= crate::tree::chance_groups(turn_board));
                }
                let turn_key = get_key(&turn_board);
                proof {
                    assert(spec_get_key(turn_board) != spec_get_key(*initial_board));
                    assert(0 <= spec_get_key(*initial_board) < 0x1_0000_0000_0000_0000);
                    assert(turn_key != root_key_g);
                }
                let filtered2 = filter_unblocked(&self.starting_combinations, &turn_board);
                let ghost turn_rows = filtered2.1@;
                let mut turn_hands = filtered2.0;
                let ghost turn_filtered = turn_hands@;
                canonicalize(&mut turn_hands, &turn_groups);
                let turn_table = build_canon_table(&turn_hands);
                proof {
                    assert forall|i: int|
                        0 <= i < turn_hands@.len() implies #[trigger] row_match(
                        turn_hands@,
                        turn_rows,
                        self.starting_combinations@,
                        turn_board,
                        i,
                    ) by {
                        assert(entry_row_ok(
                            turn_filtered,
                            turn_rows,
                            self.starting_combinations@,
                            turn_board,
                            i,
                        ));
                    }
                    assert(range_rows_match(
                        turn_hands@,
                        turn_rows,
                        self.starting_combinations@,
                        turn_board,
                    ));
                    assert(canon_entry_ok(
                        turn_hands@,
                        turn_table@,
                        self.starting_combinations@,
                        turn_board,
                    ));
                }
                let mut river: u8 = 0;
                while river < 52
                    invariant
                        self.wf(),
                        crate::isomorphism::board_wf(*initial_board),
                        initial_board@[3] == 52,
                        initial_board@[4] == 52,
                        forall|i: int| 0 <= i < 3 ==> #[trigger] initial_board@[i] < 52,
                        turn < 52,
                        !initial_board@.contains(turn),
                        turn_board == with_turn(*initial_board, turn),
                        range_ok(self.starting_combinations@),
                        range_ok(turn_hands@),
                        canon_entry_ok(
                            turn_hands@,
                            turn_table@,
                            self.starting_combinations@,
                            turn_board,
                        ),
                        canon_table_ok(turn_hands@, turn_table@),
                        canon_marks_ok(turn_hands@),
                        root_key_g as int == spec_get_key(*initial_board),
                        self.ranges@.contains_key(root_key_g),
                        self.reach_probs_mapping@.contains_key(root_key_g),
                        canon_entry_ok(
                            self.range_at(*initial_board),
                            self.mapping_at(*initial_board),
                            self.starting_combinations@,
                            *initial_board,
                        ),
                        canon_table_ok(
                            self.range_at(*initial_board),
                            self.mapping_at(*initial_board),
                        ),
                        forall|tc: u8|
                            tc < turn && !initial_board@.contains(tc) ==> {
                                let tb = with_turn(*initial_board, tc);
                                &&& self.has_range(tb)
                                &&& self.has_mapping(tb)
                                &&& canon_entry_ok(
                                    self.range_at(tb),
                                    self.mapping_at(tb),
                                    self.starting_combinations@,
                                    tb,
                                )
                            },
                        forall|tc: u8, rc: u8|
                            tc < turn && !initial_board@.contains(tc) && rc < 52 && rc != tc
                                && !initial_board@.contains(rc) ==> {
                                let tb = with_turn(*initial_board, tc);
                                let rb = with_river(tb, rc);
                                &&& self.has_range(rb)
                                &&& self.has_mapping(rb)
                                &&& river_entry_ok(
                                    self.range_at(rb),
                                    self.mapping_at(rb),
                                    self.range_at(tb),
                                    rb,
                                )
                            },
                        forall|rc: u8|
                            rc < river && rc != turn && !initial_board@.contains(rc) ==> {
                                let rb = with_river(turn_board, rc);
                                &&& self.has_range(rb)
                                &&& self.has_mapping(rb)
                                &&& river_entry_ok(
                                    self.range_at(rb),
                                    self.mapping_at(rb),
                                    turn_hands@,
                                    rb,
                                )
                            },
                        self.starting_combinations == old(self).starting_combinations,
                    decreases 52 - river,
                {
                    if !crate::cards::check_card_overlap(river, &turn_board) {
                        let river_board: Board = [
                            initial_board[0],
                            initial_board[1],
                            initial_board[2],
                            turn,
                            river,
                        ];
                        let river_key = get_key(&river_board);
                        proof {
                            assert(river_board == with_river(turn_board, river));
                            assert(spec_get_key(river_board) != spec_get_key(*initial_board));
                            assert(root_key_g as int == spec_get_key(*initial_board));
                            assert(river_key != root_key_g);
                            assert forall|tc: u8|
                                tc < 52 && !initial_board@.contains(tc) implies spec_get_key(
                                with_turn(*initial_board, tc),
                            ) != spec_get_key(river_board) by {
                                assert(with_turn(*initial_board, tc)[3] == tc);
                            }
                            assert forall|tc: u8, rc: u8|
                                tc < 52 && rc < 52 && !(tc == turn && rc == river) implies
                                spec_get_key(with_river(with_turn(*initial_board, tc), rc))
                                != spec_get_key(river_board) by {
                                assert(with_river(with_turn(*initial_board, tc), rc)[3] == tc);
                                assert(with_river(with_turn(*initial_board, tc), rc)[4] == rc);
                            }
                        }
                        let entry = make_river_entry(&turn_hands, &river_board);
                        self.add_mapping_for_board(entry.1, river_key);
                        self.add_range_for_board(entry.0, river_key);
                    }
                    river += 1;
                }
                proof {
                    assert forall|tc: u8, rc: u8|
                        tc < 52 && rc < 52 implies spec_get_key(
                        with_river(with_turn(*initial_board, tc), rc),
                    ) != spec_get_key(turn_board) by {
                        assert(with_river(with_turn(*initial_board, tc), rc)[4] == rc);
                        assert(with_river(with_turn(*initial_board, tc), rc)[3] == tc);
                    }
                    assert forall|tc: u8|
                        tc < 52 && tc != turn implies spec_get_key(with_turn(*initial_board, tc))
                        != spec_get_key(turn_board) by {
                        assert(with_turn(*initial_board, tc)[3] == tc);
                    }
                }
                self.add_mapping_for_board(turn_table, turn_key);
                self.add_range_for_board(turn_hands, turn_key);
                proof {
                    assert forall|rc: u8|
                        rc < 52 && rc != turn && !initial_board@.contains(rc) implies {
                        let rb = with_river(turn_board, rc);
                        &&& self.has_range(rb)
                        &&& self.has_mapping(rb)
                        &&& river_entry_ok(
                            self.range_at(rb),
                            self.mapping_at(rb),
                            self.range_at(turn_board),
                            rb,
                        )
                    } by {
                        let rb = with_river(turn_board, rc);
                        assert(spec_get_key(rb) != spec_get_key(turn_board)) by {
                            assert(rb[4] == rc);
                        }
                        assert(0 <= spec_get_key(rb) < 0x1_0000_0000_0000_0000);
                    }
                }
            }
            turn += 1;
        }
    }

    /// Overwrites every alias row with its representative's value, so
    /// every hand of a bucket carries one utility.
    pub fn merge_canonical_utilities(&self, board: &Board, utility: &mut Vec<i64>)
        requires
            crate::isomorphism::board_wf(*board),
            self.canon_ok(*board),
            old(utility)@.len() == self.range_at(*board).len(),
        ensures
            final(utility)@.len() == old(utility)@.len(),
            final(utility)@ == merged_utilities(
                self.range_at(*board),
                self.mapping_at(*board),
                old(utility)@,
            ),
            forall|i: int|
                0 <= i < final(utility)@.len() && (#[trigger] self.range_at(*board)[i]).weight
                    != 0 ==> final(utility)@[i] == old(utility)@[i],
            forall|i: int|
                0 <= i < final(utility)@.len() && (#[trigger] self.range_at(*board)[i]).weight
                    == 0 ==> final(utility)@[i] == old(utility)@[self.mapping_at(*board)[self.range_at(
                    *board,
                )[i].canon_index as int] as int] && final(utility)@[i] == final(utility)@[self.mapping_at(
                    *board,
                )[self.range_at(*board)[i].canon_index as int] as int],
    {
        let key = get_key(board);
        let hands = self.ranges.get(&key).unwrap();
        let mapping = self.reach_probs_mapping.get(&key).unwrap();
        proof {
            assert(hands@ == self.range_at(*board));
            assert(mapping@ == self.mapping_at(*board));
        }
        let n = hands.len();
        let mut i: usize = 0;
        while i < n
            invariant
                n == hands@.len(),
                hands@ == self.range_at(*board),
                mapping@ == self.mapping_at(*board),
                canon_table_ok(hands@, mapping@),
                utility@.len() == old(utility)@.len(),
                old(utility)@.len() == n,
                i <= n,
                forall|k: int|
                    0 <= k < n && (#[trigger] hands@[k]).weight != 0 ==> utility@[k] == old(
                        utility,
                    )@[k],
                forall|k: int|
                    0 <= k < i && (#[trigger] hands@[k]).weight == 0 ==> utility@[k] == old(
                        utility,
                    )@[mapping@[hands@[k].canon_index as int] as int],
                forall|k: int|
                    i <= k < n && (#[trigger] hands@[k]).weight == 0 ==> utility@[k] == old(
                        utility,
                    )@[k],
        decreases n - i,
        {
            let c = hands[i];
            if c.weight == 0 {
                let rep_row = mapping[c.canon_index];
                let v = utility[rep_row];
                proof {
                    assert(hands@[rep_row as int].weight != 0);
                }
                utility.set(i, v);
            }
            i += 1;
        }
        proof {
            assert forall|i2: int|
                0 <= i2 < utility@.len() && (#[trigger] self.range_at(*board)[i2]).weight == 0
                implies utility@[i2] == utility@[self.mapping_at(*board)[self.range_at(
                *board,
            )[i2].canon_index as int] as int] by {
                let row = self.mapping_at(*board)[self.range_at(*board)[i2].canon_index as int];
                assert(self.range_at(*board)[row as int].weight != 0);
            }
            assert(utility@ =~= merged_utilities(
                self.range_at(*board),
                self.mapping_at(*board),
                old(utility)@,
            ));
        }
    }

    /// Reads parent-street values into child order: every member of a
    /// bucket reads its representative's parent row.
    pub fn get_next_reach_probs(&self, new_board: &Board, opp_reach_probs: &Vec<i64>) -> (out: Vec<
        i64,
    >)
        requires
            crate::isomorphism::board_wf(*new_board),
            self.has_range(*new_board),
            self.has_mapping(parent_board(*new_board)),
            forall|i: int|
                0 <= i < self.range_at(*new_board).len() ==> (#[trigger] self.range_at(
                    *new_board,
                )[i]).raw_index < self.mapping_at(parent_board(*new_board)).len(),
            forall|i: int|
                0 <= i < self.range_at(*new_board).len() ==> #[trigger] self.mapping_at(
                    parent_board(*new_board),
                )[self.range_at(*new_board)[i].raw_index as int] < opp_reach_probs@.len(),
        ensures
            out@ == gathered(
                opp_reach_probs@,
                iso_rows(self.range_at(*new_board), self.mapping_at(parent_board(*new_board))),
            ),
    {
        let key = get_key(new_board);
        let child = self.ranges.get(&key).unwrap();
        let last_board = compute_parent_board(new_board);
        let parent_key = get_key(&last_board);
        let pm = self.reach_probs_mapping.get(&parent_key).unwrap();
        proof {
            assert(child@ == self.range_at(*new_board));
            assert(pm@ == self.mapping_at(parent_board(*new_board)));
        }
        let rows = compute_rows(child, pm);
        proof {
            assert forall|i: int| 0 <= i < rows@.len() implies #[trigger] rows@[i]
                < opp_reach_probs@.len() by {
                assert(rows@[i] == pm@[child@[i].raw_index as int]);
            }
        }
        apply_gather(opp_reach_probs, &rows)
    }

    /// Accumulates child utilities into parent rows: every member of a
    /// bucket adds into its representative's parent row.
    pub fn map_utility_backwards(
        &self,
        new_board: &Board,
        utility: &Vec<i64>,
        mapped_utility: &mut Vec<i64>,
    )
        requires
            crate::isomorphism::board_wf(*new_board),
            self.has_range(*new_board),
            self.has_mapping(parent_board(*new_board)),
            utility@.len() == self.range_at(*new_board).len(),
            self.range_at(*new_board).len() <= 0x10000,
            forall|i: int|
                0 <= i < self.range_at(*new_board).len() ==> (#[trigger] self.range_at(
                    *new_board,
                )[i]).raw_index < self.mapping_at(parent_board(*new_board)).len(),
            forall|i: int|
                0 <= i < self.range_at(*new_board).len() ==> #[trigger] self.mapping_at(
                    parent_board(*new_board),
                )[self.range_at(*new_board)[i].raw_index as int] < old(mapped_utility)@.len(),
            forall|i: int|
                0 <= i < old(mapped_utility)@.len() ==> -UTIL_BOUND <= #[trigger] old(
                    mapped_utility,
                )@[i] <= UTIL_BOUND,
            forall|i: int|
                0 <= i < utility@.len() ==> -UTIL_BOUND <= #[trigger] utility@[i] <= UTIL_BOUND,
        ensures
            final(mapped_utility)@ == scatter_add(
                old(mapped_utility)@,
                iso_rows(self.range_at(*new_board), self.mapping_at(parent_board(*new_board))),
                utility@,
                utility@.len() as int,
            ),
            final(mapped_utility)@.len() == old(mapped_utility)@.len(),
    {
        let key = get_key(new_board);
        let child = self.ranges.get(&key).unwrap();
        let last_board = compute_parent_board(new_board);
        let parent_key = get_key(&last_board);
        let pm = self.reach_probs_mapping.get(&parent_key).unwrap();
        proof {
            assert(child@ == self.range_at(*new_board));
            assert(pm@ == self.mapping_at(parent_board(*new_board)));
        }
        let rows = compute_rows(child, pm);
        proof {
            assert forall|i: int| 0 <= i < rows@.len() implies 0 <= #[trigger] rows@[i] < old(
                mapped_utility,
            )@.len() by {
                assert(rows@[i] == pm@[child@[i].raw_index as int]);
            }
        }
        apply_scatter_add(mapped_utility, &rows, utility);
    }

    /// Whether a range is stored for the board.
    pub fn has_range_for_board(&self, board: &Board) -> (b: bool)
        requires
            crate::isomorphism::board_wf(*board),
        ensures
            b == self.has_range(*board),
    {
        let key = get_key(board);
        self.ranges.contains_key(&key)
    }

    /// The range stored for a board.
    pub fn get_range_for_board(&self, board: &Board) -> (out: &Vec<Combination>)
        requires
            crate::isomorphism::board_wf(*board),
            self.has_range(*board),
        ensures
            out@ == self.range_at(*board),
    {
        let key = get_key(board);
        self.ranges.get(&key).unwrap()
    }

    /// The bucket table stored for a board.
    pub fn get_reach_probs_mapping(&self, board: &Board) -> (out: &Vec<usize>)
        requires
            crate::isomorphism::board_wf(*board),
            self.has_mapping(*board),
        ensures
            out@ == self.mapping_at(*board),
    {
        let key = get_key(board);
        self.reach_probs_mapping.get(&key).unwrap()
    }

    /// A copy of the range the manager was seeded with.
    pub fn get_starting_combinations(&self) -> (out: Vec<Combination>)
        ensures
            out@ == self.starting_combinations@,
    {
        let mut out: Vec<Combination> = Vec::new();
        let mut i: usize = 0;
        while i < self.starting_combinations.len()
            invariant
                i <= self.starting_combinations@.len(),
                out@.len() == i,
                forall|k: int| 0 <= k < i ==> #[trigger] out@[k] == self.starting_combinations@[k],
            decreases self.starting_combinations@.len() - i,
        {
            out.push(self.starting_combinations[i]);
            i += 1;
        }
        proof {
            assert(out@ =~= self.starting_combinations@);
        }
        out
    }
}

} // verus!
