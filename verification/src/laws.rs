//! Library-wide laws: what the street projections and the canonical
//! merge guarantee when combined.
use vstd::prelude::*;

use crate::combination::Combination;
use crate::range_manager::{
    canon_table_ok, gathered, hands_match, merged_utilities, range_ok, scatter_add,
};

verus! {

/// Merging canonical utilities twice gives what merging once gives:
/// representatives never change, and an alias copies a representative,
/// so a second pass copies the same values again.
pub proof fn lemma_merge_idempotent(r: Seq<Combination>, m: Seq<usize>, u: Seq<i64>)
    requires
        canon_table_ok(r, m),
        u.len() == r.len(),
    ensures
        merged_utilities(r, m, merged_utilities(r, m, u)) == merged_utilities(r, m, u),
{
    let once = merged_utilities(r, m, u);
    let twice = merged_utilities(r, m, once);
    assert forall|i: int| 0 <= i < u.len() implies twice[i] == once[i] by {
        if r[i].weight == 0 {
            let row = m[r[i].canon_index as int] as int;
            assert(r[row].weight != 0);
            assert(once[row] == u[row]);
        }
    }
    assert(twice =~= once);
}

/// After a merge, every alias row equals the representative row it
/// names: all members of a bucket carry one value.
pub proof fn lemma_merge_aligns_buckets(r: Seq<Combination>, m: Seq<usize>, u: Seq<i64>)
    requires
        canon_table_ok(r, m),
        u.len() == r.len(),
    ensures
        forall|i: int|
            0 <= i < r.len() && (#[trigger] r[i]).weight == 0 ==> merged_utilities(r, m, u)[i]
                == merged_utilities(r, m, u)[m[r[i].canon_index as int] as int],
{
    assert forall|i: int|
        0 <= i < r.len() && (#[trigger] r[i]).weight == 0 implies merged_utilities(r, m, u)[i]
        == merged_utilities(r, m, u)[m[r[i].canon_index as int] as int] by {
        let row = m[r[i].canon_index as int] as int;
        assert(r[row].weight != 0);
    }
}

proof fn lemma_scatter_untouched(dst: Seq<i64>, map: Seq<usize>, util: Seq<i64>, n: int, p: int)
    requires
        0 <= n <= map.len(),
        0 <= p < dst.len(),
        forall|i: int| 0 <= i < n ==> 0 <= #[trigger] map[i] < dst.len(),
        forall|i: int| 0 <= i < n ==> #[trigger] map[i] != p,
    ensures
        scatter_add(dst, map, util, n)[p] == dst[p],
    decreases n,
{
    if n > 0 {
        lemma_scatter_len(dst, map, util, n - 1);
        lemma_scatter_untouched(dst, map, util, n - 1, p);
    }
}

proof fn lemma_scatter_len(dst: Seq<i64>, map: Seq<usize>, util: Seq<i64>, n: int)
    requires
        0 <= n <= map.len(),
        forall|i: int| 0 <= i < n ==> 0 <= #[trigger] map[i] < dst.len(),
    ensures
        scatter_add(dst, map, util, n).len() == dst.len(),
    decreases n,
{
    if n > 0 {
        lemma_scatter_len(dst, map, util, n - 1);
    }
}

proof fn lemma_scatter_hits(dst: Seq<i64>, map: Seq<usize>, util: Seq<i64>, n: int, i: int)
    requires
        0 <= i < n <= map.len(),
        util.len() == map.len(),
        forall|k: int| 0 <= k < n ==> 0 <= #[trigger] map[k] < dst.len(),
        forall|a: int, b: int| 0 <= a < b < n ==> map[a] != map[b],
        forall|k: int| 0 <= k < dst.len() ==> #[trigger] dst[k] == 0i64,
    ensures
        scatter_add(dst, map, util, n)[map[i] as int] == util[i],
    decreases n,
{
    lemma_scatter_len(dst, map, util, n - 1);
    if i == n - 1 {
        lemma_scatter_untouched(dst, map, util, n - 1, map[i] as int);
    } else {
        lemma_scatter_hits(dst, map, util, n - 1, i);
    }
}

/// Pushing child utilities back to the parent street and reading them
/// forward again returns the child utilities unchanged, when every
/// child hand reads its own parent row: without isomorphism the
/// backward and forward projections invert each other on the hands
/// that survive the board filter.
pub proof fn lemma_projection_round_trip(
    child: Seq<Combination>,
    m: Seq<usize>,
    parent: Seq<Combination>,
    util: Seq<i64>,
    zeros: Seq<i64>,
)
    requires
        range_ok(child),
        range_ok(parent),
        hands_match(child, m, parent),
        util.len() == m.len(),
        zeros.len() == parent.len(),
        forall|k: int| 0 <= k < zeros.len() ==> #[trigger] zeros[k] == 0i64,
    ensures
        gathered(scatter_add(zeros, m, util, m.len() as int), m) == util,
{
    let n = m.len() as int;
    assert forall|a: int, b: int| 0 <= a < b < n implies rows_differ(m, a, b) by {
        if m[a] == m[b] {
            assert(parent[m[a] as int].hand == child[a].hand);
            assert(parent[m[b] as int].hand == child[b].hand);
            assert(child[a].wf() && child[b].wf());
            assert(child[a].raw_index == child[b].raw_index);
        }
    }
    let scattered = scatter_add(zeros, m, util, n);
    lemma_scatter_len(zeros, m, util, n);
    assert forall|i: int| 0 <= i < n implies gathered(scattered, m)[i] == util[i] by {
        lemma_scatter_hits(zeros, m, util, n, i);
    }
    assert(gathered(scattered, m) =~= util);
}

/// Two child rows read different parent rows.
pub open spec fn rows_differ(m: Seq<usize>, a: int, b: int) -> bool {
    m[a] != m[b]
}

} // verus!
