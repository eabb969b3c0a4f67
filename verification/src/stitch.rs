//! Re-chaining distinct directed edges into polylines.
//!
//! Edges are followed from position to position: a chain starts at a path source (a position with
//! more outgoing than incoming edges, in first-seen order), keeps taking the lowest-numbered unused
//! edge leaving its current end, and stops where none is left; whatever remains afterwards forms
//! closed loops, each started at its lowest-numbered unused edge.

use vstd::prelude::*;

use crate::grid::runs_view;
use crate::mosaic::{edges_wf, key_of};
use crate::vertex::{Coord, Vertex};

verus! {

/// The keys of a chain's consecutive vertex pairs.
pub open spec fn run_keys<V: Vertex>(c: Seq<V>) -> Seq<(Coord, Coord)> {
    Seq::new(
        if c.len() == 0 {
            0
        } else {
            (c.len() - 1) as nat
        },
        |j: int| (c[j].pos(), c[j + 1].pos()),
    )
}

/// The keys of all chains' consecutive vertex pairs, chain after chain.
pub open spec fn chain_keys<V: Vertex>(cs: Seq<Seq<V>>) -> Seq<(Coord, Coord)>
    decreases cs.len(),
{
    if cs.len() == 0 {
        Seq::empty()
    } else {
        chain_keys(cs.drop_last()) + run_keys(cs.last())
    }
}

/// Chain `c` follows `edges`: each step is an edge, each vertex after the first is that edge's end
/// vertex, and the first vertex is the first edge's start vertex.
pub open spec fn follows<V: Vertex>(c: Seq<V>, edges: Seq<(V, V)>) -> bool {
    forall|j: int|
        #![trigger c[j]]
        1 <= j < c.len() ==> exists|i: int|
            0 <= i < edges.len() && #[trigger] key_of(edges[i]) == (c[j - 1].pos(), c[j].pos())
                && edges[i].1 == c[j] && (j == 1 ==> edges[i].0 == c[0])
}

/// `c` is the chain walking the edges numbered `idx`, in order.
spec fn chain_of<V: Vertex>(c: Seq<V>, idx: Seq<int>, edges: Seq<(V, V)>) -> bool {
    &&& idx.len() >= 1
    &&& c.len() == idx.len() + 1
    &&& 0 <= idx[0] < edges.len()
    &&& c[0] == edges[idx[0]].0
    &&& forall|k: int|
        #![trigger idx[k]]
        0 <= k < idx.len() ==> 0 <= idx[k] < edges.len() && c[k + 1] == edges[idx[k]].1
            && c[k].pos() == edges[idx[k]].0.pos()
}

/// The index lists, concatenated.
spec fn flat(ps: Seq<Seq<int>>) -> Seq<int>
    decreases ps.len(),
{
    if ps.len() == 0 {
        Seq::empty()
    } else {
        flat(ps.drop_last()) + ps.last()
    }
}

/// The keys of the edges numbered `order`.
spec fn order_keys<V: Vertex>(edges: Seq<(V, V)>, order: Seq<int>) -> Seq<(Coord, Coord)> {
    order.map_values(|i: int| key_of(edges[i]))
}

/// The stitching state: `used` marks exactly the edges in `order`, which lists every chain's
/// edges chain after chain, each chain walking its edges.
spec fn stitch_state<V: Vertex>(
    edges: Seq<(V, V)>,
    used: Seq<bool>,
    cs: Seq<Seq<V>>,
    parts: Seq<Seq<int>>,
    order: Seq<int>,
) -> bool {
    &&& used.len() == edges.len()
    &&& cs.len() == parts.len()
    &&& order == flat(parts)
    &&& order.no_duplicates()
    &&& forall|k: int| 0 <= k < order.len() ==> 0 <= #[trigger] order[k] < edges.len()
    &&& forall|i: int| 0 <= i < edges.len() ==> (used[i] <==> order.contains(i))
    &&& forall|c: int| 0 <= c < cs.len() ==> #[trigger] chain_of(cs[c], parts[c], edges)
    &&& chain_keys(cs) == order_keys(edges, order)
}

/// How many of the first `n` edges leave position `p`.
pub open spec fn out_count<V: Vertex>(edges: Seq<(V, V)>, p: Coord, n: int) -> int
    decreases n,
{
    if n <= 0 {
        0
    } else {
        out_count(edges, p, n - 1) + if edges[n - 1].0.pos() == p {
            1int
        } else {
            0int
        }
    }
}

/// How many of the first `n` edges arrive at position `p`.
pub open spec fn in_count<V: Vertex>(edges: Seq<(V, V)>, p: Coord, n: int) -> int
    decreases n,
{
    if n <= 0 {
        0
    } else {
        in_count(edges, p, n - 1) + if edges[n - 1].1.pos() == p {
            1int
        } else {
            0int
        }
    }
}

/// How many of the first `n` edges leave `p` and are still unused.
spec fn free_out<V: Vertex>(edges: Seq<(V, V)>, used: Seq<bool>, p: Coord, n: int) -> int
    decreases n,
{
    if n <= 0 {
        0
    } else {
        free_out(edges, used, p, n - 1) + if !used[n - 1] && edges[n - 1].0.pos() == p {
            1int
        } else {
            0int
        }
    }
}

/// How many of the first `n` edges arrive at `p` and are still unused.
spec fn free_in<V: Vertex>(edges: Seq<(V, V)>, used: Seq<bool>, p: Coord, n: int) -> int
    decreases n,
{
    if n <= 0 {
        0
    } else {
        free_in(edges, used, p, n - 1) + if !used[n - 1] && edges[n - 1].1.pos() == p {
            1int
        } else {
            0int
        }
    }
}

/// The unused edges leaving `p` less those arriving there.
spec fn surplus<V: Vertex>(edges: Seq<(V, V)>, used: Seq<bool>, p: Coord) -> int {
    free_out(edges, used, p, edges.len() as int) - free_in(edges, used, p, edges.len() as int)
}

/// Chain `c` is maximal at its start: it begins where more edges leave than arrive, or it is
/// closed.
pub open spec fn starts_well<V: Vertex>(c: Seq<V>, edges: Seq<(V, V)>) -> bool {
    let s = c[0].pos();
    out_count(edges, s, edges.len() as int) > in_count(edges, s, edges.len() as int) || s
        == c.last().pos()
}

/// Chain `k` of `cs` is maximal at its end: every edge leaving its last position is walked by
/// it or by an earlier chain.
pub open spec fn ends_well<V: Vertex>(cs: Seq<Seq<V>>, k: int, edges: Seq<(V, V)>) -> bool {
    forall|i: int|
        0 <= i < edges.len() && (#[trigger] edges[i]).0.pos() == cs[k].last().pos() ==> chain_keys(
            cs.take(k + 1),
        ).contains(key_of(edges[i]))
}

/// Marking the unused edge `c` used takes it off the free counts of its endpoints.
proof fn lemma_free_mark<V: Vertex>(edges: Seq<(V, V)>, used: Seq<bool>, c: int, p: Coord, n: int)
    requires
        0 <= c < used.len(),
        used.len() == edges.len(),
        !used[c],
        0 <= n <= edges.len(),
    ensures
        free_out(edges, used.update(c, true), p, n) == free_out(edges, used, p, n) - (if c < n
            && edges[c].0.pos() == p {
            1int
        } else {
            0int
        }),
        free_in(edges, used.update(c, true), p, n) == free_in(edges, used, p, n) - (if c < n
            && edges[c].1.pos() == p {
            1int
        } else {
            0int
        }),
    decreases n,
{
    if n > 0 {
        lemma_free_mark(edges, used, c, p, n - 1);
    }
}

/// Free counts are never negative.
proof fn lemma_free_nonneg<V: Vertex>(edges: Seq<(V, V)>, used: Seq<bool>, p: Coord, n: int)
    ensures
        free_out(edges, used, p, n) >= 0,
        free_in(edges, used, p, n) >= 0,
    decreases n,
{
    if n > 0 {
        lemma_free_nonneg(edges, used, p, n - 1);
    }
}

/// With every edge leaving `p` used, none is free there.
proof fn lemma_free_out_zero<V: Vertex>(edges: Seq<(V, V)>, used: Seq<bool>, p: Coord, n: int)
    requires
        n <= edges.len(),
        forall|i: int| 0 <= i < n && (#[trigger] edges[i]).0.pos() == p ==> used[i],
    ensures
        free_out(edges, used, p, n) == 0,
    decreases n,
{
    if n > 0 {
        lemma_free_out_zero(edges, used, p, n - 1);
    }
}

/// Before any edge is used, the free counts are the plain counts.
proof fn lemma_free_fresh<V: Vertex>(edges: Seq<(V, V)>, used: Seq<bool>, p: Coord, n: int)
    requires
        n <= used.len(),
        forall|i: int| 0 <= i < n ==> !used[i],
    ensures
        free_out(edges, used, p, n) == out_count(edges, p, n),
        free_in(edges, used, p, n) == in_count(edges, p, n),
    decreases n,
{
    if n > 0 {
        lemma_free_fresh(edges, used, p, n - 1);
    }
}

/// A position no edge touches has no free edges.
proof fn lemma_free_untouched<V: Vertex>(edges: Seq<(V, V)>, used: Seq<bool>, p: Coord, n: int)
    requires
        n <= edges.len(),
        forall|i: int| 0 <= i < n ==> (#[trigger] edges[i]).0.pos() != p && edges[i].1.pos() != p,
    ensures
        free_out(edges, used, p, n) == 0,
        free_in(edges, used, p, n) == 0,
    decreases n,
{
    if n > 0 {
        lemma_free_untouched(edges, used, p, n - 1);
    }
}

/// How often `x` occurs among the first `k` positions of `ps`.
spec fn hits(ps: Seq<Coord>, x: Coord, k: int) -> int
    decreases k,
{
    if k <= 0 {
        0
    } else {
        hits(ps, x, k - 1) + if ps[k - 1] == x {
            1int
        } else {
            0int
        }
    }
}

/// A position listed once is hit once.
proof fn lemma_hits_once(ps: Seq<Coord>, x: Coord, k: int)
    requires
        ps.no_duplicates(),
        0 <= k <= ps.len(),
    ensures
        hits(ps, x, k) == (if ps.take(k).contains(x) {
            1int
        } else {
            0int
        }),
    decreases k,
{
    if k > 0 {
        lemma_hits_once(ps, x, k - 1);
        if ps.take(k - 1).contains(x) {
            let j = choose|j: int| 0 <= j < k - 1 && #[trigger] ps.take(k - 1)[j] == x;
            assert(ps[j] == x);
            assert(ps.take(k)[j] == x);
            if ps[k - 1] == x {
                assert(ps[j] == ps[k - 1]);
            }
        } else {
            if ps[k - 1] == x {
                assert(ps.take(k)[k - 1] == x);
            } else {
                assert forall|j: int| 0 <= j < k implies ps.take(k)[j] != x by {
                    if j < k - 1 {
                        assert(ps.take(k - 1)[j] == ps[j]);
                    }
                }
            }
        }
    }
}

/// The surpluses, over the first `n` edges, of the first `k` listed positions, summed.
spec fn sum_surplus<V: Vertex>(
    edges: Seq<(V, V)>,
    used: Seq<bool>,
    ps: Seq<Coord>,
    k: int,
    n: int,
) -> int
    decreases k,
{
    if k <= 0 {
        0
    } else {
        sum_surplus(edges, used, ps, k - 1, n) + free_out(edges, used, ps[k - 1], n) - free_in(
            edges,
            used,
            ps[k - 1],
            n,
        )
    }
}

/// One more edge adds its hits at its start and takes those at its end.
proof fn lemma_sum_step<V: Vertex>(
    edges: Seq<(V, V)>,
    used: Seq<bool>,
    ps: Seq<Coord>,
    k: int,
    n: int,
)
    requires
        1 <= n <= edges.len(),
        n <= used.len(),
        0 <= k <= ps.len(),
    ensures
        sum_surplus(edges, used, ps, k, n) == sum_surplus(edges, used, ps, k, n - 1) + (if !used[n
            - 1] {
            hits(ps, edges[n - 1].0.pos(), k) - hits(ps, edges[n - 1].1.pos(), k)
        } else {
            0int
        }),
    decreases k,
{
    if k > 0 {
        lemma_sum_step(edges, used, ps, k - 1, n);
    }
}

/// Over a list of distinct positions holding every endpoint, the surpluses sum to nothing.
proof fn lemma_sum_zero<V: Vertex>(edges: Seq<(V, V)>, used: Seq<bool>, ps: Seq<Coord>, n: int)
    requires
        0 <= n <= edges.len(),
        n <= used.len(),
        ps.no_duplicates(),
        forall|i: int|
            0 <= i < n ==> ps.contains((#[trigger] edges[i]).0.pos()) && ps.contains(edges[i].1.pos()),
    ensures
        sum_surplus(edges, used, ps, ps.len() as int, n) == 0,
    decreases n,
{
    if n == 0 {
        lemma_sum_empty(edges, used, ps, ps.len() as int);
    } else {
        lemma_sum_zero(edges, used, ps, n - 1);
        lemma_sum_step(edges, used, ps, ps.len() as int, n);
        let e = edges[n - 1];
        lemma_hits_once(ps, e.0.pos(), ps.len() as int);
        lemma_hits_once(ps, e.1.pos(), ps.len() as int);
        assert(ps.take(ps.len() as int) =~= ps);
    }
}

/// No edges, no surplus.
proof fn lemma_sum_empty<V: Vertex>(edges: Seq<(V, V)>, used: Seq<bool>, ps: Seq<Coord>, k: int)
    ensures
        sum_surplus(edges, used, ps, k, 0) == 0,
    decreases k,
{
    if k > 0 {
        lemma_sum_empty(edges, used, ps, k - 1);
    }
}

/// Surpluses none of which is positive and which sum to nothing are all nothing.
proof fn lemma_sum_nonpos<V: Vertex>(edges: Seq<(V, V)>, used: Seq<bool>, ps: Seq<Coord>, k: int)
    requires
        0 <= k <= ps.len(),
        forall|j: int| 0 <= j < k ==> surplus(edges, used, #[trigger] ps[j]) <= 0,
    ensures
        sum_surplus(edges, used, ps, k, edges.len() as int) <= 0,
        sum_surplus(edges, used, ps, k, edges.len() as int) == 0 ==> forall|j: int|
            0 <= j < k ==> surplus(edges, used, #[trigger] ps[j]) == 0,
    decreases k,
{
    if k > 0 {
        lemma_sum_nonpos(edges, used, ps, k - 1);
    }
}

/// Distinct indices below `n` number at most `n`, and exactly `n` when every index occurs.
proof fn lemma_distinct_indices(order: Seq<int>, n: int)
    requires
        0 <= n,
        order.no_duplicates(),
        forall|k: int| 0 <= k < order.len() ==> 0 <= #[trigger] order[k] < n,
    ensures
        order.len() <= n,
        (forall|i: int| 0 <= i < n ==> order.contains(i)) ==> order.len() == n,
{
    vstd::set_lib::lemma_int_range(0, n);
    let r = vstd::set_lib::set_int_range(0, n);
    assert(order.to_set().subset_of(r));
    vstd::set_lib::lemma_len_subset(order.to_set(), r);
    order.unique_seq_to_set();
    if forall|i: int| 0 <= i < n ==> order.contains(i) {
        assert(order.to_set() =~= r);
    }
}

/// A walked chain's keys are the keys of the edges it walks.
proof fn lemma_run_keys<V: Vertex>(c: Seq<V>, idx: Seq<int>, edges: Seq<(V, V)>)
    requires
        chain_of(c, idx, edges),
    ensures
        run_keys(c) == order_keys(edges, idx),
        follows(c, edges),
{
    assert(run_keys(c) =~= order_keys(edges, idx)) by {
        assert forall|k: int| 0 <= k < idx.len() implies #[trigger] run_keys(c)[k] == order_keys(
            edges,
            idx,
        )[k] by {
            assert(c[k].pos() == edges[idx[k]].0.pos());
            assert(c[k + 1] == edges[idx[k]].1);
        }
    }
    assert forall|j: int| #![trigger c[j]] 1 <= j < c.len() implies exists|i: int|
        0 <= i < edges.len() && #[trigger] key_of(edges[i]) == (c[j - 1].pos(), c[j].pos())
            && edges[i].1 == c[j] && (j == 1 ==> edges[i].0 == c[0]) by {
        let i = idx[j - 1];
        assert(0 <= i < edges.len());
        assert(c[j] == edges[i].1);
        assert(c[j - 1].pos() == edges[i].0.pos());
        assert(key_of(edges[i]) == (c[j - 1].pos(), c[j].pos()));
    }
}

/// Recording one more walked chain keeps the stitching state.
proof fn lemma_state_push<V: Vertex>(
    edges: Seq<(V, V)>,
    used: Seq<bool>,
    cs: Seq<Seq<V>>,
    parts: Seq<Seq<int>>,
    order: Seq<int>,
    c: Seq<V>,
    idx: Seq<int>,
    used2: Seq<bool>,
)
    requires
        stitch_state(edges, used, cs, parts, order),
        chain_of(c, idx, edges),
        (order + idx).no_duplicates(),
        used2.len() == edges.len(),
        forall|i: int| 0 <= i < edges.len() ==> (used2[i] <==> (order + idx).contains(i)),
    ensures
        stitch_state(edges, used2, cs.push(c), parts.push(idx), order + idx),
{
    let cs2 = cs.push(c);
    let ps2 = parts.push(idx);
    assert(ps2.drop_last() =~= parts);
    assert(cs2.drop_last() =~= cs);
    assert(flat(ps2) == order + idx);
    lemma_run_keys(c, idx, edges);
    assert(chain_keys(cs2) == chain_keys(cs) + run_keys(c));
    assert(order_keys(edges, order + idx) =~= order_keys(edges, order) + order_keys(edges, idx));
    assert forall|k: int| 0 <= k < (order + idx).len() implies 0 <= #[trigger] (order + idx)[k]
        < edges.len() by {
        if k >= order.len() {
            assert((order + idx)[k] == idx[k - order.len()]);
        }
    }
    assert forall|x: int| 0 <= x < cs2.len() implies #[trigger] chain_of(cs2[x], ps2[x], edges) by {
        if x < cs.len() {
            assert(cs2[x] == cs[x] && ps2[x] == parts[x]);
        }
    }
}

/// Recording one more chain that stopped where every leaving edge was used keeps every chain
/// maximal at its end.
proof fn lemma_ends_push<V: Vertex>(
    edges: Seq<(V, V)>,
    used2: Seq<bool>,
    cs: Seq<Seq<V>>,
    parts: Seq<Seq<int>>,
    order: Seq<int>,
    c: Seq<V>,
    idx: Seq<int>,
)
    requires
        stitch_state(edges, used2, cs.push(c), parts.push(idx), order + idx),
        forall|k: int| 0 <= k < cs.len() ==> #[trigger] ends_well(cs, k, edges),
        forall|i: int|
            0 <= i < edges.len() && (#[trigger] edges[i]).0.pos() == c.last().pos() ==> used2[i],
    ensures
        forall|k: int| 0 <= k < cs.len() + 1 ==> #[trigger] ends_well(cs.push(c), k, edges),
{
    let cs2 = cs.push(c);
    let o2 = order + idx;
    assert forall|k: int| 0 <= k < cs.len() + 1 implies #[trigger] ends_well(cs2, k, edges) by {
        if k < cs.len() {
            assert(cs2.take(k + 1) =~= cs.take(k + 1));
            assert(cs2[k] == cs[k]);
            assert(ends_well(cs, k, edges));
        } else {
            assert(cs2.take(k + 1) =~= cs2);
            assert forall|i: int|
                0 <= i < edges.len() && (#[trigger] edges[i]).0.pos() == cs2[k].last().pos()
                    implies chain_keys(cs2.take(k + 1)).contains(key_of(edges[i])) by {
                assert(used2[i]);
                assert(o2.contains(i));
                let x = choose|x: int| 0 <= x < o2.len() && o2[x] == i;
                assert(order_keys(edges, o2)[x] == key_of(edges[i]));
            }
        }
    }
}

/// The lowest-numbered unused edge, from `i` on, leaving position `p`.
pub open spec fn first_unused<V: Vertex>(edges: Seq<(V, V)>, used: Seq<bool>, p: Coord, i: int) -> Option<
    int,
>
    decreases edges.len() - i,
{
    if i < 0 || i >= edges.len() {
        None
    } else if !used[i] && edges[i].0.pos() == p {
        Some(i)
    } else {
        first_unused(edges, used, p, i + 1)
    }
}

/// How many edges are still unused.
pub open spec fn unused_count(used: Seq<bool>) -> nat
    decreases used.len(),
{
    if used.len() == 0 {
        0
    } else {
        unused_count(used.drop_last()) + (if used.last() {
            0nat
        } else {
            1nat
        })
    }
}

/// Marking an unused edge used leaves one fewer unused.
pub proof fn lemma_unused_mark(used: Seq<bool>, c: int)
    requires
        0 <= c < used.len(),
        !used[c],
    ensures
        unused_count(used.update(c, true)) + 1 == unused_count(used),
    decreases used.len(),
{
    let u2 = used.update(c, true);
    if c < used.len() - 1 {
        assert(u2.drop_last() =~= used.drop_last().update(c, true));
        lemma_unused_mark(used.drop_last(), c);
    } else {
        assert(u2.drop_last() =~= used.drop_last());
    }
}

/// The chain walked on from `chain` with the edge `next` still to take: each step marks the edge
/// used, appends its far vertex and goes on with the lowest-numbered unused edge leaving there,
/// until none is left. The chain and the edges used afterwards.
pub open spec fn walk<V: Vertex>(
    edges: Seq<(V, V)>,
    used: Seq<bool>,
    chain: Seq<V>,
    next: Option<int>,
) -> (Seq<V>, Seq<bool>)
    decreases unused_count(used),
{
    match next {
        Some(c) => if 0 <= c < used.len() && c < edges.len() && !used[c] {
            let u2 = used.update(c, true);
            let q = edges[c].1;
            proof {
                lemma_unused_mark(used, c);
            }
            walk(edges, u2, chain.push(q), first_unused(edges, u2, q.pos(), 0))
        } else {
            (chain, used)
        },
        None => (chain, used),
    }
}

/// The chain started at the unused edge `first`, and the edges used afterwards.
pub open spec fn chain_from<V: Vertex>(edges: Seq<(V, V)>, used: Seq<bool>, first: int) -> (
    Seq<V>,
    Seq<bool>,
) {
    walk(edges, used, seq![edges[first].0], Some(first))
}

/// `Option<usize>` as `Option<int>`.
pub open spec fn opt_index(o: Option<usize>) -> Option<int> {
    match o {
        Some(c) => Some(c as int),
        None => None,
    }
}

/// The lowest-numbered unused edge leaving position `p`.
fn next_unused<V: Vertex>(edges: &Vec<(V, V)>, used: &Vec<bool>, p: Coord) -> (r: Option<usize>)
    requires
        used@.len() == edges@.len(),
    ensures
        match r {
            Some(i) => i < edges@.len() && !used@[i as int] && edges@[i as int].0.pos() == p,
            None => forall|i: int|
                0 <= i < edges@.len() ==> used@[i] || (#[trigger] edges@[i]).0.pos() != p,
        },
        opt_index(r) == first_unused(edges@, used@, p, 0),
{
    let mut i: usize = 0;
    while i < edges.len()
        invariant
            used@.len() == edges@.len(),
            i <= edges@.len(),
            forall|j: int| 0 <= j < i ==> used@[j] || (#[trigger] edges@[j]).0.pos() != p,
            first_unused(edges@, used@, p, 0) == first_unused(edges@, used@, p, i as int),
        decreases edges@.len() - i,
    {
        let s = edges[i].0.position();
        if !used[i] && s.x == p.x && s.y == p.y {
            return Some(i);
        }
        i = i + 1;
    }
    None
}

/// Walk a chain from the unused edge `first`, each step taking the lowest-numbered unused edge
/// leaving the current end, until none is left there. Returns the chain and the edges it used.
fn build_chain<V: Vertex>(
    edges: &Vec<(V, V)>,
    used: &mut Vec<bool>,
    first: usize,
    Ghost(order): Ghost<Seq<int>>,
) -> (r: (Vec<V>, Ghost<Seq<int>>))
    requires
        old(used)@.len() == edges@.len(),
        first < edges@.len(),
        !old(used)@[first as int],
        order.no_duplicates(),
        forall|k: int| 0 <= k < order.len() ==> 0 <= #[trigger] order[k] < edges@.len(),
        forall|i: int| 0 <= i < edges@.len() ==> (old(used)@[i] <==> order.contains(i)),
    ensures
        final(used)@.len() == edges@.len(),
        (r.0@, final(used)@) == chain_from(edges@, old(used)@, first as int),
        chain_of(r.0@, r.1@, edges@),
        r.1@[0] == first,
        (order + r.1@).no_duplicates(),
        forall|i: int| 0 <= i < edges@.len() ==> (final(used)@[i] <==> (order + r.1@).contains(i)),
        forall|i: int|
            0 <= i < edges@.len() && (#[trigger] edges@[i]).0.pos() == r.0@.last().pos()
                ==> final(used)@[i],
        forall|p: Coord|
            #[trigger] surplus(edges@, final(used)@, p) == surplus(edges@, old(used)@, p) - (if p
                == r.0@[0].pos() {
                1int
            } else {
                0int
            }) + (if p == r.0@.last().pos() {
                1int
            } else {
                0int
            }),
{
    let ghost n = edges@.len() as int;
    let ghost used0 = used@;
    let mut chain: Vec<V> = Vec::new();
    chain.push(edges[first].0);
    let ghost mut idx: Seq<int> = Seq::empty();
    let mut next: Option<usize> = Some(first);
    proof {
        assert(order + idx =~= order);
        lemma_distinct_indices(order, n);
        assert(chain@ =~= seq![edges@[first as int].0]);
    }
    while next.is_some()
        invariant
            n == edges@.len(),
            used@.len() == n,
            first < n,
            chain@.len() == idx.len() + 1,
            chain@[0] == edges@[first as int].0,
            idx.len() > 0 ==> idx[0] == first,
            forall|k: int|
                #![trigger idx[k]]
                0 <= k < idx.len() ==> 0 <= idx[k] < n && chain@[k + 1] == edges@[idx[k]].1
                    && chain@[k].pos() == edges@[idx[k]].0.pos(),
            (order + idx).no_duplicates(),
            forall|k: int| 0 <= k < (order + idx).len() ==> 0 <= #[trigger] (order + idx)[k] < n,
            forall|i: int| 0 <= i < n ==> (used@[i] <==> (order + idx).contains(i)),
            (order + idx).len() <= n,
            forall|p: Coord|
                #[trigger] surplus(edges@, used@, p) == surplus(edges@, used0, p) - (if p
                    == chain@[0].pos() {
                    1int
                } else {
                    0int
                }) + (if p == chain@.last().pos() {
                    1int
                } else {
                    0int
                }),
            walk(edges@, used@, chain@, opt_index(next)) == chain_from(edges@, used0, first as int),
            match next {
                Some(c) => c < n && !used@[c as int] && (idx.len() == 0 ==> c == first) && edges@[c as int].0.pos()
                    == chain@.last().pos(),
                None => idx.len() >= 1 && forall|i: int|
                    0 <= i < n && (#[trigger] edges@[i]).0.pos() == chain@.last().pos() ==> used@[i],
            },
        decreases n - (order + idx).len() + (if next is Some { 1int } else { 0int }),
    {
        let cur = next.unwrap();
        let ghost before = order + idx;
        let ghost ub = used@;
        used.set(cur, true);
        proof {
            assert(used@ == ub.update(cur as int, true));
            assert forall|p: Coord| #[trigger] surplus(edges@, used@, p) == surplus(edges@, ub, p) - (if p
                == edges@[cur as int].0.pos() {
                1int
            } else {
                0int
            }) + (if p == edges@[cur as int].1.pos() {
                1int
            } else {
                0int
            }) by {
                lemma_free_mark(edges@, ub, cur as int, p, n);
            }
        }
        proof {
            idx = idx.push(cur as int);
            assert(order + idx =~= before.push(cur as int));
            assert(!before.contains(cur as int));
            assert forall|i: int| 0 <= i < n implies (used@[i] <==> (order + idx).contains(i)) by {
                if i != cur {
                    assert((order + idx).contains(i) ==> before.contains(i)) by {
                        if (order + idx).contains(i) {
                            let x = choose|x: int| 0 <= x < (order + idx).len() && (order + idx)[x] == i;
                            assert(x < before.len());
                            assert(before[x] == i);
                        }
                    }
                    assert(before.contains(i) ==> (order + idx).contains(i)) by {
                        if before.contains(i) {
                            let x = choose|x: int| 0 <= x < before.len() && before[x] == i;
                            assert((order + idx)[x] == i);
                        }
                    }
                } else {
                    assert((order + idx)[before.len() as int] == i);
                }
            }
            assert forall|k: int| 0 <= k < (order + idx).len() implies 0 <= #[trigger] (order
                + idx)[k] < n by {
                if k < before.len() {
                    assert((order + idx)[k] == before[k]);
                }
            }
            lemma_distinct_indices(order + idx, n);
        }
        let q = edges[cur].1;
        let ghost chain0 = chain@;
        chain.push(q);
        proof {
            assert forall|k: int|
                #![trigger idx[k]]
                0 <= k < idx.len() implies 0 <= idx[k] < n && chain@[k + 1] == edges@[idx[k]].1
                    && chain@[k].pos() == edges@[idx[k]].0.pos() by {
                if k < idx.len() - 1 {
                    assert(chain@[k + 1] == chain0[k + 1]);
                    assert(chain@[k] == chain0[k]);
                } else {
                    assert(chain@[k] == chain0.last());
                }
            }
        }
        next = next_unused(edges, used, q.position());
    }
    (chain, Ghost(idx))
}

/// The positions the edges from `i` on touch, in first-seen order, after those in `pts`.
pub open spec fn seen_points<V: Vertex>(edges: Seq<(V, V)>, i: int, pts: Seq<Coord>) -> Seq<Coord>
    decreases edges.len() - i,
{
    if i < 0 || i >= edges.len() {
        pts
    } else {
        let a = edges[i].0.pos();
        let b = edges[i].1.pos();
        let p1 = if pts.contains(a) {
            pts
        } else {
            pts.push(a)
        };
        let p2 = if p1.contains(b) {
            p1
        } else {
            p1.push(b)
        };
        seen_points(edges, i + 1, p2)
    }
}

/// `k` more attempts to start a chain at `p`, each at the lowest-numbered unused edge leaving `p`
/// while one is left: the chains and the edges used afterwards.
pub open spec fn chains_at<V: Vertex>(
    edges: Seq<(V, V)>,
    p: Coord,
    k: int,
    used: Seq<bool>,
    chains: Seq<Seq<V>>,
) -> (Seq<Seq<V>>, Seq<bool>)
    decreases k,
{
    if k <= 0 {
        (chains, used)
    } else {
        match first_unused(edges, used, p, 0) {
            Some(f) => {
                let w = chain_from(edges, used, f);
                chains_at(edges, p, k - 1, w.1, chains.push(w.0))
            },
            None => chains_at(edges, p, k - 1, used, chains),
        }
    }
}

/// The chains started at the path sources from `pts[pi]` on: each position starts as many as it
/// has more outgoing than incoming edges.
pub open spec fn source_chains<V: Vertex>(
    edges: Seq<(V, V)>,
    pts: Seq<Coord>,
    pi: int,
    used: Seq<bool>,
    chains: Seq<Seq<V>>,
) -> (Seq<Seq<V>>, Seq<bool>)
    decreases pts.len() - pi,
{
    if pi < 0 || pi >= pts.len() {
        (chains, used)
    } else {
        let p = pts[pi];
        let n = edges.len() as int;
        let r = chains_at(edges, p, out_count(edges, p, n) - in_count(edges, p, n), used, chains);
        source_chains(edges, pts, pi + 1, r.1, r.0)
    }
}

/// The closed loops started, from edge `i` on, at each edge still unused when its turn comes.
pub open spec fn loop_chains<V: Vertex>(
    edges: Seq<(V, V)>,
    i: int,
    used: Seq<bool>,
    chains: Seq<Seq<V>>,
) -> (Seq<Seq<V>>, Seq<bool>)
    decreases edges.len() - i,
{
    if i < 0 || i >= edges.len() {
        (chains, used)
    } else if i < used.len() && !used[i] {
        let w = chain_from(edges, used, i);
        loop_chains(edges, i + 1, w.1, chains.push(w.0))
    } else {
        loop_chains(edges, i + 1, used, chains)
    }
}

/// The chains `edges` are rejoined into: first the chains from the path sources, the positions
/// taken in first-seen order, then the closed loops left over.
pub open spec fn stitched<V: Vertex>(edges: Seq<(V, V)>) -> Seq<Seq<V>> {
    let n = edges.len();
    let pts = seen_points(edges, 0, Seq::empty());
    let s = source_chains(edges, pts, 0, Seq::new(n, |i: int| false), Seq::empty());
    loop_chains(edges, 0, s.1, s.0).0
}

/// Rejoin distinct directed edges into chains: every edge is walked exactly once, each chain
/// walking edge after edge.
pub(crate) fn stitch<V: Vertex>(edges: &Vec<(V, V)>) -> (chains: Vec<Vec<V>>)
    requires
        edges_wf(edges@),
    ensures
        forall|c: int| 0 <= c < chains@.len() ==> #[trigger] chains@[c]@.len() >= 2,
        forall|c: int| 0 <= c < chains@.len() ==> follows(#[trigger] chains@[c]@, edges@),
        chain_keys(runs_view(chains@)).len() == edges@.len(),
        chain_keys(runs_view(chains@)).no_duplicates(),
        forall|k: (Coord, Coord)|
            chain_keys(runs_view(chains@)).contains(k) <==> exists|i: int|
                0 <= i < edges@.len() && #[trigger] key_of(edges@[i]) == k,
        forall|c: int| 0 <= c < chains@.len() ==> starts_well(#[trigger] chains@[c]@, edges@),
        forall|c: int| 0 <= c < chains@.len() ==> #[trigger] ends_well(runs_view(chains@), c, edges@),
        runs_view(chains@) == stitched(edges@),
{
    let n = edges.len();
    let ghost ne = edges@.len() as int;
    let mut used: Vec<bool> = Vec::new();
    let mut i: usize = 0;
    while i < n
        invariant
            n == edges@.len(),
            i <= n,
            used@.len() == i,
            forall|j: int| 0 <= j < i ==> !used@[j],
        decreases n - i,
    {
        used.push(false);
        i = i + 1;
    }
    let ghost u0 = used@;
    assert(u0 =~= Seq::new(edges@.len(), |j: int| false));
    // Positions in first-seen order.
    let mut points: Vec<Coord> = Vec::new();
    let mut i: usize = 0;
    while i < n
        invariant
            n == edges@.len(),
            i <= n,
            points@.no_duplicates(),
            seen_points(edges@, i as int, points@) == seen_points(edges@, 0, Seq::empty()),
            forall|j: int|
                0 <= j < i ==> points@.contains((#[trigger] edges@[j]).0.pos()) && points@.contains(
                    edges@[j].1.pos(),
                ),
        decreases n - i,
    {
        let a = edges[i].0.position();
        let b = edges[i].1.position();
        let ghost pts0 = points@;
        if !contains_point(&points, a) {
            points.push(a);
            proof {
                assert forall|x: Coord| pts0.contains(x) implies points@.contains(x) by {
                    let k = choose|k: int| 0 <= k < pts0.len() && pts0[k] == x;
                    assert(points@[k] == x);
                }
                assert(points@[pts0.len() as int] == a);
            }
        }
        let ghost pts1 = points@;
        assert(pts1.contains(a));
        assert forall|x: Coord| pts0.contains(x) implies pts1.contains(x) by {
            let k = choose|k: int| 0 <= k < pts0.len() && pts0[k] == x;
            assert(pts1[k] == x);
        }
        if !contains_point(&points, b) {
            points.push(b);
            proof {
                assert forall|x: Coord| pts1.contains(x) implies points@.contains(x) by {
                    let k = choose|k: int| 0 <= k < pts1.len() && pts1[k] == x;
                    assert(points@[k] == x);
                }
                assert(points@[pts1.len() as int] == b);
            }
        }
        proof {
            assert(points@.contains(b));
            assert forall|x: Coord| pts1.contains(x) implies points@.contains(x) by {
                let k = choose|k: int| 0 <= k < pts1.len() && pts1[k] == x;
                assert(points@[k] == x);
            }
            assert forall|j: int|
                0 <= j < i + 1 implies points@.contains((#[trigger] edges@[j]).0.pos())
                && points@.contains(edges@[j].1.pos()) by {
                if j < i {
                    assert(pts0.contains(edges@[j].0.pos()) && pts0.contains(edges@[j].1.pos()));
                }
            }
        }
        i = i + 1;
    }
    let ghost pts = points@;
    let ghost sc = source_chains(edges@, pts, 0, u0, Seq::empty());
    let mut chains: Vec<Vec<V>> = Vec::new();
    let ghost mut parts: Seq<Seq<int>> = Seq::empty();
    let ghost mut order: Seq<int> = Seq::empty();
    proof {
        assert(runs_view(chains@) =~= Seq::<Seq<V>>::empty());
        assert(order_keys(edges@, order) =~= Seq::<(Coord, Coord)>::empty());
    }
    proof {
        assert forall|q: Coord| #[trigger] surplus(edges@, used@, q) == out_count(edges@, q, ne)
            - in_count(edges@, q, ne) by {
            lemma_free_fresh(edges@, used@, q, ne);
        }
        assert(pts.take(0) =~= Seq::<Coord>::empty());
    }
    // Chains from path sources: a position with more outgoing than incoming edges starts that many.
    let mut pi: usize = 0;
    while pi < points.len()
        invariant
            n == edges@.len(),
            ne == n,
            points@ == pts,
            pi <= points@.len(),
            source_chains(edges@, pts, pi as int, used@, runs_view(chains@)) == sc,
            stitch_state(edges@, used@, runs_view(chains@), parts, order),
            forall|c: int| 0 <= c < chains@.len() ==> starts_well(#[trigger] chains@[c]@, edges@),
            forall|c: int|
                0 <= c < chains@.len() ==> #[trigger] ends_well(runs_view(chains@), c, edges@),
            forall|q: Coord|
                (pts.take(pi as int).contains(q) ==> #[trigger] surplus(edges@, used@, q) <= 0)
                    && (surplus(edges@, used@, q) <= 0 || surplus(edges@, used@, q) == out_count(
                    edges@,
                    q,
                    ne,
                ) - in_count(edges@, q, ne)),
        decreases points@.len() - pi,
    {
        let p = points[pi];
        let outdeg = count_starts(edges, p);
        let indeg = count_ends(edges, p);
        let mut t = indeg;
        while t < outdeg
            invariant
                n == edges@.len(),
                ne == n,
                points@ == pts,
                pi < points@.len(),
                p == pts[pi as int],
                outdeg == out_count(edges@, p, ne),
                indeg == in_count(edges@, p, ne),
                indeg <= t,
                ({
                    let r = chains_at(edges@, p, outdeg - t, used@, runs_view(chains@));
                    source_chains(edges@, pts, pi + 1, r.1, r.0) == sc
                }),
                stitch_state(edges@, used@, runs_view(chains@), parts, order),
                forall|c: int| 0 <= c < chains@.len() ==> starts_well(#[trigger] chains@[c]@, edges@),
                forall|c: int|
                    0 <= c < chains@.len() ==> #[trigger] ends_well(runs_view(chains@), c, edges@),
                forall|q: Coord|
                    (pts.take(pi as int).contains(q) ==> #[trigger] surplus(edges@, used@, q) <= 0)
                        && (q != p ==> (surplus(edges@, used@, q) <= 0 || surplus(edges@, used@, q)
                        == out_count(edges@, q, ne) - in_count(edges@, q, ne))),
                surplus(edges@, used@, p) <= 0 || surplus(edges@, used@, p) <= outdeg - t,
            decreases outdeg - t,
        {
            match next_unused(edges, &used, p) {
                Some(first) => {
                    let ghost used0 = used@;
                    let ghost cs0 = runs_view(chains@);
                    let (c, Ghost(idx)) = build_chain(edges, &mut used, first, Ghost(order));
                    let ghost cv = c@;
                    chains.push(c);
                    proof {
                        lemma_state_push(edges@, used0, cs0, parts, order, cv, idx, used@);
                        assert(runs_view(chains@) =~= cs0.push(cv));
                        lemma_ends_push(edges@, used@, cs0, parts, order, cv, idx);
                        parts = parts.push(idx);
                        order = order + idx;
                        let e = cv.last().pos();
                        lemma_free_out_zero(edges@, used@, e, ne);
                        lemma_free_nonneg(edges@, used@, e, ne);
                        assert(cv[0].pos() == p);
                        assert forall|x: int| 0 <= x < chains@.len() implies starts_well(
                            #[trigger] chains@[x]@,
                            edges@,
                        ) by {
                            if x < cs0.len() {
                                assert(chains@[x]@ == cs0[x]);
                            } else {
                                assert(chains@[x]@ == cv);
                            }
                        }
                        assert forall|x: int| 0 <= x < chains@.len() implies #[trigger] ends_well(
                            runs_view(chains@),
                            x,
                            edges@,
                        ) by {
                            assert(ends_well(cs0.push(cv), x, edges@));
                        }
                        assert(surplus(edges@, used@, e) <= 0);
                    }
                },
                None => {
                    proof {
                        lemma_free_out_zero(edges@, used@, p, ne);
                        lemma_free_nonneg(edges@, used@, p, ne);
                    }
                },
            }
            t = t + 1;
        }
        proof {
            assert forall|q: Coord| pts.take(pi + 1).contains(q) implies #[trigger] surplus(
                edges@,
                used@,
                q,
            ) <= 0 by {
                let k = choose|k: int| 0 <= k < pi + 1 && #[trigger] pts.take(pi + 1)[k] == q;
                if k < pi {
                    assert(pts.take(pi as int)[k] == q);
                }
            }
        }
        pi = pi + 1;
    }
    proof {
        assert forall|q: Coord| #[trigger] surplus(edges@, used@, q) <= 0 by {
            if pts.contains(q) {
                assert(pts.take(pts.len() as int) =~= pts);
            } else {
                lemma_free_untouched(edges@, used@, q, ne);
            }
        }
        lemma_sum_zero(edges@, used@, pts, ne);
        assert forall|j: int| 0 <= j < pts.len() implies surplus(edges@, used@, #[trigger] pts[j])
            <= 0 by {}
        lemma_sum_nonpos(edges@, used@, pts, pts.len() as int);
        assert forall|q: Coord| #[trigger] surplus(edges@, used@, q) == 0 by {
            if pts.contains(q) {
                let j = choose|j: int| 0 <= j < pts.len() && pts[j] == q;
                assert(surplus(edges@, used@, pts[j]) == 0);
            } else {
                lemma_free_untouched(edges@, used@, q, ne);
            }
        }
    }
    // Whatever remains forms closed loops.
    let mut i: usize = 0;
    while i < n
        invariant
            n == edges@.len(),
            ne == n,
            i <= n,
            stitch_state(edges@, used@, runs_view(chains@), parts, order),
            forall|j: int| 0 <= j < i ==> used@[j],
            forall|c: int| 0 <= c < chains@.len() ==> starts_well(#[trigger] chains@[c]@, edges@),
            forall|c: int|
                0 <= c < chains@.len() ==> #[trigger] ends_well(runs_view(chains@), c, edges@),
            forall|q: Coord| #[trigger] surplus(edges@, used@, q) == 0,
            loop_chains(edges@, i as int, used@, runs_view(chains@)) == loop_chains(
                edges@,
                0,
                sc.1,
                sc.0,
            ),
        decreases n - i,
    {
        if !used[i] {
            let ghost used0 = used@;
            let ghost cs0 = runs_view(chains@);
            let (c, Ghost(idx)) = build_chain(edges, &mut used, i, Ghost(order));
            let ghost cv = c@;
            chains.push(c);
            proof {
                let order0 = order;
                lemma_state_push(edges@, used0, cs0, parts, order, cv, idx, used@);
                assert(runs_view(chains@) =~= cs0.push(cv));
                lemma_ends_push(edges@, used@, cs0, parts, order, cv, idx);
                let e = cv.last().pos();
                lemma_free_out_zero(edges@, used@, e, ne);
                lemma_free_nonneg(edges@, used@, e, ne);
                assert(surplus(edges@, used@, e) <= 0);
                assert(surplus(edges@, used0, e) == 0);
                assert(cv[0].pos() == e);
                assert forall|x: int| 0 <= x < chains@.len() implies starts_well(
                    #[trigger] chains@[x]@,
                    edges@,
                ) by {
                    if x < cs0.len() {
                        assert(chains@[x]@ == cs0[x]);
                    } else {
                        assert(chains@[x]@ == cv);
                    }
                }
                assert forall|x: int| 0 <= x < chains@.len() implies #[trigger] ends_well(
                    runs_view(chains@),
                    x,
                    edges@,
                ) by {
                    assert(ends_well(cs0.push(cv), x, edges@));
                }
                assert forall|q: Coord| #[trigger] surplus(edges@, used@, q) == 0 by {
                    assert(surplus(edges@, used0, q) == 0);
                }
                parts = parts.push(idx);
                order = order + idx;
                assert forall|j: int| 0 <= j < i + 1 implies used@[j] by {
                    if j < i {
                        assert(used0[j]);
                        let x = choose|x: int| 0 <= x < order0.len() && order0[x] == j;
                        assert(order[x] == j);
                    } else {
                        assert(idx[0] == i);
                        assert(order[order0.len() as int] == j);
                    }
                }
            }
        }
        i = i + 1;
    }
    proof {
        let cs = runs_view(chains@);
        assert forall|x: int| 0 <= x < ne implies order.contains(x) by {
            assert(used@[x]);
        }
        lemma_distinct_indices(order, ne);
        assert forall|c: int| 0 <= c < chains@.len() implies #[trigger] chains@[c]@.len() >= 2
            && follows(chains@[c]@, edges@) by {
            assert(cs[c] == chains@[c]@);
            assert(chain_of(cs[c], parts[c], edges@));
            lemma_run_keys(cs[c], parts[c], edges@);
        }
        let ks = chain_keys(cs);
        assert(ks == order_keys(edges@, order));
        assert forall|a: int, b: int| 0 <= a < ks.len() && 0 <= b < ks.len() && a != b implies ks[a]
            != ks[b] by {
            assert(order[a] != order[b]);
            assert(0 <= order[a] < ne && 0 <= order[b] < ne);
            if order[a] < order[b] {
                assert(key_of(edges@[order[a]]) != key_of(edges@[order[b]]));
            } else {
                assert(key_of(edges@[order[b]]) != key_of(edges@[order[a]]));
            }
        }
        assert forall|k: (Coord, Coord)| ks.contains(k) <==> exists|i: int|
            0 <= i < ne && #[trigger] key_of(edges@[i]) == k by {
            if ks.contains(k) {
                let a = choose|a: int| 0 <= a < ks.len() && ks[a] == k;
                assert(0 <= order[a] < ne);
                assert(key_of(edges@[order[a]]) == k);
            }
            if exists|i: int| 0 <= i < ne && #[trigger] key_of(edges@[i]) == k {
                let i = choose|i: int| 0 <= i < ne && #[trigger] key_of(edges@[i]) == k;
                assert(order.contains(i));
                let a = choose|a: int| 0 <= a < order.len() && order[a] == i;
                assert(ks[a] == k);
            }
        }
    }
    chains
}

/// Whether `p` is listed in `points`.
fn contains_point(points: &Vec<Coord>, p: Coord) -> (r: bool)
    ensures
        r == points@.contains(p),
{
    let mut i: usize = 0;
    while i < points.len()
        invariant
            i <= points@.len(),
            forall|j: int| 0 <= j < i ==> points@[j] != p,
        decreases points@.len() - i,
    {
        if points[i].x == p.x && points[i].y == p.y {
            assert(points@[i as int] == p);
            return true;
        }
        i = i + 1;
    }
    false
}

/// How many edges start at `p`.
fn count_starts<V: Vertex>(edges: &Vec<(V, V)>, p: Coord) -> (r: usize)
    ensures
        r <= edges@.len(),
        r == out_count(edges@, p, edges@.len() as int),
{
    let mut count: usize = 0;
    let mut i: usize = 0;
    while i < edges.len()
        invariant
            i <= edges@.len(),
            count <= i,
            count == out_count(edges@, p, i as int),
        decreases edges@.len() - i,
    {
        let s = edges[i].0.position();
        if s.x == p.x && s.y == p.y {
            count = count + 1;
        }
        i = i + 1;
    }
    count
}

/// How many edges end at `p`.
fn count_ends<V: Vertex>(edges: &Vec<(V, V)>, p: Coord) -> (r: usize)
    ensures
        r <= edges@.len(),
        r == in_count(edges@, p, edges@.len() as int),
{
    let mut count: usize = 0;
    let mut i: usize = 0;
    while i < edges.len()
        invariant
            i <= edges@.len(),
            count <= i,
            count == in_count(edges@, p, i as int),
        decreases edges@.len() - i,
    {
        let e = edges[i].1.position();
        if e.x == p.x && e.y == p.y {
            count = count + 1;
        }
        i = i + 1;
    }
    count
}

} // verus!
