//! Slicing then reassembling: the tiles a slicer produces are mutually consistent, so a
//! [`Mosaic`](crate::Mosaic) accepts any of them in any order, and together they reassemble exactly
//! the input's directed edges.
//!
//! The argument runs through the global directed segments of the input: the runs a tile keeps,
//! rebased into the global frame, carry exactly the segments that touch the tile's box, in input
//! order. Since whether a segment touches a box depends only on its endpoint positions, every tile
//! carrying a segment agrees on it, and a segment with an endpoint in a tile's cell touches that
//! tile's box.

use vstd::prelude::*;

use crate::clip_polyline::{in_box, local_of, touches};
use crate::blocks::{kept_stretch, kept_upto, law_clip_runs_are_kept_stretches};
use crate::grid::{
    all_local, buffered_box, clip_runs, dedup, fits, loc, localized_runs, runs_upto, seg_hit, Grid,
};
use crate::mosaic::{
    carried, chain_carried, conflict_set, edge_map, ends_maximal, first_edges, has_key, key_of,
    key_set, law_features_depend_only_on_edges, reassembled, rebase_fits, rebased, run_edges,
    runs_edges, runs_fit, starts_maximal, tile_edges,
};
use crate::simple_path::{law_simple_path_reassembles_whole, path_keys};
use crate::stitch::chain_keys;
use crate::slicer::{add_succeeds, clip_new, feature_runs, history, SlicerAll};
use crate::tile::{tile_of_spec, TileId};
use crate::vertex::{Coord, Vertex};

verus! {

/// The first `n` directed segments of `q`: its consecutive vertex pairs.
pub open spec fn segs_upto<V>(q: Seq<V>, n: int) -> Seq<(V, V)>
    decreases n,
{
    if n <= 0 {
        Seq::empty()
    } else {
        segs_upto(q, n - 1).push((q[n - 1], q[n]))
    }
}

/// The directed segments of a polyline, consecutive duplicate positions dropped.
pub open spec fn polyline_segs<V: Vertex>(p: Seq<V>) -> Seq<(V, V)> {
    let q = dedup(p);
    segs_upto(q, q.len() - 1)
}

/// The directed segments of all the polylines, polyline after polyline.
pub open spec fn all_segs<V: Vertex>(ps: Seq<Seq<V>>) -> Seq<(V, V)>
    decreases ps.len(),
{
    if ps.len() == 0 {
        Seq::empty()
    } else {
        all_segs(ps.drop_last()) + polyline_segs(ps.last())
    }
}

/// The segments among the first `n` of `q` that the runs kept in the box `[min, max]` walk, in
/// order: each touching segment, and each segment that misses the box between two touching ones.
pub open spec fn joined_upto<V: Vertex>(q: Seq<V>, min: Coord, max: Coord, n: int) -> Seq<(V, V)>
    decreases n,
{
    if n <= 0 {
        Seq::empty()
    } else if !seg_hit(q, min, max, n - 1) {
        joined_upto(q, min, max, n - 1)
    } else if n >= 2 && seg_hit(q, min, max, n - 2) {
        joined_upto(q, min, max, n - 1).push((q[n - 1], q[n]))
    } else if n >= 3 && seg_hit(q, min, max, n - 3) {
        joined_upto(q, min, max, n - 1).push((q[n - 2], q[n - 1])).push((q[n - 1], q[n]))
    } else {
        joined_upto(q, min, max, n - 1).push((q[n - 1], q[n]))
    }
}

/// The segments the runs of all the polylines kept in the box `[min, max]` walk, polyline after
/// polyline.
pub open spec fn all_joined<V: Vertex>(ps: Seq<Seq<V>>, min: Coord, max: Coord) -> Seq<(V, V)>
    decreases ps.len(),
{
    if ps.len() == 0 {
        Seq::empty()
    } else {
        let q = dedup(ps.last());
        all_joined(ps.drop_last(), min, max) + joined_upto(q, min, max, q.len() - 1)
    }
}

/// `x` is one of the segments `s`.
pub open spec fn among<V>(s: Seq<(V, V)>, x: (V, V)) -> bool {
    exists|j: int| 0 <= j < s.len() && s[j] == x
}

/// Segments with the same endpoint positions are the same segment: no two occurrences of one
/// directed edge carry different vertices.
pub open spec fn uniform_keys<V: Vertex>(s: Seq<(V, V)>) -> bool {
    forall|i: int, j: int|
        0 <= i < s.len() && 0 <= j < s.len() && #[trigger] key_of(s[i]) == #[trigger] key_of(s[j])
            ==> s[i] == s[j]
}

/// The runs that slicing `ps` (each polyline a feature) records for tile `t`, in the tile's local
/// frame, features in order and each feature's runs in order.
pub open spec fn tile_runs<V: Vertex>(g: Grid, ps: Seq<Seq<V>>, t: TileId) -> Seq<Seq<V>>
    decreases ps.len(),
{
    if ps.len() == 0 {
        Seq::empty()
    } else {
        tile_runs(g, ps.drop_last(), t) + clip_new(g, ps.last(), t)
    }
}

/// The edges tile `t` contributes to a mosaic when it is added with the runs slicing `ps` gives it.
pub open spec fn sliced_edges<V: Vertex>(g: Grid, ps: Seq<Seq<V>>, t: TileId) -> Map<
    (Coord, Coord),
    (V, V),
> {
    edge_map(tile_edges(t, g.extent as int, tile_runs(g, ps, t)))
}

/// Consecutive vertices of a deduplicated sequence sit at distinct positions.
pub(crate) proof fn lemma_dedup_distinct<V: Vertex>(p: Seq<V>)
    ensures
        forall|i: int| 0 <= i < dedup(p).len() - 1 ==> (#[trigger] dedup(p)[i]).pos() != dedup(p)[i + 1].pos(),
    decreases p.len(),
{
    if p.len() > 0 {
        lemma_dedup_distinct(p.drop_last());
        let d = dedup(p.drop_last());
        if d.len() > 0 && d.last().pos() == p.last().pos() {
        } else {
            assert forall|i: int| 0 <= i < dedup(p).len() - 1 implies (#[trigger] dedup(p)[i]).pos()
                != dedup(p)[i + 1].pos() by {
                if i < d.len() - 1 {
                    assert(dedup(p)[i] == d[i] && dedup(p)[i + 1] == d[i + 1]);
                } else {
                    assert(dedup(p)[i] == d.last());
                }
            }
        }
    }
}

/// Edges of runs concatenate.
proof fn lemma_runs_edges_concat<V: Vertex>(a: Seq<Seq<V>>, b: Seq<Seq<V>>, ox: int, oy: int)
    ensures
        runs_edges(a + b, ox, oy) == runs_edges(a, ox, oy) + runs_edges(b, ox, oy),
    decreases b.len(),
{
    if b.len() == 0 {
        assert(a + b =~= a);
        assert(runs_edges(a, ox, oy) + runs_edges(b, ox, oy) =~= runs_edges(a, ox, oy));
    } else {
        lemma_runs_edges_concat(a, b.drop_last(), ox, oy);
        assert((a + b).drop_last() =~= a + b.drop_last());
        assert((a + b).last() == b.last());
    }
}

/// The edges of a run whose vertices are consecutive segments, unmoved.
proof fn lemma_run_edges_extend<V: Vertex>(r: Seq<V>, v: V)
    requires
        r.len() >= 1,
        r.last().pos() != v.pos(),
    ensures
        run_edges(r.push(v), 0, 0) == run_edges(r, 0, 0).push((r.last(), v)),
{
    let r2 = r.push(v);
    assert(r2.drop_last() =~= r);
    assert(r2[r2.len() - 2] == r.last());
    V::lemma_moved_to(r.last(), r.last().pos(), r.last().pos());
    V::lemma_moved_to(v, v.pos(), v.pos());
    assert(Coord { x: (r.last().pos().x + 0) as i32, y: (r.last().pos().y + 0) as i32 } == r.last().pos());
    assert(Coord { x: (v.pos().x + 0) as i32, y: (v.pos().y + 0) as i32 } == v.pos());
}

/// A kept run's edges (unmoved) are the segments it walks: the runs of the first `n` segments
/// carry exactly the joined ones among them, in order.
proof fn lemma_runs_upto_edges<V: Vertex>(q: Seq<V>, min: Coord, max: Coord, n: int)
    requires
        n <= q.len() - 1,
        forall|i: int| 0 <= i < q.len() - 1 ==> (#[trigger] q[i]).pos() != q[i + 1].pos(),
    ensures
        runs_edges(runs_upto(q, min, max, n), 0, 0) == joined_upto(q, min, max, n),
    decreases n,
{
    if n <= 0 {
        assert(runs_upto(q, min, max, n) =~= Seq::<Seq<V>>::empty());
    } else {
        lemma_runs_upto_edges(q, min, max, n - 1);
        let r = runs_upto(q, min, max, n - 1);
        assert(q[n - 1].pos() != q[n].pos());
        if !seg_hit(q, min, max, n - 1) {
        } else if n >= 2 && seg_hit(q, min, max, n - 2) {
            crate::grid::lemma_runs_upto_last(q, min, max, n - 1);
            let last = r.last();
            let r2 = r.update(r.len() - 1, last.push(q[n]));
            assert(r2.drop_last() =~= r.drop_last());
            assert(r.drop_last().push(last) =~= r);
            lemma_run_edges_extend(last, q[n]);
            assert(runs_edges(r, 0, 0) == runs_edges(r.drop_last(), 0, 0) + run_edges(last, 0, 0));
            assert(runs_edges(r2, 0, 0) == runs_edges(r.drop_last(), 0, 0) + run_edges(last.push(q[n]), 0, 0));
            assert(runs_edges(r2, 0, 0) =~= runs_edges(r, 0, 0).push((q[n - 1], q[n])));
        } else if n >= 3 && seg_hit(q, min, max, n - 3) {
            crate::grid::lemma_runs_upto_last(q, min, max, n - 2);
            assert(r == runs_upto(q, min, max, n - 2));
            let last = r.last();
            assert(last.last() == q[n - 2]);
            assert(q[n - 2].pos() != q[n - 1].pos());
            let l1 = last.push(q[n - 1]);
            let r2 = r.update(r.len() - 1, l1.push(q[n]));
            assert(r2.drop_last() =~= r.drop_last());
            assert(r.drop_last().push(last) =~= r);
            lemma_run_edges_extend(last, q[n - 1]);
            lemma_run_edges_extend(l1, q[n]);
            assert(runs_edges(r, 0, 0) == runs_edges(r.drop_last(), 0, 0) + run_edges(last, 0, 0));
            assert(runs_edges(r2, 0, 0) == runs_edges(r.drop_last(), 0, 0) + run_edges(l1.push(q[n]), 0, 0));
            assert(runs_edges(r2, 0, 0) =~= runs_edges(r, 0, 0).push((q[n - 2], q[n - 1])).push(
                (q[n - 1], q[n]),
            ));
        } else {
            let r2 = r.push(seq![q[n - 1], q[n]]);
            assert(r2.drop_last() =~= r);
            let one = seq![q[n - 1], q[n]];
            assert(one.drop_last() =~= seq![q[n - 1]]);
            assert(run_edges(seq![q[n - 1]], 0, 0) =~= Seq::<(V, V)>::empty());
            V::lemma_moved_to(q[n - 1], q[n - 1].pos(), q[n - 1].pos());
            V::lemma_moved_to(q[n], q[n].pos(), q[n].pos());
            assert(Coord { x: (q[n - 1].pos().x + 0) as i32, y: (q[n - 1].pos().y + 0) as i32 } == q[n - 1].pos());
            assert(Coord { x: (q[n].pos().x + 0) as i32, y: (q[n].pos().y + 0) as i32 } == q[n].pos());
            assert(run_edges(one, 0, 0) =~= seq![(q[n - 1], q[n])]);
        }
    }
}

/// The joined segments are segments of `q`, and every touching segment is among them.
proof fn lemma_joined_members<V: Vertex>(q: Seq<V>, min: Coord, max: Coord, n: int)
    requires
        n <= q.len() - 1,
    ensures
        forall|i: int|
            #![trigger joined_upto(q, min, max, n)[i]]
            0 <= i < joined_upto(q, min, max, n).len() ==> exists|j: int|
                0 <= j < n && joined_upto(q, min, max, n)[i] == (#[trigger] q[j], q[j + 1]),
        forall|j: int|
            0 <= j < n && #[trigger] seg_hit(q, min, max, j) ==> exists|i: int|
                0 <= i < joined_upto(q, min, max, n).len() && joined_upto(q, min, max, n)[i] == (
                    q[j],
                    q[j + 1],
                ),
    decreases n,
{
    if n > 0 {
        lemma_joined_members(q, min, max, n - 1);
        let j0 = joined_upto(q, min, max, n - 1);
        let j1 = joined_upto(q, min, max, n);
        assert(j1.len() >= j0.len());
        assert forall|i: int| 0 <= i < j0.len() implies j1[i] == j0[i] by {}
        assert forall|i: int| #![trigger j1[i]] 0 <= i < j1.len() implies exists|j: int|
            0 <= j < n && j1[i] == (#[trigger] q[j], q[j + 1]) by {
            if i < j0.len() {
                assert(j0[i] == j0[i]);
                let j = choose|j: int| 0 <= j < n - 1 && j0[i] == (#[trigger] q[j], q[j + 1]);
                assert(j1[i] == (q[j], q[j + 1]));
            } else if i == j1.len() - 1 {
                assert(j1[i] == (q[n - 1], q[(n - 1) + 1]));
            } else {
                assert(j1[i] == (q[n - 2], q[(n - 2) + 1]));
            }
        }
        assert forall|j: int| 0 <= j < n && #[trigger] seg_hit(q, min, max, j) implies exists|i: int|
            0 <= i < j1.len() && j1[i] == (q[j], q[j + 1]) by {
            if j < n - 1 {
                let i = choose|i: int| 0 <= i < j0.len() && j0[i] == (q[j], q[j + 1]);
                assert(j1[i] == j0[i]);
            } else {
                assert(j1[j1.len() - 1] == (q[n - 1], q[n]));
            }
        }
    }
}

/// The joined segments of all the polylines are segments of them, and every segment of them
/// touching the box is among them.
proof fn lemma_all_joined_members<V: Vertex>(ps: Seq<Seq<V>>, min: Coord, max: Coord)
    ensures
        forall|i: int|
            0 <= i < all_joined(ps, min, max).len() ==> among(all_segs(ps), #[trigger] all_joined(ps, min, max)[i]),
        forall|j: int|
            0 <= j < all_segs(ps).len() && touches(
                (#[trigger] all_segs(ps)[j]).0.pos(),
                all_segs(ps)[j].1.pos(),
                min,
                max,
            ) ==> exists|i: int|
                0 <= i < all_joined(ps, min, max).len() && all_joined(ps, min, max)[i] == all_segs(ps)[j],
    decreases ps.len(),
{
    if ps.len() == 0 {
        assert(all_joined(ps, min, max).len() == 0);
        assert(all_segs(ps).len() == 0);
    }
    if ps.len() > 0 {
        let pd = ps.drop_last();
        lemma_all_joined_members(pd, min, max);
        let q = dedup(ps.last());
        let n = q.len() - 1;
        let a0 = all_joined(pd, min, max);
        let jq = joined_upto(q, min, max, n);
        let s0 = all_segs(pd);
        let sq = polyline_segs(ps.last());
        assert(all_joined(ps, min, max) == a0 + jq);
        assert(all_segs(ps) == s0 + sq);
        assert(sq == segs_upto(q, n));
        if n >= 0 {
            lemma_joined_members(q, min, max, n);
            lemma_segs_at(q, n);
        } else {
            assert(jq =~= Seq::<(V, V)>::empty());
            assert(sq =~= Seq::<(V, V)>::empty());
        }
        let aj = all_joined(ps, min, max);
        let asg = all_segs(ps);
        assert forall|i: int| 0 <= i < aj.len() implies among(asg, #[trigger] aj[i]) by {
            if i < a0.len() {
                assert(aj[i] == a0[i]);
                assert(among(s0, a0[i]));
                let j = choose|j: int| 0 <= j < s0.len() && s0[j] == a0[i];
                assert(asg[j] == s0[j]);
            } else {
                assert(aj[i] == jq[i - a0.len()]);
                assert(jq[i - a0.len()] == jq[i - a0.len()]);
                let j = choose|j: int| 0 <= j < n && jq[i - a0.len()] == (#[trigger] q[j], q[j + 1]);
                assert(asg[s0.len() + j] == sq[j]);
                assert(sq[j] == (q[j], q[j + 1]));
                assert(0 <= s0.len() + j < asg.len() && asg[s0.len() + j] == aj[i]);
            }
        }
        assert forall|j: int|
            0 <= j < (s0 + sq).len() && touches(
                (#[trigger] (s0 + sq)[j]).0.pos(),
                (s0 + sq)[j].1.pos(),
                min,
                max,
            ) implies exists|i: int| 0 <= i < (a0 + jq).len() && (a0 + jq)[i] == (s0 + sq)[j] by {
            if j < s0.len() {
                assert((s0 + sq)[j] == s0[j]);
                let i = choose|i: int| 0 <= i < a0.len() && a0[i] == s0[j];
                assert((a0 + jq)[i] == a0[i]);
            } else {
                let jj = j - s0.len();
                assert(sq[jj] == (q[jj], q[jj + 1]));
                assert(seg_hit(q, min, max, jj));
                let i = choose|i: int| 0 <= i < jq.len() && jq[i] == (q[jj], q[jj + 1]);
                assert((a0 + jq)[a0.len() + i] == jq[i]);
            }
        }
    }
}

/// Rebasing a localized vertex by its origin gives the vertex back.
proof fn lemma_loc_rebased<V: Vertex>(v: V, o: Coord)
    requires
        local_of(v.pos(), o) is Some,
    ensures
        loc(v, o).pos() == local_of(v.pos(), o).unwrap(),
        rebase_fits(loc(v, o), o.x as int, o.y as int),
        rebased(loc(v, o), o.x as int, o.y as int) == v,
        rebased(v, 0, 0) == v,
{
    let l = local_of(v.pos(), o).unwrap();
    V::lemma_moved_to(v, l, v.pos());
    assert(Coord { x: (l.x + o.x) as i32, y: (l.y + o.y) as i32 } == v.pos());
    assert(Coord { x: (v.pos().x + 0) as i32, y: (v.pos().y + 0) as i32 } == v.pos());
}

/// A run localized to origin `o` and rebased by `o` has the same edges as the run unmoved.
proof fn lemma_run_localized<V: Vertex>(run: Seq<V>, o: Coord)
    requires
        forall|j: int| 0 <= j < run.len() ==> (#[trigger] local_of(run[j].pos(), o)) is Some,
    ensures
        run_edges(run.map_values(|v: V| loc(v, o)), o.x as int, o.y as int) == run_edges(run, 0, 0),
    decreases run.len(),
{
    let lr = run.map_values(|v: V| loc(v, o));
    if run.len() >= 2 {
        assert(lr.drop_last() =~= run.drop_last().map_values(|v: V| loc(v, o)));
        lemma_run_localized(run.drop_last(), o);
        let a = run[run.len() - 2];
        let b = run[run.len() - 1];
        assert(local_of(a.pos(), o) is Some);
        assert(local_of(b.pos(), o) is Some);
        lemma_loc_rebased(a, o);
        lemma_loc_rebased(b, o);
        assert(lr[lr.len() - 2] == loc(a, o));
        assert(lr[lr.len() - 1] == loc(b, o));
        assert((loc(a, o).pos() != loc(b, o).pos()) == (a.pos() != b.pos()));
    }
}

/// Runs localized to origin `o` fit when rebased by `o`, and then have the same edges as the runs
/// unmoved.
proof fn lemma_runs_localized<V: Vertex>(r: Seq<Seq<V>>, o: Coord)
    requires
        all_local(r, o),
    ensures
        runs_fit(localized_runs(r, o), o.x as int, o.y as int),
        runs_edges(localized_runs(r, o), o.x as int, o.y as int) == runs_edges(r, 0, 0),
    decreases r.len(),
{
    let lr = localized_runs(r, o);
    assert forall|i: int, j: int| 0 <= i < lr.len() && 0 <= j < lr[i].len() implies #[trigger] rebase_fits(
        lr[i][j],
        o.x as int,
        o.y as int,
    ) by {
        assert(local_of(r[i][j].pos(), o) is Some);
        lemma_loc_rebased(r[i][j], o);
    }
    if r.len() > 0 {
        assert(lr.drop_last() =~= localized_runs(r.drop_last(), o));
        assert(all_local(r.drop_last(), o)) by {
            assert forall|i: int, j: int| 0 <= i < r.drop_last().len() && 0 <= j < r.drop_last()[i].len() implies (#[trigger] local_of(
                r.drop_last()[i][j].pos(),
                o,
            )) is Some by {
                assert(r.drop_last()[i] == r[i]);
            }
        }
        lemma_runs_localized(r.drop_last(), o);
        let last = r.last();
        assert forall|j: int| 0 <= j < last.len() implies (#[trigger] local_of(last[j].pos(), o)) is Some by {
            assert(last[j] == r[r.len() - 1][j]);
        }
        lemma_run_localized(last, o);
        assert(lr.last() == last.map_values(|v: V| loc(v, o)));
    }
}

/// Runs that fit when rebased concatenate into runs that fit.
proof fn lemma_runs_fit_concat<V: Vertex>(a: Seq<Seq<V>>, b: Seq<Seq<V>>, ox: int, oy: int)
    requires
        runs_fit(a, ox, oy),
        runs_fit(b, ox, oy),
    ensures
        runs_fit(a + b, ox, oy),
{
    assert forall|i: int, j: int| 0 <= i < (a + b).len() && 0 <= j < (a + b)[i].len() implies #[trigger] rebase_fits(
        (a + b)[i][j],
        ox,
        oy,
    ) by {
        if i < a.len() {
            assert((a + b)[i] == a[i]);
            assert(rebase_fits(a[i][j], ox, oy));
        } else {
            assert((a + b)[i] == b[i - a.len()]);
            assert(rebase_fits(b[i - a.len()][j], ox, oy));
        }
    }
}

/// The tile origin used for localizing is `tile · extent`.
proof fn lemma_tile_origin(g: Grid, t: TileId)
    requires
        g.wf(),
        g.box_of(t) is Some,
    ensures
        g.origin_of(g.box_lo(t)).x == t.x * g.extent,
        g.origin_of(g.box_lo(t)).y == t.y * g.extent,
        g.box_lo(t) == g.box_of(t).unwrap().0,
{
}

/// The runs slicing records for a tile, rebased into the global frame, fit and carry exactly the
/// input's segments they walk in the tile's box, in input order.
proof fn lemma_tile_runs_edges<V: Vertex>(g: Grid, ps: Seq<Seq<V>>, t: TileId)
    requires
        g.wf(),
        g.box_of(t) is Some,
        forall|j: int| 0 <= j < ps.len() ==> (#[trigger] g.slice_one_spec(ps[j], t)) is Ok,
    ensures
        runs_fit(tile_runs(g, ps, t), t.x * g.extent, t.y * g.extent),
        runs_edges(tile_runs(g, ps, t), t.x * g.extent, t.y * g.extent) == all_joined(
            ps,
            g.box_lo(t),
            g.box_hi(t),
        ),
    decreases ps.len(),
{
    let ox = t.x * g.extent;
    let oy = t.y * g.extent;
    if ps.len() == 0 {
        assert(runs_edges(Seq::<Seq<V>>::empty(), ox, oy) =~= Seq::<(V, V)>::empty());
    } else {
        let pd = ps.drop_last();
        assert forall|j: int| 0 <= j < pd.len() implies (#[trigger] g.slice_one_spec(pd[j], t)) is Ok by {
            assert(pd[j] == ps[j]);
        }
        lemma_tile_runs_edges(g, pd, t);
        let p = ps.last();
        assert(g.slice_one_spec(ps[ps.len() - 1], t) is Ok);
        let (mn, mx) = g.box_of(t).unwrap();
        let o = g.origin_of(mn);
        lemma_tile_origin(g, t);
        let q = dedup(p);
        let r = runs_upto(q, mn, mx, q.len() - 1);
        assert(all_local(r, o));
        assert(clip_new(g, p, t) == localized_runs(r, o));
        lemma_runs_localized(r, o);
        lemma_dedup_distinct(p);
        lemma_runs_upto_edges(q, mn, mx, q.len() - 1);
        lemma_runs_edges_concat(tile_runs(g, pd, t), clip_new(g, p, t), ox, oy);
        lemma_runs_fit_concat(tile_runs(g, pd, t), clip_new(g, p, t), ox, oy);
    }
}

/// Some element of `s` has key `k`.
pub open spec fn keyed<V: Vertex>(s: Seq<(V, V)>, k: (Coord, Coord)) -> bool {
    exists|i: int| 0 <= i < s.len() && #[trigger] key_of(s[i]) == k
}

/// Keys listed at most once.
spec fn keys_distinct<V: Vertex>(s: Seq<(V, V)>) -> bool {
    forall|i: int, j: int| 0 <= i < j < s.len() ==> key_of(s[i]) != key_of(s[j])
}

/// Keeping the first edge of each key lists each key once, and exactly the keys listed.
proof fn lemma_first_edges_keys<V: Vertex>(s: Seq<(V, V)>)
    ensures
        keys_distinct(first_edges(s)),
        forall|k: (Coord, Coord)| keyed(first_edges(s), k) <==> keyed(s, k),
        forall|i: int|
            0 <= i < first_edges(s).len() ==> exists|j: int|
                0 <= j < s.len() && s[j] == #[trigger] first_edges(s)[i],
    decreases s.len(),
{
    if s.len() > 0 {
        let sd = s.drop_last();
        lemma_first_edges_keys(sd);
        let f = first_edges(sd);
        let x = s.last();
        assert forall|k: (Coord, Coord)| keyed(sd, k) implies keyed(s, k) by {
            let j = choose|j: int| 0 <= j < sd.len() && #[trigger] key_of(sd[j]) == k;
            assert(s[j] == sd[j]);
        }
        assert(keyed(s, key_of(x))) by {
            assert(s[s.len() - 1] == x);
        }
        assert forall|k: (Coord, Coord)| keyed(s, k) implies keyed(sd, k) || k == key_of(x) by {
            let j = choose|j: int| 0 <= j < s.len() && #[trigger] key_of(s[j]) == k;
            if j < s.len() - 1 {
                assert(sd[j] == s[j]);
            }
        }
        if exists|i: int| 0 <= i < f.len() && key_of(f[i]) == key_of(x) {
            assert(keyed(f, key_of(x)));
            assert forall|i: int| 0 <= i < first_edges(s).len() implies exists|j: int|
                0 <= j < s.len() && s[j] == #[trigger] first_edges(s)[i] by {
                let j = choose|j: int| 0 <= j < sd.len() && sd[j] == f[i];
                assert(s[j] == sd[j]);
            }
        } else {
            let g = f.push(x);
            assert(first_edges(s) == g);
            assert forall|i: int, j: int| 0 <= i < j < g.len() implies key_of(g[i]) != key_of(g[j]) by {
                if j == g.len() - 1 {
                    assert(g[i] == f[i]);
                }
            }
            assert forall|k: (Coord, Coord)| keyed(g, k) <==> keyed(s, k) by {
                if keyed(g, k) {
                    let i = choose|i: int| 0 <= i < g.len() && #[trigger] key_of(g[i]) == k;
                    if i < f.len() {
                        assert(g[i] == f[i]);
                        assert(keyed(f, k));
                    }
                }
                if keyed(s, k) {
                    if k == key_of(x) {
                        assert(key_of(g[g.len() - 1]) == k);
                    } else {
                        assert(keyed(sd, k));
                        let i = choose|i: int| 0 <= i < f.len() && #[trigger] key_of(f[i]) == k;
                        assert(g[i] == f[i]);
                    }
                }
            }
            assert forall|i: int| 0 <= i < g.len() implies exists|j: int|
                0 <= j < s.len() && s[j] == #[trigger] g[i] by {
                if i < f.len() {
                    let j = choose|j: int| 0 <= j < sd.len() && sd[j] == f[i];
                    assert(s[j] == sd[j]);
                    assert(g[i] == f[i]);
                } else {
                    assert(s[s.len() - 1] == g[i]);
                }
            }
        }
    }
}

/// The edges of all the polylines: each key's first occurrence.
pub open spec fn global_edges<V: Vertex>(ps: Seq<Seq<V>>) -> Map<(Coord, Coord), (V, V)> {
    edge_map(first_edges(all_segs(ps)))
}

/// In a list with distinct keys, the map entry of an element's key is that element.
proof fn lemma_map_at<V: Vertex>(es: Seq<(V, V)>, i: int)
    requires
        keys_distinct(es),
        0 <= i < es.len(),
    ensures
        edge_map(es).contains_key(key_of(es[i])),
        edge_map(es)[key_of(es[i])] == es[i],
{
    let k = key_of(es[i]);
    assert(edge_map(es).contains_key(k));
    let j = choose|j: int| 0 <= j < es.len() && key_of(es[j]) == k;
    if j != i {
        if j < i {
            assert(key_of(es[j]) != key_of(es[i]));
        } else {
            assert(key_of(es[i]) != key_of(es[j]));
        }
    }
}

/// A tile's sliced edges are segments of the input, include every input segment touching the
/// tile's box, and, where no two occurrences of one directed edge differ, are the global edges.
proof fn lemma_sliced_restricts<V: Vertex>(g: Grid, ps: Seq<Seq<V>>, t: TileId)
    requires
        g.wf(),
        g.box_of(t) is Some,
        forall|j: int| 0 <= j < ps.len() ==> (#[trigger] g.slice_one_spec(ps[j], t)) is Ok,
    ensures
        runs_fit(tile_runs(g, ps, t), t.x * g.extent, t.y * g.extent),
        forall|k: (Coord, Coord)| #[trigger] sliced_edges(g, ps, t).contains_key(k) ==> keyed(all_segs(ps), k),
        forall|k: (Coord, Coord)|
            keyed(all_segs(ps), k) && touches(k.0, k.1, g.box_lo(t), g.box_hi(t))
                ==> #[trigger] sliced_edges(g, ps, t).contains_key(k),
        uniform_keys(all_segs(ps)) ==> forall|k: (Coord, Coord)|
            #[trigger] sliced_edges(g, ps, t).contains_key(k) ==> global_edges(ps).contains_key(k)
                && sliced_edges(g, ps, t)[k] == global_edges(ps)[k],
{
    let mn = g.box_lo(t);
    let mx = g.box_hi(t);
    lemma_tile_runs_edges(g, ps, t);
    let all = all_segs(ps);
    let jn = all_joined(ps, mn, mx);
    lemma_all_joined_members(ps, mn, mx);
    let fj = first_edges(jn);
    lemma_first_edges_keys(jn);
    let fa = first_edges(all);
    lemma_first_edges_keys(all);
    assert(tile_edges(t, g.extent as int, tile_runs(g, ps, t)) == fj);
    let se = sliced_edges(g, ps, t);
    let ge = global_edges(ps);
    assert forall|k: (Coord, Coord)| #[trigger] se.contains_key(k) implies keyed(all, k) by {
        let i = choose|i: int| 0 <= i < fj.len() && key_of(fj[i]) == k;
        assert(keyed(fj, k));
        let j = choose|j: int| 0 <= j < jn.len() && #[trigger] key_of(jn[j]) == k;
        assert(among(all, jn[j]));
        let j2 = choose|j2: int| 0 <= j2 < all.len() && all[j2] == jn[j];
        assert(key_of(all[j2]) == k);
    }
    assert forall|k: (Coord, Coord)| keyed(all, k) && touches(k.0, k.1, mn, mx) implies #[trigger] se.contains_key(k) by {
        let j = choose|j: int| 0 <= j < all.len() && #[trigger] key_of(all[j]) == k;
        assert(touches(all[j].0.pos(), all[j].1.pos(), mn, mx));
        let i = choose|i: int| 0 <= i < jn.len() && jn[i] == all[j];
        assert(key_of(jn[i]) == k);
        assert(keyed(jn, k));
        assert(keyed(fj, k));
    }
    if uniform_keys(all) {
        assert forall|k: (Coord, Coord)| #[trigger] se.contains_key(k) implies ge.contains_key(k) && se[k] == ge[k] by {
            let i = choose|i: int| 0 <= i < fj.len() && key_of(fj[i]) == k;
            lemma_map_at(fj, i);
            let j = choose|j: int| 0 <= j < jn.len() && jn[j] == #[trigger] fj[i];
            assert(among(all, jn[j]));
            let j1 = choose|j1: int| 0 <= j1 < all.len() && all[j1] == jn[j];
            assert(key_of(all[j1]) == k);
            assert(keyed(all, k));
            assert(keyed(fa, k));
            let i2 = choose|i2: int| 0 <= i2 < fa.len() && #[trigger] key_of(fa[i2]) == k;
            lemma_map_at(fa, i2);
            let j2 = choose|j2: int| 0 <= j2 < all.len() && all[j2] == #[trigger] fa[i2];
            assert(all[j1] == all[j2]);
        }
    }
}

/// Floor division of an `i32` by a positive divisor fits `i32`.
proof fn lemma_quotient_fits(v: int, e: int)
    requires
        e >= 1,
        fits(v),
    ensures
        fits(v / e),
{
    crate::grid::lemma_div_range(v, e);
    let q = v / e;
    let r = v % e;
    assert(fits(q)) by (nonlinear_arith)
        requires
            v == e * q + r,
            0 <= r < e,
            e >= 1,
            i32::MIN <= v <= i32::MAX,
    ;
}

/// A position in a tile's cell lies in the tile's buffered box, so a segment with an endpoint there
/// touches the box.
proof fn lemma_owner_touches(g: Grid, u: TileId, a: Coord, b: Coord)
    requires
        g.wf(),
        g.box_of(u) is Some,
        tile_of_spec(a, g.extent as int) == u || tile_of_spec(b, g.extent as int) == u,
    ensures
        touches(a, b, g.box_lo(u), g.box_hi(u)),
{
    let e = g.extent as int;
    let mn = g.box_lo(u);
    let mx = g.box_hi(u);
    let c = if tile_of_spec(a, e) == u { a } else { b };
    vstd::arithmetic::div_mod::lemma_fundamental_div_mod(c.x as int, e);
    vstd::arithmetic::div_mod::lemma_fundamental_div_mod(c.y as int, e);
    vstd::arithmetic::div_mod::lemma_mod_bound(c.x as int, e);
    vstd::arithmetic::div_mod::lemma_mod_bound(c.y as int, e);
    crate::grid::lemma_div_range(c.x as int, e);
    crate::grid::lemma_div_range(c.y as int, e);
    lemma_quotient_fits(c.x as int, e);
    lemma_quotient_fits(c.y as int, e);
    assert(c.x as int / e == u.x);
    assert(c.y as int / e == u.y);
    assert(e * u.x <= c.x < e * u.x + e);
    assert(e * u.y <= c.y < e * u.y + e);
    assert(u.x * e == e * u.x) by (nonlinear_arith);
    assert(u.y * e == e * u.y) by (nonlinear_arith);
    assert(in_box(c, mn, mx));
}

/// Tiles the slicer cut never conflict in a mosaic: with any of them present, adding another
/// (or the same again) fits the `i32` frame and meets no disagreeing tile — no shared edge with
/// different vertices, and no edge with an endpoint in one tile's cell that the tile lacks. This
/// needs the input never to repeat a directed edge with different vertices: two tiles may walk
/// different occurrences of it across a segment that misses both their boxes.
pub proof fn law_sliced_tiles_never_conflict<V: Vertex>(
    g: Grid,
    ps: Seq<Seq<V>>,
    m: Map<TileId, Map<(Coord, Coord), (V, V)>>,
    t: TileId,
)
    requires
        g.wf(),
        forall|j: int, u: TileId|
            0 <= j < ps.len() && g.box_of(u) is Some ==> (#[trigger] g.slice_one_spec(ps[j], u)) is Ok,
        forall|u: TileId|
            #[trigger] m.contains_key(u) ==> g.box_of(u) is Some && m[u] == sliced_edges(g, ps, u),
        g.box_of(t) is Some,
        uniform_keys(all_segs(ps)),
    ensures
        runs_fit(tile_runs(g, ps, t), t.x * g.extent, t.y * g.extent),
        conflict_set(m, sliced_edges(g, ps, t), t, g.extent as int) == Set::<TileId>::empty(),
{
    let e = g.extent as int;
    let mine = sliced_edges(g, ps, t);
    let ge = global_edges(ps);
    assert forall|j: int| 0 <= j < ps.len() implies (#[trigger] g.slice_one_spec(ps[j], t)) is Ok by {}
    lemma_sliced_restricts(g, ps, t);
    assert forall|u: TileId| #[trigger] m.contains_key(u) && u != t implies !crate::mosaic::disagrees(
        mine,
        m[u],
        t,
        u,
        e,
    ) by {
        assert forall|j: int| 0 <= j < ps.len() implies (#[trigger] g.slice_one_spec(ps[j], u)) is Ok by {}
        lemma_sliced_restricts(g, ps, u);
        let theirs = m[u];
        assert forall|k: (Coord, Coord)| #[trigger] mine.contains_key(k) implies !(theirs.contains_key(k)
            && theirs[k] != mine[k]) by {
            if theirs.contains_key(k) {
                assert(theirs[k] == ge[k]);
            }
        }
        assert forall|k: (Coord, Coord)| #[trigger] theirs.contains_key(k) implies !(
        crate::mosaic::owned_by(k, e, t) && !mine.contains_key(k)) by {
            if crate::mosaic::owned_by(k, e, t) {
                lemma_owner_touches(g, t, k.0, k.1);
                assert(keyed(all_segs(ps), k));
            }
        }
        assert forall|k: (Coord, Coord)| #[trigger] mine.contains_key(k) implies !(
        crate::mosaic::owned_by(k, e, u) && !theirs.contains_key(k)) by {
            if crate::mosaic::owned_by(k, e, u) {
                lemma_owner_touches(g, u, k.0, k.1);
                assert(keyed(all_segs(ps), k));
            }
        }
    }
    assert(conflict_set(m, mine, t, e) =~= Set::<TileId>::empty());
}

/// Adding every tile the slicer cut to a mosaic reassembles exactly the input's directed edges:
/// a key is carried by some tile iff it is a segment of some input polyline (consecutive
/// duplicate positions dropped).
pub proof fn law_sliced_tiles_reassemble_input<V: Vertex>(
    g: Grid,
    ps: Seq<Seq<V>>,
    m: Map<TileId, Map<(Coord, Coord), (V, V)>>,
)
    requires
        g.wf(),
        forall|j: int, u: TileId|
            0 <= j < ps.len() && g.box_of(u) is Some ==> (#[trigger] g.slice_one_spec(ps[j], u)) is Ok,
        forall|u: TileId|
            #[trigger] m.contains_key(u) ==> g.box_of(u) is Some && m[u] == sliced_edges(g, ps, u),
        forall|u: TileId, k: (Coord, Coord)|
            g.box_of(u) is Some && #[trigger] sliced_edges(g, ps, u).contains_key(k) ==> m.contains_key(u),
        forall|i: int|
            0 <= i < all_segs(ps).len() ==> g.box_of(
                tile_of_spec((#[trigger] all_segs(ps)[i]).0.pos(), g.extent as int),
            ) is Some,
    ensures
        forall|k: (Coord, Coord)| has_key(m, k) <==> keyed(all_segs(ps), k),
{
    let e = g.extent as int;
    let all = all_segs(ps);
    let ge = global_edges(ps);
    lemma_first_edges_keys(all);
    assert forall|k: (Coord, Coord)| has_key(m, k) <==> keyed(all, k) by {
        if has_key(m, k) {
            let u = choose|u: TileId| #[trigger] m.contains_key(u) && m[u].contains_key(k);
            assert forall|j: int| 0 <= j < ps.len() implies (#[trigger] g.slice_one_spec(ps[j], u)) is Ok by {}
            lemma_sliced_restricts(g, ps, u);
        }
        if keyed(all, k) {
            let i = choose|i: int| 0 <= i < all.len() && #[trigger] key_of(all[i]) == k;
            let u = tile_of_spec(all[i].0.pos(), e);
            assert(g.box_of(u) is Some);
            assert(keyed(first_edges(all), k));
            assert(ge.contains_key(k));
            lemma_owner_touches(g, u, k.0, k.1);
            assert forall|j: int| 0 <= j < ps.len() implies (#[trigger] g.slice_one_spec(ps[j], u)) is Ok by {}
            lemma_sliced_restricts(g, ps, u);
            assert(sliced_edges(g, ps, u).contains_key(k));
            assert(m.contains_key(u));
        }
    }
}

/// A mosaic of every tile slicing `ps` yields on `g` carries exactly the input's edges: a key iff
/// it is a segment of the input, and with it the input's first edge of that key.
proof fn lemma_sliced_carries_global<V: Vertex>(
    g: Grid,
    ps: Seq<Seq<V>>,
    m: Map<TileId, Map<(Coord, Coord), (V, V)>>,
)
    requires
        g.wf(),
        forall|j: int, u: TileId|
            0 <= j < ps.len() && g.box_of(u) is Some ==> (#[trigger] g.slice_one_spec(ps[j], u)) is Ok,
        forall|u: TileId|
            #[trigger] m.contains_key(u) ==> g.box_of(u) is Some && m[u] == sliced_edges(g, ps, u),
        forall|u: TileId, k: (Coord, Coord)|
            g.box_of(u) is Some && #[trigger] sliced_edges(g, ps, u).contains_key(k) ==> m.contains_key(u),
        forall|i: int|
            0 <= i < all_segs(ps).len() ==> g.box_of(
                tile_of_spec((#[trigger] all_segs(ps)[i]).0.pos(), g.extent as int),
            ) is Some,
        uniform_keys(all_segs(ps)),
    ensures
        forall|k: (Coord, Coord)| has_key(m, k) <==> keyed(all_segs(ps), k),
        forall|e: (V, V)|
            carried(m, e) <==> (global_edges(ps).contains_key(key_of(e)) && global_edges(ps)[key_of(
                e,
            )] == e),
{
    let ge = global_edges(ps);
    let all = all_segs(ps);
    law_sliced_tiles_reassemble_input(g, ps, m);
    lemma_first_edges_keys(all);
    assert forall|e: (V, V)|
        carried(m, e) <==> (ge.contains_key(key_of(e)) && ge[key_of(e)] == e) by {
        let k = key_of(e);
        if carried(m, e) {
            let u = choose|u: TileId| #[trigger] m.contains_key(u) && m[u].contains_key(k) && m[u][k] == e;
            assert forall|j: int| 0 <= j < ps.len() implies (#[trigger] g.slice_one_spec(ps[j], u)) is Ok by {}
            lemma_sliced_restricts(g, ps, u);
        }
        if ge.contains_key(k) && ge[k] == e {
            assert(keyed(first_edges(all), k));
            assert(has_key(m, k));
            let u = choose|u: TileId| #[trigger] m.contains_key(u) && m[u].contains_key(k);
            assert forall|j: int| 0 <= j < ps.len() implies (#[trigger] g.slice_one_spec(ps[j], u)) is Ok by {}
            lemma_sliced_restricts(g, ps, u);
            assert(m[u][k] == e);
        }
    }
}

/// Reassembly does not depend on how the tiles were cut: mosaics of every tile slicing `ps`
/// yields on two grids, whatever their extents and buffers, carry the same keys and the same
/// edges, and so give back the same features in the same order. This needs the input never to
/// repeat a directed edge with different vertices.
pub proof fn law_reassembly_ignores_cut<V: Vertex>(
    g1: Grid,
    g2: Grid,
    ps: Seq<Seq<V>>,
    m1: Map<TileId, Map<(Coord, Coord), (V, V)>>,
    m2: Map<TileId, Map<(Coord, Coord), (V, V)>>,
)
    requires
        g1.wf(),
        g2.wf(),
        forall|j: int, u: TileId|
            0 <= j < ps.len() && g1.box_of(u) is Some ==> (#[trigger] g1.slice_one_spec(ps[j], u)) is Ok,
        forall|j: int, u: TileId|
            0 <= j < ps.len() && g2.box_of(u) is Some ==> (#[trigger] g2.slice_one_spec(ps[j], u)) is Ok,
        forall|u: TileId|
            #[trigger] m1.contains_key(u) ==> g1.box_of(u) is Some && m1[u] == sliced_edges(g1, ps, u),
        forall|u: TileId|
            #[trigger] m2.contains_key(u) ==> g2.box_of(u) is Some && m2[u] == sliced_edges(g2, ps, u),
        forall|u: TileId, k: (Coord, Coord)|
            g1.box_of(u) is Some && #[trigger] sliced_edges(g1, ps, u).contains_key(k) ==> m1.contains_key(u),
        forall|u: TileId, k: (Coord, Coord)|
            g2.box_of(u) is Some && #[trigger] sliced_edges(g2, ps, u).contains_key(k) ==> m2.contains_key(u),
        forall|i: int|
            0 <= i < all_segs(ps).len() ==> g1.box_of(
                tile_of_spec((#[trigger] all_segs(ps)[i]).0.pos(), g1.extent as int),
            ) is Some,
        forall|i: int|
            0 <= i < all_segs(ps).len() ==> g2.box_of(
                tile_of_spec((#[trigger] all_segs(ps)[i]).0.pos(), g2.extent as int),
            ) is Some,
        uniform_keys(all_segs(ps)),
    ensures
        forall|k: (Coord, Coord)| has_key(m1, k) <==> has_key(m2, k),
        forall|e: (V, V)| carried(m1, e) <==> carried(m2, e),
        reassembled(m1) == reassembled(m2),
{
    lemma_sliced_carries_global(g1, ps, m1);
    lemma_sliced_carries_global(g2, ps, m2);
    law_features_depend_only_on_edges(m1, m2);
}

/// All the runs a tile holds after a history of additions are the runs slicing the recorded
/// polylines gives it.
proof fn lemma_history_runs<V: Vertex>(g: Grid, ps: Seq<Seq<V>>, t: TileId)
    ensures
        feature_runs(history(g, ps, t)) == tile_runs(
            g,
            ps.filter(|p: Seq<V>| add_succeeds(g, p)),
            t,
        ),
    decreases ps.len(),
{
    reveal(Seq::filter);
    let f = |p: Seq<V>| add_succeeds(g, p);
    if ps.len() > 0 {
        let rest = ps.drop_last();
        let x = ps.last();
        lemma_history_runs(g, rest, t);
        let fr = rest.filter(f);
        assert(ps.filter(f) == (if f(x) {
            fr.push(x)
        } else {
            fr
        }));
        let h = history(g, rest, t);
        if f(x) {
            assert(fr.push(x).drop_last() =~= fr);
            let runs = clip_new(g, x, t);
            if runs.len() > 0 {
                assert(h.push((runs, ())).drop_last() =~= h);
            } else {
                assert(feature_runs(h) + runs =~= feature_runs(h));
            }
        }
    }
}

/// Each polyline kept by a filter is one of the polylines, and meets the filter.
proof fn lemma_filter_from<V>(ps: Seq<Seq<V>>, f: spec_fn(Seq<V>) -> bool)
    ensures
        forall|i: int|
            0 <= i < ps.filter(f).len() ==> ps.contains(#[trigger] ps.filter(f)[i]) && f(
                ps.filter(f)[i],
            ),
    decreases ps.len(),
{
    reveal(Seq::filter);
    if ps.len() > 0 {
        let rest = ps.drop_last();
        lemma_filter_from(rest, f);
        let fr = rest.filter(f);
        assert(ps.filter(f) == (if f(ps.last()) {
            fr.push(ps.last())
        } else {
            fr
        }));
        assert forall|i: int| 0 <= i < ps.filter(f).len() implies ps.contains(
            #[trigger] ps.filter(f)[i],
        ) && f(ps.filter(f)[i]) by {
            if i < fr.len() {
                assert(ps.filter(f)[i] == fr[i]);
                assert(rest.contains(fr[i]));
                let j = choose|j: int| 0 <= j < rest.len() && rest[j] == fr[i];
                assert(ps[j] == rest[j]);
            } else {
                assert(ps.filter(f)[i] == ps.last());
                assert(ps[ps.len() - 1] == ps.last());
            }
        }
    }
}

/// The first vertex of every segment of polylines that do not overflow lies in a tile with a box.
proof fn lemma_segs_boxed<V: Vertex>(g: Grid, ps: Seq<Seq<V>>)
    requires
        forall|j: int| 0 <= j < ps.len() ==> !g.overflows(#[trigger] ps[j]),
    ensures
        forall|i: int|
            0 <= i < all_segs(ps).len() ==> g.box_of(
                tile_of_spec((#[trigger] all_segs(ps)[i]).0.pos(), g.extent as int),
            ) is Some,
    decreases ps.len(),
{
    if ps.len() > 0 {
        let rest = ps.drop_last();
        assert forall|j: int| 0 <= j < rest.len() implies !g.overflows(#[trigger] rest[j]) by {
            assert(rest[j] == ps[j]);
        }
        lemma_segs_boxed(g, rest);
        let p = ps.last();
        assert(!g.overflows(ps[ps.len() - 1]));
        let q = dedup(p);
        if q.len() >= 1 {
            lemma_segs_at(q, q.len() - 1);
        }
        let a = all_segs(rest);
        let b = polyline_segs(p);
        assert forall|i: int| 0 <= i < all_segs(ps).len() implies g.box_of(
            tile_of_spec((#[trigger] all_segs(ps)[i]).0.pos(), g.extent as int),
        ) is Some by {
            if i < a.len() {
                assert(all_segs(ps)[i] == a[i]);
            } else {
                let k = i - a.len();
                assert(all_segs(ps)[i] == b[k]);
                assert(b[k] == (q[k], q[k + 1]));
                assert(!g.seg_overflows(q[k].pos(), q[k + 1].pos()));
            }
        }
    }
}

/// A polyline that does not overflow clips without error in every tile with a box: every vertex
/// kept there ends a segment touching the box, which can express both its endpoints in the tile's
/// frame.
proof fn lemma_no_overflow_clips<V: Vertex>(g: Grid, p: Seq<V>, u: TileId)
    requires
        g.wf(),
        !g.overflows(p),
        g.box_of(u) is Some,
    ensures
        g.slice_one_spec(p, u) is Ok,
{
    let q = dedup(p);
    let (mn, mx) = g.box_of(u).unwrap();
    let o = Coord { x: (mn.x + g.buffer) as i32, y: (mn.y + g.buffer) as i32 };
    let rs = clip_runs(q, mn, mx);
    let starts = law_clip_runs_are_kept_stretches(p, mn, mx);
    assert forall|x: int, y: int| 0 <= x < rs.len() && 0 <= y < rs[x].len() implies (#[trigger] local_of(
        rs[x][y].pos(),
        o,
    )) is Some by {
        assert(kept_stretch(q, mn, mx, starts[x], rs[x]));
        let j = starts[x] + y;
        assert(rs[x][y] == q[j]);
        assert(kept_upto(q, mn, mx, j, q.len() - 1));
        let s = if 1 <= j && j - 1 < q.len() - 1 && seg_hit(q, mn, mx, j - 1) {
            j - 1
        } else {
            j
        };
        assert(seg_hit(q, mn, mx, s));
        assert(!g.seg_overflows(q[s].pos(), q[s + 1].pos()));
        assert(g.box_lo(u) == mn && g.box_hi(u) == mx);
        assert(g.origin_of(g.box_lo(u)) == o);
        assert(!(g.box_of(u) is Some && touches(q[s].pos(), q[s + 1].pos(), g.box_lo(u), g.box_hi(u)) && (
        local_of(q[s].pos(), g.origin_of(g.box_lo(u))) is None || local_of(
            q[s + 1].pos(),
            g.origin_of(g.box_lo(u)),
        ) is None)));
    }
    assert(all_local(rs, o));
}

/// Slicing then reassembling gives back the input. Let the slicer `s` hold, in every tile, the
/// history of adding the polylines `ps` to a fresh slicer, as [`SlicerAll::add_feature`] leaves
/// it (see `law_history_starts_empty`). Let a mosaic at the slicer's extent hold any of the
/// slicer's tiles, each added with all the runs of its features. Then adding any tile the slicer
/// holds the same way fits the mosaic's frame and meets no conflict, as long as the recorded
/// polylines never repeat a directed edge with different vertices; and once every tile yielding an
/// edge is in, the mosaic carries a key exactly when it is a segment of a recorded polyline.
pub proof fn law_slice_then_reassemble<V: Vertex>(
    s: SlicerAll<V, ()>,
    ps: Seq<Seq<V>>,
    m: Map<TileId, Map<(Coord, Coord), (V, V)>>,
    t: TileId,
)
    requires
        s.wf(),
        forall|u: TileId| #[trigger] s.features_at(u) == history(s.grid(), ps, u),
        forall|u: TileId|
            #[trigger] m.contains_key(u) ==> s.features_at(u).len() > 0 && m[u] == edge_map(
                tile_edges(u, s.grid().extent as int, feature_runs(s.features_at(u))),
            ),
        s.features_at(t).len() > 0,
        uniform_keys(all_segs(ps.filter(|p: Seq<V>| add_succeeds(s.grid(), p)))),
    ensures
        runs_fit(
            feature_runs(s.features_at(t)),
            t.x * s.grid().extent,
            t.y * s.grid().extent,
        ),
        conflict_set(
            m,
            edge_map(tile_edges(t, s.grid().extent as int, feature_runs(s.features_at(t)))),
            t,
            s.grid().extent as int,
        ) == Set::<TileId>::empty(),
        (forall|u: TileId|
            tile_edges(u, s.grid().extent as int, feature_runs(s.features_at(u))).len() > 0
                ==> #[trigger] m.contains_key(u)) ==> forall|k: (Coord, Coord)|
            has_key(m, k) <==> keyed(
                all_segs(ps.filter(|p: Seq<V>| add_succeeds(s.grid(), p))),
                k,
            ),
{
    let g = s.grid();
    s.lemma_wf_grid();
    let f = |p: Seq<V>| add_succeeds(g, p);
    let ok = ps.filter(f);
    lemma_filter_from(ps, f);
    assert forall|u: TileId| #[trigger] feature_runs(s.features_at(u)) == tile_runs(g, ok, u) by {
        lemma_history_runs(g, ps, u);
    }
    assert forall|j: int, u: TileId|
        0 <= j < ok.len() && g.box_of(u) is Some implies (#[trigger] g.slice_one_spec(ok[j], u)) is Ok by {
        assert(f(ok[j]));
        lemma_no_overflow_clips(g, ok[j], u);
    }
    // A tile holding a feature has a box: some recorded polyline clips to a run there.
    assert(g.box_of(t) is Some) by {
        if g.box_of(t) is None {
            assert forall|j: int| 0 <= j < ok.len() implies #[trigger] clip_new(g, ok[j], t).len() == 0 by {}
            lemma_tile_runs_empty(g, ok, t);
            lemma_history_nonempty(g, ps, t);
        }
    }
    assert forall|u: TileId| #[trigger] m.contains_key(u) implies g.box_of(u) is Some && m[u]
        == sliced_edges(g, ok, u) by {
        if g.box_of(u) is None {
            assert forall|j: int| 0 <= j < ok.len() implies #[trigger] clip_new(g, ok[j], u).len() == 0 by {}
            lemma_tile_runs_empty(g, ok, u);
            lemma_history_nonempty(g, ps, u);
        }
    }
    assert(feature_runs(s.features_at(t)) == tile_runs(g, ok, t));
    law_sliced_tiles_never_conflict(g, ok, m, t);
    if forall|u: TileId|
        tile_edges(u, g.extent as int, feature_runs(s.features_at(u))).len() > 0
            ==> #[trigger] m.contains_key(u) {
        assert forall|u: TileId, k: (Coord, Coord)|
            g.box_of(u) is Some && #[trigger] sliced_edges(g, ok, u).contains_key(k) implies m.contains_key(u) by {
            assert(feature_runs(s.features_at(u)) == tile_runs(g, ok, u));
            let es = tile_edges(u, g.extent as int, tile_runs(g, ok, u));
            if es.len() == 0 {
                assert(!edge_map(es).contains_key(k));
            }
        }
        assert forall|j: int| 0 <= j < ok.len() implies !g.overflows(#[trigger] ok[j]) by {
            assert(f(ok[j]));
        }
        lemma_segs_boxed(g, ok);
        law_sliced_tiles_reassemble_input(g, ok, m);
    }
}

/// No recorded polyline reaching tile `t` leaves no runs there.
proof fn lemma_tile_runs_empty<V: Vertex>(g: Grid, ps: Seq<Seq<V>>, t: TileId)
    requires
        forall|j: int| 0 <= j < ps.len() ==> #[trigger] clip_new(g, ps[j], t).len() == 0,
    ensures
        tile_runs(g, ps, t).len() == 0,
    decreases ps.len(),
{
    if ps.len() > 0 {
        let rest = ps.drop_last();
        assert forall|j: int| 0 <= j < rest.len() implies #[trigger] clip_new(g, rest[j], t).len() == 0 by {
            assert(rest[j] == ps[j]);
        }
        lemma_tile_runs_empty(g, rest, t);
        assert(clip_new(g, ps[ps.len() - 1], t).len() == 0);
    }
}

/// A tile holding a feature after a history of additions holds a run.
proof fn lemma_history_nonempty<V: Vertex>(g: Grid, ps: Seq<Seq<V>>, t: TileId)
    ensures
        history(g, ps, t).len() > 0 ==> feature_runs(history(g, ps, t)).len() > 0,
    decreases ps.len(),
{
    if ps.len() > 0 {
        let rest = ps.drop_last();
        lemma_history_nonempty(g, rest, t);
        let h = history(g, rest, t);
        let x = ps.last();
        if add_succeeds(g, x) {
            let runs = clip_new(g, x, t);
            if runs.len() > 0 {
                assert(h.push((runs, ())).drop_last() =~= h);
                assert(feature_runs(h.push((runs, ()))) == feature_runs(h) + runs);
            }
        }
    }
}

/// The segments of a polyline, consecutive duplicates dropped, are the pairs of consecutive
/// vertices of its deduplicated form.
proof fn lemma_segs_at<V>(q: Seq<V>, n: int)
    requires
        0 <= n < q.len(),
    ensures
        segs_upto(q, n).len() == n,
        forall|i: int| 0 <= i < n ==> #[trigger] segs_upto(q, n)[i] == (q[i], q[i + 1]),
    decreases n,
{
    if n > 0 {
        lemma_segs_at(q, n - 1);
        assert forall|i: int| 0 <= i < n implies #[trigger] segs_upto(q, n)[i] == (q[i], q[i + 1]) by {
            if i < n - 1 {
                assert(segs_upto(q, n)[i] == segs_upto(q, n - 1)[i]);
            }
        }
    }
}

/// Slicing a simple polyline into every tile it reaches and reassembling those tiles gives the
/// polyline back whole: when the deduplicated polyline visits each position once, the features
/// a mosaic of all its tiles reassembles (whole, maximal, each edge walked once, as
/// `iter_features` states) are exactly one feature through the polyline's positions in order.
pub proof fn law_sliced_simple_polyline_reassembles_whole<V: Vertex>(
    g: Grid,
    p: Seq<V>,
    m: Map<TileId, Map<(Coord, Coord), (V, V)>>,
    fs: Seq<Seq<V>>,
)
    requires
        g.wf(),
        dedup(p).len() >= 2,
        dedup(p).map_values(|v: V| v.pos()).no_duplicates(),
        forall|u: TileId| g.box_of(u) is Some ==> (#[trigger] g.slice_one_spec(p, u)) is Ok,
        forall|u: TileId|
            #[trigger] m.contains_key(u) ==> g.box_of(u) is Some && m[u] == sliced_edges(g, seq![p], u),
        forall|u: TileId, k: (Coord, Coord)|
            g.box_of(u) is Some && #[trigger] sliced_edges(g, seq![p], u).contains_key(k) ==> m.contains_key(u),
        forall|i: int|
            0 <= i < dedup(p).len() - 1 ==> g.box_of(
                tile_of_spec((#[trigger] dedup(p)[i]).pos(), g.extent as int),
            ) is Some,
        forall|c: int| 0 <= c < fs.len() ==> #[trigger] fs[c].len() >= 2,
        forall|c: int| 0 <= c < fs.len() ==> chain_carried(m, #[trigger] fs[c]),
        chain_keys(fs).no_duplicates(),
        forall|k: (Coord, Coord)| chain_keys(fs).contains(k) <==> has_key(m, k),
        forall|c: int| 0 <= c < fs.len() ==> #[trigger] starts_maximal(m, fs[c]),
        forall|c: int| 0 <= c < fs.len() ==> #[trigger] ends_maximal(m, fs, c),
    ensures
        fs.len() == 1,
        fs[0].len() == dedup(p).len(),
        forall|j: int| 0 <= j < dedup(p).len() ==> (#[trigger] fs[0][j]).pos() == dedup(p)[j].pos(),
{
    let ps = seq![p];
    let q = dedup(p);
    let n = q.len() - 1;
    let pos = q.map_values(|v: V| v.pos());
    assert(ps.drop_last() =~= Seq::<Seq<V>>::empty());
    assert(all_segs(ps.drop_last()) =~= Seq::<(V, V)>::empty());
    assert(all_segs(ps) =~= polyline_segs(p));
    lemma_segs_at(q, n);
    assert forall|j: int, u: TileId| 0 <= j < ps.len() && g.box_of(u) is Some implies (#[trigger] g.slice_one_spec(ps[j], u)) is Ok by {
        assert(ps[j] == p);
    }
    assert forall|i: int| 0 <= i < all_segs(ps).len() implies g.box_of(
        tile_of_spec((#[trigger] all_segs(ps)[i]).0.pos(), g.extent as int),
    ) is Some by {
        assert(all_segs(ps)[i] == (q[i], q[i + 1]));
    }
    law_sliced_tiles_reassemble_input(g, ps, m);
    assert(key_set(m) =~= path_keys(pos)) by {
        assert forall|k: (Coord, Coord)| key_set(m).contains(k) <==> path_keys(pos).contains(k) by {
            if has_key(m, k) {
                let i = choose|i: int| 0 <= i < all_segs(ps).len() && #[trigger] key_of(all_segs(ps)[i]) == k;
                assert(all_segs(ps)[i] == (q[i], q[i + 1]));
                assert(k == (pos[i], pos[i + 1]));
            }
            if path_keys(pos).contains(k) {
                let i = choose|i: int| 0 <= i < pos.len() - 1 && k == (#[trigger] pos[i], pos[i + 1]);
                assert(all_segs(ps)[i] == (q[i], q[i + 1]));
                assert(key_of(all_segs(ps)[i]) == k);
            }
        }
    }
    law_simple_path_reassembles_whole(m, pos, fs);
}

} // verus!
