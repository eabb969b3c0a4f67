//! Clipping a polyline keeps its own vertices: a vertex is kept in a tile when a segment next to
//! it touches the tile's box, and the runs kept there are exactly the maximal stretches of
//! consecutive kept vertices.

use vstd::prelude::*;

use crate::grid::{clip_runs, dedup, runs_upto, seg_hit};
use crate::vertex::{Coord, Vertex};

verus! {

/// Vertex `j` of `q` is kept by one of the first `n` segments: a segment next to it, among those,
/// touches the box `[min, max]`.
pub open spec fn kept_upto<V: Vertex>(q: Seq<V>, min: Coord, max: Coord, j: int, n: int) -> bool {
    ||| 1 <= j && j - 1 < n && seg_hit(q, min, max, j - 1)
    ||| 0 <= j && j < n && seg_hit(q, min, max, j)
}

/// Vertex `j` of `q` is kept in the box `[min, max]`: a segment next to it touches the box.
pub open spec fn kept_vertex<V: Vertex>(q: Seq<V>, min: Coord, max: Coord, j: int) -> bool {
    kept_upto(q, min, max, j, q.len() - 1)
}

/// The run `r` is the stretch of `q`'s vertices starting at `i`, all kept by the first `n`
/// segments, and the stretch cannot be grown at either end within `q`'s first `n + 1` vertices.
pub open spec fn stretch_upto<V: Vertex>(q: Seq<V>, min: Coord, max: Coord, i: int, r: Seq<V>, n: int) -> bool {
    &&& r.len() >= 2
    &&& 0 <= i
    &&& i + r.len() <= n + 1
    &&& r == q.subrange(i, i + r.len())
    &&& forall|j: int| i <= j < i + r.len() ==> #[trigger] kept_upto(q, min, max, j, n)
    &&& (i == 0 || !kept_upto(q, min, max, i - 1, n))
    &&& (i + r.len() == n + 1 || !kept_upto(q, min, max, i + r.len(), n))
}

/// The run `r` is a maximal stretch of kept vertices of `q` starting at vertex `i`.
pub open spec fn kept_stretch<V: Vertex>(q: Seq<V>, min: Coord, max: Coord, i: int, r: Seq<V>) -> bool {
    stretch_upto(q, min, max, i, r, q.len() - 1)
}

/// The runs after `n` segments are stretches, in order and apart, starting at `starts`; the last
/// one reaches vertex `n` when segment `n - 1` touches, and vertex `n - 1` when only segment
/// `n - 2` does; every vertex kept so far lies in one.
pub open spec fn runs_are_stretches<V: Vertex>(
    q: Seq<V>,
    min: Coord,
    max: Coord,
    n: int,
    starts: Seq<int>,
) -> bool {
    let rs = runs_upto(q, min, max, n);
    &&& starts.len() == rs.len()
    &&& forall|k: int| 0 <= k < rs.len() ==> stretch_upto(q, min, max, #[trigger] starts[k], rs[k], n)
    &&& forall|k: int| 0 <= k < rs.len() - 1 ==> #[trigger] starts[k] + rs[k].len() < starts[k + 1]
    &&& (n >= 1 && seg_hit(q, min, max, n - 1)) ==> rs.len() >= 1 && starts.last() + rs.last().len()
        == n + 1
    &&& (n >= 2 && !seg_hit(q, min, max, n - 1) && seg_hit(q, min, max, n - 2)) ==> rs.len() >= 1
        && starts.last() + rs.last().len() == n
    &&& forall|j: int|
        0 <= j <= n && #[trigger] kept_upto(q, min, max, j, n) ==> exists|k: int|
            0 <= k < rs.len() && #[trigger] starts[k] <= j && j < starts[k] + rs[k].len()
}

/// Runs stored in order and apart: an earlier run ends before a later one starts.
proof fn lemma_starts_apart<V>(starts: Seq<int>, rs: Seq<Seq<V>>, k: int, l: int)
    requires
        starts.len() == rs.len(),
        0 <= k < l < rs.len(),
        forall|x: int| 0 <= x < rs.len() ==> #[trigger] rs[x].len() >= 2,
        forall|x: int| 0 <= x < rs.len() - 1 ==> #[trigger] starts[x] + rs[x].len() < starts[x + 1],
    ensures
        starts[k] + rs[k].len() < starts[l],
    decreases l - k,
{
    if k + 1 < l {
        lemma_starts_apart(starts, rs, k + 1, l);
        assert(starts[k] + rs[k].len() < starts[k + 1]);
        assert(rs[k + 1].len() >= 2);
    }
}

/// One more segment changes whether a vertex is kept only for the segment's own two ends.
proof fn lemma_kept_step<V: Vertex>(q: Seq<V>, min: Coord, max: Coord, n: int)
    requires
        n >= 1,
    ensures
        forall|x: int| x <= n - 2 ==> #[trigger] kept_upto(q, min, max, x, n) == kept_upto(q, min, max, x, n - 1),
        kept_upto(q, min, max, n - 1, n) == (kept_upto(q, min, max, n - 1, n - 1) || seg_hit(q, min, max, n - 1)),
        kept_upto(q, min, max, n, n) == seg_hit(q, min, max, n - 1),
        !kept_upto(q, min, max, n, n - 1),
        forall|x: int| x > n ==> !#[trigger] kept_upto(q, min, max, x, n),
{
}

/// A missing segment leaves the runs, and their stretches, as they were.
#[verifier::spinoff_prover]
proof fn lemma_stretches_skip<V: Vertex>(q: Seq<V>, min: Coord, max: Coord, n: int, prior: Seq<int>)
    requires
        1 <= n < q.len(),
        runs_are_stretches(q, min, max, n - 1, prior),
        !seg_hit(q, min, max, n - 1),
    ensures
        runs_are_stretches(q, min, max, n, prior),
{
    let r0 = runs_upto(q, min, max, n - 1);
    let rs = runs_upto(q, min, max, n);
    assert(rs == r0);
    lemma_kept_step(q, min, max, n);
    assert forall|k: int| 0 <= k < rs.len() implies stretch_upto(q, min, max, #[trigger] prior[k], rs[k], n) by {
        assert(stretch_upto(q, min, max, prior[k], r0[k], n - 1));
        let i = prior[k];
        assert forall|j: int| i <= j < i + rs[k].len() implies #[trigger] kept_upto(q, min, max, j, n) by {
            assert(kept_upto(q, min, max, j, n - 1));
        }
    }
    assert forall|j: int| 0 <= j <= n && #[trigger] kept_upto(q, min, max, j, n) implies exists|k: int|
        0 <= k < rs.len() && #[trigger] prior[k] <= j && j < prior[k] + rs[k].len() by {
        assert(kept_upto(q, min, max, j, n - 1));
    }
}

/// A touching segment right after a touching one grows the last run by one vertex.
#[verifier::spinoff_prover]
proof fn lemma_stretches_extend<V: Vertex>(q: Seq<V>, min: Coord, max: Coord, n: int, prior: Seq<int>)
    requires
        2 <= n < q.len(),
        runs_are_stretches(q, min, max, n - 1, prior),
        seg_hit(q, min, max, n - 1),
        seg_hit(q, min, max, n - 2),
    ensures
        runs_are_stretches(q, min, max, n, prior),
{
    let r0 = runs_upto(q, min, max, n - 1);
    let rs = runs_upto(q, min, max, n);
    let last = r0.len() - 1;
    assert(rs == r0.update(last, r0[last].push(q[n])));
    let i = prior[last];
    assert(stretch_upto(q, min, max, i, r0[last], n - 1));
    assert(i + r0[last].len() == n);
    lemma_kept_step(q, min, max, n);
    assert(rs[last] == q.subrange(i, n + 1)) by {
        assert(r0[last] == q.subrange(i, n));
        assert(q.subrange(i, n).push(q[n]) =~= q.subrange(i, n + 1));
    }
    assert forall|x: int| 0 <= x < r0.len() implies #[trigger] r0[x].len() >= 2 by {
        assert(stretch_upto(q, min, max, prior[x], r0[x], n - 1));
    }
    assert forall|k: int| 0 <= k < rs.len() implies stretch_upto(q, min, max, #[trigger] prior[k], rs[k], n) by {
        assert(stretch_upto(q, min, max, prior[k], r0[k], n - 1));
        if k < last {
            assert(rs[k] == r0[k]);
            lemma_starts_apart(prior, r0, k, last);
            let ik = prior[k];
            assert forall|j: int| ik <= j < ik + rs[k].len() implies #[trigger] kept_upto(q, min, max, j, n) by {
                assert(kept_upto(q, min, max, j, n - 1));
            }
        } else {
            assert forall|j: int| i <= j < i + rs[k].len() implies #[trigger] kept_upto(q, min, max, j, n) by {
                if j < n - 1 {
                    assert(kept_upto(q, min, max, j, n - 1));
                }
            }
        }
    }
    assert forall|k: int| 0 <= k < rs.len() - 1 implies #[trigger] prior[k] + rs[k].len() < prior[k + 1] by {
        assert(prior[k] + r0[k].len() < prior[k + 1]);
        assert(rs[k] == r0[k]);
    }
    assert forall|j: int| 0 <= j <= n && #[trigger] kept_upto(q, min, max, j, n) implies exists|k: int|
        0 <= k < rs.len() && #[trigger] prior[k] <= j && j < prior[k] + rs[k].len() by {
        if j >= n - 1 {
            assert(prior[last] <= j && j < prior[last] + rs[last].len());
        } else {
            assert(kept_upto(q, min, max, j, n - 1));
            let k = choose|k: int| 0 <= k < r0.len() && #[trigger] prior[k] <= j && j < prior[k] + r0[k].len();
            assert(prior[k] <= j && j < prior[k] + rs[k].len());
        }
    }
}

/// A touching segment after a single missing one, itself after a touching one, carries the last
/// run on through the missing segment.
#[verifier::spinoff_prover]
proof fn lemma_stretches_bridge<V: Vertex>(q: Seq<V>, min: Coord, max: Coord, n: int, prior: Seq<int>)
    requires
        3 <= n < q.len(),
        runs_are_stretches(q, min, max, n - 1, prior),
        seg_hit(q, min, max, n - 1),
        !seg_hit(q, min, max, n - 2),
        seg_hit(q, min, max, n - 3),
    ensures
        runs_are_stretches(q, min, max, n, prior),
{
    let r0 = runs_upto(q, min, max, n - 1);
    let rs = runs_upto(q, min, max, n);
    let last = r0.len() - 1;
    assert(rs == r0.update(last, r0[last].push(q[n - 1]).push(q[n])));
    let i = prior[last];
    assert(stretch_upto(q, min, max, i, r0[last], n - 1));
    assert(i + r0[last].len() == n - 1);
    lemma_kept_step(q, min, max, n);
    assert(rs[last] == q.subrange(i, n + 1)) by {
        assert(r0[last] == q.subrange(i, n - 1));
        assert(q.subrange(i, n - 1).push(q[n - 1]).push(q[n]) =~= q.subrange(i, n + 1));
    }
    assert forall|x: int| 0 <= x < r0.len() implies #[trigger] r0[x].len() >= 2 by {
        assert(stretch_upto(q, min, max, prior[x], r0[x], n - 1));
    }
    assert forall|k: int| 0 <= k < rs.len() implies stretch_upto(q, min, max, #[trigger] prior[k], rs[k], n) by {
        assert(stretch_upto(q, min, max, prior[k], r0[k], n - 1));
        if k < last {
            assert(rs[k] == r0[k]);
            lemma_starts_apart(prior, r0, k, last);
            let ik = prior[k];
            assert forall|j: int| ik <= j < ik + rs[k].len() implies #[trigger] kept_upto(q, min, max, j, n) by {
                assert(kept_upto(q, min, max, j, n - 1));
            }
        } else {
            assert forall|j: int| i <= j < i + rs[k].len() implies #[trigger] kept_upto(q, min, max, j, n) by {
                if j < n - 1 {
                    assert(kept_upto(q, min, max, j, n - 1));
                }
            }
        }
    }
    assert forall|k: int| 0 <= k < rs.len() - 1 implies #[trigger] prior[k] + rs[k].len() < prior[k + 1] by {
        assert(prior[k] + r0[k].len() < prior[k + 1]);
        assert(rs[k] == r0[k]);
    }
    assert forall|j: int| 0 <= j <= n && #[trigger] kept_upto(q, min, max, j, n) implies exists|k: int|
        0 <= k < rs.len() && #[trigger] prior[k] <= j && j < prior[k] + rs[k].len() by {
        if j >= n - 1 {
            assert(prior[last] <= j && j < prior[last] + rs[last].len());
        } else {
            assert(kept_upto(q, min, max, j, n - 1));
            let k = choose|k: int| 0 <= k < r0.len() && #[trigger] prior[k] <= j && j < prior[k] + r0[k].len();
            assert(prior[k] <= j && j < prior[k] + rs[k].len());
        }
    }
}

/// A touching segment with no kept vertex just before it opens a new two-vertex run.
#[verifier::spinoff_prover]
proof fn lemma_stretches_open<V: Vertex>(q: Seq<V>, min: Coord, max: Coord, n: int, prior: Seq<int>)
    requires
        1 <= n < q.len(),
        runs_are_stretches(q, min, max, n - 1, prior),
        seg_hit(q, min, max, n - 1),
        !(n >= 2 && seg_hit(q, min, max, n - 2)),
        !(n >= 3 && seg_hit(q, min, max, n - 3)),
    ensures
        runs_are_stretches(q, min, max, n, prior.push(n - 1)),
{
    let r0 = runs_upto(q, min, max, n - 1);
    let rs = runs_upto(q, min, max, n);
    let fresh = seq![q[n - 1], q[n]];
    assert(rs == r0.push(fresh));
    let starts = prior.push(n - 1);
    assert(fresh =~= q.subrange(n - 1, n + 1));
    lemma_kept_step(q, min, max, n);
    // Neither vertex `n - 2` nor `n - 1` was kept, so every earlier run ends by vertex `n - 3`.
    assert(!kept_upto(q, min, max, n - 1, n - 1));
    assert(n >= 2 ==> !kept_upto(q, min, max, n - 2, n - 1));
    assert forall|k: int| 0 <= k < r0.len() implies prior[k] + r0[k].len() <= n - 2 by {
        assert(stretch_upto(q, min, max, prior[k], r0[k], n - 1));
        let e = prior[k] + r0[k].len() - 1;
        assert(kept_upto(q, min, max, e, n - 1));
    }
    assert forall|k: int| 0 <= k < rs.len() implies stretch_upto(q, min, max, #[trigger] starts[k], rs[k], n) by {
        if k < r0.len() {
            assert(stretch_upto(q, min, max, prior[k], r0[k], n - 1));
            assert(rs[k] == r0[k] && starts[k] == prior[k]);
            let ik = prior[k];
            assert forall|j: int| ik <= j < ik + rs[k].len() implies #[trigger] kept_upto(q, min, max, j, n) by {
                assert(kept_upto(q, min, max, j, n - 1));
            }
        } else {
            assert(rs[k] == fresh && starts[k] == n - 1);
            assert(kept_upto(q, min, max, n - 1, n) && kept_upto(q, min, max, n, n));
        }
    }
    assert forall|k: int| 0 <= k < rs.len() - 1 implies #[trigger] starts[k] + rs[k].len() < starts[k + 1] by {
        assert(rs[k] == r0[k] && starts[k] == prior[k]);
        if k + 1 < r0.len() {
            assert(prior[k] + r0[k].len() < prior[k + 1]);
        }
    }
    assert forall|j: int| 0 <= j <= n && #[trigger] kept_upto(q, min, max, j, n) implies exists|k: int|
        0 <= k < rs.len() && #[trigger] starts[k] <= j && j < starts[k] + rs[k].len() by {
        let l = r0.len() as int;
        if j >= n - 1 {
            assert(starts[l] <= j && j < starts[l] + rs[l].len());
        } else {
            assert(kept_upto(q, min, max, j, n - 1));
            let k = choose|k: int| 0 <= k < r0.len() && #[trigger] prior[k] <= j && j < prior[k] + r0[k].len();
            assert(starts[k] <= j && j < starts[k] + rs[k].len());
        }
    }
}

/// The runs of the first `n` segments are stretches of `q`, found by induction on `n`.
proof fn lemma_runs_stretches<V: Vertex>(q: Seq<V>, min: Coord, max: Coord, n: int) -> (starts: Seq<int>)
    requires
        0 <= n < q.len(),
    ensures
        runs_are_stretches(q, min, max, n, starts),
    decreases n,
{
    if n == 0 {
        Seq::empty()
    } else {
        let prior = lemma_runs_stretches(q, min, max, n - 1);
        if !seg_hit(q, min, max, n - 1) {
            lemma_stretches_skip(q, min, max, n, prior);
            prior
        } else if n >= 2 && seg_hit(q, min, max, n - 2) {
            lemma_stretches_extend(q, min, max, n, prior);
            prior
        } else if n >= 3 && seg_hit(q, min, max, n - 3) {
            lemma_stretches_bridge(q, min, max, n, prior);
            prior
        } else {
            lemma_stretches_open(q, min, max, n, prior);
            prior.push(n - 1)
        }
    }
}

/// Clipping keeps the polyline's own vertices and adds none: with consecutive duplicate positions
/// dropped, a vertex is kept when a segment next to it touches the box `[min, max]`, and the runs
/// kept there are exactly the maximal stretches of consecutive kept vertices, listed in order
/// along the polyline (`starts` gives where each begins). A run breaks only at a dropped vertex,
/// so a single segment that leaves the box and comes straight back stays inside one run.
pub proof fn law_clip_runs_are_kept_stretches<V: Vertex>(polyline: Seq<V>, min: Coord, max: Coord) -> (starts: Seq<int>)
    ensures
        ({
            let q = dedup(polyline);
            let rs = clip_runs(q, min, max);
            &&& starts.len() == rs.len()
            &&& forall|k: int| 0 <= k < rs.len() ==> kept_stretch(q, min, max, #[trigger] starts[k], rs[k])
            &&& forall|k: int, l: int| 0 <= k < l < rs.len() ==> #[trigger] starts[k] + rs[k].len() < #[trigger] starts[l]
            &&& forall|j: int| 0 <= j < q.len() && #[trigger] kept_vertex(q, min, max, j) ==> exists|k: int|
                0 <= k < rs.len() && #[trigger] starts[k] <= j && j < starts[k] + rs[k].len()
        }),
{
    let q = dedup(polyline);
    if q.len() == 0 {
        assert(clip_runs(q, min, max) =~= Seq::<Seq<V>>::empty());
        Seq::empty()
    } else {
        let n = q.len() - 1;
        let starts = lemma_runs_stretches(q, min, max, n);
        let rs = clip_runs(q, min, max);
        assert forall|k: int, l: int| 0 <= k < l < rs.len() implies #[trigger] starts[k] + rs[k].len() < #[trigger] starts[l] by {
            assert forall|x: int| 0 <= x < rs.len() implies #[trigger] rs[x].len() >= 2 by {
                assert(stretch_upto(q, min, max, starts[x], rs[x], n));
            }
            lemma_starts_apart(starts, rs, k, l);
        }
        starts
    }
}

} // verus!
