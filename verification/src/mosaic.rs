//! Stateful reassembly of sliced tiles back into whole features — the accumulating inverse of
//! [`SlicerAll`](crate::SlicerAll).
//!
//! Feed [`Mosaic::add`] each tile's runs in its local frame; the mosaic rebases them into the global
//! frame (`local + tile·extent`) and links geometry across borders by shared **directed edges**,
//! keyed by their endpoint positions. [`add`](Mosaic::add) rejects a tile that is inconsistent with
//! those already present — naming the ones it conflicts with, and leaving the mosaic unchanged:
//!
//! - **Payload:** a shared edge whose vertices disagree with the added tile's copy.
//! - **Membership:** every tile is complete in its own *core* (the cell it owns), so an edge with an
//!   endpoint in a present tile's core must be carried by that tile, both ways round.
//!
//! [`iter_features`](Mosaic::iter_features) re-chains the distinct edges into polylines.

use vstd::prelude::*;

use crate::error::TileError;
use crate::grid::{fits, runs_view};
use crate::stitch::{chain_keys, ends_well, follows, in_count, out_count, starts_well, stitch, stitched};
use crate::tile::{tile_lt, tile_of, tile_of_spec, TileId};
use crate::vertex::{Coord, Vertex};

verus! {

/// A directed edge's key: the positions of its two endpoints.
pub open spec fn key_of<V: Vertex>(e: (V, V)) -> (Coord, Coord) {
    (e.0.pos(), e.1.pos())
}

/// Edges with pairwise distinct keys, none of zero length.
pub open spec fn edges_wf<V: Vertex>(es: Seq<(V, V)>) -> bool {
    &&& forall|i: int, j: int| 0 <= i < j < es.len() ==> key_of(es[i]) != key_of(es[j])
    &&& forall|i: int| 0 <= i < es.len() ==> (#[trigger] es[i]).0.pos() != es[i].1.pos()
}

/// A list of edges with distinct keys, as a map from key to the edge's two vertices.
pub open spec fn edge_map<V: Vertex>(es: Seq<(V, V)>) -> Map<(Coord, Coord), (V, V)> {
    Map::new(
        |k: (Coord, Coord)| exists|i: int| 0 <= i < es.len() && key_of(es[i]) == k,
        |k: (Coord, Coord)| es[choose|i: int| 0 <= i < es.len() && key_of(es[i]) == k],
    )
}

/// In a list with distinct keys, the map entry of an edge's key is that edge.
pub proof fn lemma_edge_map_at<V: Vertex>(es: Seq<(V, V)>, i: int)
    requires
        edges_wf(es),
        0 <= i < es.len(),
    ensures
        edge_map(es).contains_key(key_of(es[i])),
        edge_map(es)[key_of(es[i])] == es[i],
{
    let k = key_of(es[i]);
    assert(edge_map(es).contains_key(k));
    let j = choose|j: int| 0 <= j < es.len() && key_of(es[j]) == k;
    if j != i {
        if j < i {
            assert(key_of(es[j]) != key_of(es[i]));
        } else {
            assert(key_of(es[i]) != key_of(es[j]));
        }
    }
}

/// Every key carried by two tiles has the same vertices in both.
pub open spec fn consistent<V>(m: Map<TileId, Map<(Coord, Coord), (V, V)>>) -> bool {
    forall|u: TileId, w: TileId, k: (Coord, Coord)|
        m.contains_key(u) && m.contains_key(w) && #[trigger] m[u].contains_key(k)
            && #[trigger] m[w].contains_key(k) ==> m[u][k] == m[w][k]
}

/// One tile's contribution: its distinct directed edges in the global frame.
struct TileEdges<V> {
    tile: TileId,
    edges: Vec<(V, V)>,
}

/// Tile entries sorted strictly by tile, each holding at least one edge, with distinct keys.
spec fn entries_wf<V: Vertex>(s: Seq<TileEdges<V>>) -> bool {
    &&& forall|i: int, j: int| 0 <= i < j < s.len() ==> tile_lt(s[i].tile, s[j].tile)
    &&& forall|i: int|
        #![trigger s[i]]
        0 <= i < s.len() ==> s[i].edges@.len() >= 1 && edges_wf(s[i].edges@)
}

/// The tiles present and the edges each carries.
spec fn entries_view<V: Vertex>(s: Seq<TileEdges<V>>) -> Map<TileId, Map<(Coord, Coord), (V, V)>> {
    Map::new(
        |t: TileId| exists|i: int| 0 <= i < s.len() && s[i].tile == t,
        |t: TileId| edge_map(s[choose|i: int| 0 <= i < s.len() && s[i].tile == t].edges@),
    )
}

/// The tile ids of the entries, in storage order.
spec fn entry_ids<V>(s: Seq<TileEdges<V>>) -> Seq<TileId> {
    s.map_values(|e: TileEdges<V>| e.tile)
}

/// In sorted storage, the entry at `i` is what the view holds for its tile.
proof fn lemma_view_at<V: Vertex>(s: Seq<TileEdges<V>>, i: int)
    requires
        forall|a: int, b: int| 0 <= a < b < s.len() ==> tile_lt(s[a].tile, s[b].tile),
        0 <= i < s.len(),
    ensures
        entries_view(s).contains_key(s[i].tile),
        entries_view(s)[s[i].tile] == edge_map(s[i].edges@),
{
    let t = s[i].tile;
    assert(entries_view(s).contains_key(t));
    let j = choose|j: int| 0 <= j < s.len() && s[j].tile == t;
    if j < i {
        assert(tile_lt(s[j].tile, s[i].tile));
    } else if j > i {
        assert(tile_lt(s[i].tile, s[j].tile));
    }
}

/// The view's tiles are exactly the stored ids, and there are as many as entries.
proof fn lemma_view_dom<V: Vertex>(s: Seq<TileEdges<V>>)
    requires
        forall|a: int, b: int| 0 <= a < b < s.len() ==> tile_lt(s[a].tile, s[b].tile),
    ensures
        entries_view(s).dom() == entry_ids(s).to_set(),
        entries_view(s).dom().len() == s.len(),
{
    let ids = entry_ids(s);
    assert forall|t: TileId| entries_view(s).dom().contains(t) <==> ids.to_set().contains(t) by {
        if entries_view(s).dom().contains(t) {
            let j = choose|j: int| 0 <= j < s.len() && s[j].tile == t;
            assert(ids[j] == t);
        }
        if ids.to_set().contains(t) {
            let j = choose|j: int| 0 <= j < ids.len() && ids[j] == t;
            assert(s[j].tile == t);
        }
    }
    assert(entries_view(s).dom() =~= ids.to_set());
    assert(ids.no_duplicates()) by {
        assert forall|a: int, b: int| 0 <= a < ids.len() && 0 <= b < ids.len() && a != b implies ids[a]
            != ids[b] by {
            if a < b {
                assert(tile_lt(s[a].tile, s[b].tile));
            } else {
                assert(tile_lt(s[b].tile, s[a].tile));
            }
        }
    }
    ids.unique_seq_to_set();
}

/// Replacing the entry at `k` by one for the same tile replaces that tile's edges in the view.
proof fn lemma_view_update<V: Vertex>(s: Seq<TileEdges<V>>, k: int, e: TileEdges<V>)
    requires
        forall|a: int, b: int| 0 <= a < b < s.len() ==> tile_lt(s[a].tile, s[b].tile),
        0 <= k < s.len(),
        s[k].tile == e.tile,
    ensures
        entries_view(s.update(k, e)) == entries_view(s).insert(e.tile, edge_map(e.edges@)),
{
    let n = s.update(k, e);
    assert forall|a: int, b: int| 0 <= a < b < n.len() implies tile_lt(n[a].tile, n[b].tile) by {
        assert(n[a].tile == s[a].tile && n[b].tile == s[b].tile);
    }
    let lhs = entries_view(n);
    let rhs = entries_view(s).insert(e.tile, edge_map(e.edges@));
    assert forall|t: TileId| lhs.contains_key(t) <==> rhs.contains_key(t) by {
        if lhs.contains_key(t) {
            let j = choose|j: int| 0 <= j < n.len() && n[j].tile == t;
            assert(s[j].tile == t);
        }
        if rhs.contains_key(t) && t != e.tile {
            let j = choose|j: int| 0 <= j < s.len() && s[j].tile == t;
            assert(n[j].tile == t);
        }
        if t == e.tile {
            assert(n[k].tile == t);
        }
    }
    assert forall|t: TileId| lhs.contains_key(t) implies lhs[t] == rhs[t] by {
        let j = choose|j: int| 0 <= j < n.len() && n[j].tile == t;
        lemma_view_at(n, j);
        if j == k {
            assert(n[j] == e);
            assert(t == e.tile);
        } else {
            assert(n[j] == s[j]);
            lemma_view_at(s, j);
            if j < k {
                assert(tile_lt(s[j].tile, s[k].tile));
            } else {
                assert(tile_lt(s[k].tile, s[j].tile));
            }
            assert(t != e.tile);
        }
    }
    assert(lhs =~= rhs);
}

/// Removing the entry at `k` removes that tile from the view.
proof fn lemma_view_remove<V: Vertex>(s: Seq<TileEdges<V>>, k: int)
    requires
        forall|a: int, b: int| 0 <= a < b < s.len() ==> tile_lt(s[a].tile, s[b].tile),
        0 <= k < s.len(),
    ensures
        forall|a: int, b: int|
            0 <= a < b < s.remove(k).len() ==> tile_lt(s.remove(k)[a].tile, s.remove(k)[b].tile),
        entries_view(s.remove(k)) == entries_view(s).remove(s[k].tile),
{
    let n = s.remove(k);
    assert forall|a: int| 0 <= a < n.len() implies #[trigger] n[a] == (if a < k {
        s[a]
    } else {
        s[a + 1]
    }) by {}
    assert forall|a: int, b: int| 0 <= a < b < n.len() implies tile_lt(n[a].tile, n[b].tile) by {
        if b < k {
            assert(n[a] == s[a] && n[b] == s[b]);
        } else if a < k {
            assert(n[a] == s[a] && n[b] == s[b + 1]);
        } else {
            assert(n[a] == s[a + 1] && n[b] == s[b + 1]);
        }
    }
    let lhs = entries_view(n);
    let rhs = entries_view(s).remove(s[k].tile);
    assert forall|t: TileId| lhs.contains_key(t) <==> rhs.contains_key(t) by {
        if lhs.contains_key(t) {
            let j = choose|j: int| 0 <= j < n.len() && n[j].tile == t;
            let js = if j < k { j } else { j + 1 };
            assert(s[js].tile == t);
            if js < k {
                assert(tile_lt(s[js].tile, s[k].tile));
            } else {
                assert(tile_lt(s[k].tile, s[js].tile));
            }
        }
        if rhs.contains_key(t) {
            let j = choose|j: int| 0 <= j < s.len() && s[j].tile == t;
            assert(j != k);
            let jn = if j < k { j } else { j - 1 };
            assert(n[jn].tile == t);
        }
    }
    assert forall|t: TileId| lhs.contains_key(t) implies lhs[t] == rhs[t] by {
        let j = choose|j: int| 0 <= j < n.len() && n[j].tile == t;
        lemma_view_at(n, j);
        let js = if j < k { j } else { j + 1 };
        assert(n[j] == s[js]);
        lemma_view_at(s, js);
    }
    assert(lhs =~= rhs);
}

/// Inserting a new tile's entry at its sorted place `k` adds that tile to the view.
proof fn lemma_view_insert<V: Vertex>(s: Seq<TileEdges<V>>, k: int, e: TileEdges<V>)
    requires
        forall|a: int, b: int| 0 <= a < b < s.len() ==> tile_lt(s[a].tile, s[b].tile),
        0 <= k <= s.len(),
        forall|a: int| 0 <= a < k ==> tile_lt(#[trigger] s[a].tile, e.tile),
        k < s.len() ==> tile_lt(e.tile, s[k].tile),
    ensures
        forall|a: int, b: int|
            0 <= a < b < s.insert(k, e).len() ==> tile_lt(
                s.insert(k, e)[a].tile,
                s.insert(k, e)[b].tile,
            ),
        entries_view(s.insert(k, e)) == entries_view(s).insert(e.tile, edge_map(e.edges@)),
{
    let n = s.insert(k, e);
    assert forall|a: int| 0 <= a < n.len() implies #[trigger] n[a] == (if a < k {
        s[a]
    } else if a == k {
        e
    } else {
        s[a - 1]
    }) by {}
    assert forall|a: int, b: int| 0 <= a < b < n.len() implies tile_lt(n[a].tile, n[b].tile) by {
        if b < k {
            assert(n[a] == s[a] && n[b] == s[b]);
        } else if b == k {
            assert(n[a] == s[a]);
        } else if a < k {
            assert(n[a] == s[a] && n[b] == s[b - 1]);
            assert(tile_lt(e.tile, s[k].tile));
            if b - 1 > k {
                assert(tile_lt(s[k].tile, s[b - 1].tile));
            }
        } else if a == k {
            assert(n[b] == s[b - 1]);
            if b - 1 > k {
                assert(tile_lt(s[k].tile, s[b - 1].tile));
            }
        } else {
            assert(n[a] == s[a - 1] && n[b] == s[b - 1]);
        }
    }
    let lhs = entries_view(n);
    let rhs = entries_view(s).insert(e.tile, edge_map(e.edges@));
    assert forall|t: TileId| lhs.contains_key(t) <==> rhs.contains_key(t) by {
        if lhs.contains_key(t) && t != e.tile {
            let j = choose|j: int| 0 <= j < n.len() && n[j].tile == t;
            let js = if j < k { j } else { j - 1 };
            assert(j != k);
            assert(s[js].tile == t);
        }
        if rhs.contains_key(t) && t != e.tile {
            let j = choose|j: int| 0 <= j < s.len() && s[j].tile == t;
            let jn = if j < k { j } else { j + 1 };
            assert(n[jn].tile == t);
        }
        if t == e.tile {
            assert(n[k].tile == t);
        }
    }
    assert forall|t: TileId| lhs.contains_key(t) implies lhs[t] == rhs[t] by {
        let j = choose|j: int| 0 <= j < n.len() && n[j].tile == t;
        lemma_view_at(n, j);
        if j != k {
            let js = if j < k { j } else { j - 1 };
            assert(n[j] == s[js]);
            lemma_view_at(s, js);
            if js < k {
                assert(tile_lt(s[js].tile, e.tile));
            } else {
                assert(tile_lt(e.tile, s[k].tile));
                if js > k {
                    assert(tile_lt(s[k].tile, s[js].tile));
                }
            }
            assert(t != e.tile);
        } else {
            assert(n[j] == e);
            assert(t == e.tile);
        }
    }
    assert(lhs =~= rhs);
}

/// `v` moved by `(ox, oy)` stays within `i32`.
pub open spec fn rebase_fits<V: Vertex>(v: V, ox: int, oy: int) -> bool {
    fits(v.pos().x + ox) && fits(v.pos().y + oy)
}

/// `v` moved by `(ox, oy)`, payload unchanged.
pub open spec fn rebased<V: Vertex>(v: V, ox: int, oy: int) -> V {
    v.moved_to(Coord { x: (v.pos().x + ox) as i32, y: (v.pos().y + oy) as i32 })
}

/// Every vertex of `runs` moved by `(ox, oy)` stays within `i32`.
pub open spec fn runs_fit<V: Vertex>(runs: Seq<Seq<V>>, ox: int, oy: int) -> bool {
    forall|i: int, j: int|
        0 <= i < runs.len() && 0 <= j < runs[i].len() ==> #[trigger] rebase_fits(runs[i][j], ox, oy)
}

/// The directed edges of one run moved by `(ox, oy)`: its consecutive vertex pairs at distinct
/// positions, in order.
pub open spec fn run_edges<V: Vertex>(run: Seq<V>, ox: int, oy: int) -> Seq<(V, V)>
    decreases run.len(),
{
    if run.len() < 2 {
        Seq::empty()
    } else {
        let prior = run_edges(run.drop_last(), ox, oy);
        let a = run[run.len() - 2];
        let b = run[run.len() - 1];
        if a.pos() != b.pos() {
            prior.push((rebased(a, ox, oy), rebased(b, ox, oy)))
        } else {
            prior
        }
    }
}

/// The directed edges of all `runs` moved by `(ox, oy)`, run after run.
pub open spec fn runs_edges<V: Vertex>(runs: Seq<Seq<V>>, ox: int, oy: int) -> Seq<(V, V)>
    decreases runs.len(),
{
    if runs.len() == 0 {
        Seq::empty()
    } else {
        runs_edges(runs.drop_last(), ox, oy) + run_edges(runs.last(), ox, oy)
    }
}

/// `es` keeping only the first edge of each key, in order.
pub open spec fn first_edges<V: Vertex>(es: Seq<(V, V)>) -> Seq<(V, V)>
    decreases es.len(),
{
    if es.len() == 0 {
        Seq::empty()
    } else {
        let f = first_edges(es.drop_last());
        if exists|i: int| 0 <= i < f.len() && key_of(f[i]) == key_of(es.last()) {
            f
        } else {
            f.push(es.last())
        }
    }
}

/// The distinct edges tile `tile` contributes when its local `runs` are rebased into the global
/// frame at `extent`.
pub open spec fn tile_edges<V: Vertex>(tile: TileId, extent: int, runs: Seq<Seq<V>>) -> Seq<(V, V)> {
    first_edges(runs_edges(runs, tile.x * extent, tile.y * extent))
}

/// Key `k` has an endpoint in tile `t`'s cell.
pub open spec fn owned_by(k: (Coord, Coord), extent: int, t: TileId) -> bool {
    tile_of_spec(k.0, extent) == t || tile_of_spec(k.1, extent) == t
}

/// Whether a present tile `u` carrying `theirs` disagrees with tile `tile` contributing `mine`:
/// a shared edge with different vertices, an edge of `u`'s with an endpoint in `tile`'s cell that
/// `tile` lacks, or an edge of `tile`'s with an endpoint in `u`'s cell that `u` lacks.
pub open spec fn disagrees<V>(
    mine: Map<(Coord, Coord), (V, V)>,
    theirs: Map<(Coord, Coord), (V, V)>,
    tile: TileId,
    u: TileId,
    extent: int,
) -> bool {
    ||| exists|k: (Coord, Coord)|
        #[trigger] mine.contains_key(k) && theirs.contains_key(k) && theirs[k] != mine[k]
    ||| exists|k: (Coord, Coord)|
        #[trigger] theirs.contains_key(k) && owned_by(k, extent, tile) && !mine.contains_key(k)
    ||| exists|k: (Coord, Coord)|
        #[trigger] mine.contains_key(k) && owned_by(k, extent, u) && !theirs.contains_key(k)
}

/// The present tiles other than `tile` that disagree with `tile` contributing `mine`.
pub open spec fn conflict_set<V>(
    m: Map<TileId, Map<(Coord, Coord), (V, V)>>,
    mine: Map<(Coord, Coord), (V, V)>,
    tile: TileId,
    extent: int,
) -> Set<TileId> {
    Set::new(
        |u: TileId| u != tile && m.contains_key(u) && disagrees(mine, m[u], tile, u, extent),
    )
}

/// The part of a disagreement that positions alone decide: an edge of either tile with an
/// endpoint in the other's cell that the other lacks.
pub open spec fn misses_owned<V>(
    mine: Map<(Coord, Coord), (V, V)>,
    theirs: Map<(Coord, Coord), (V, V)>,
    tile: TileId,
    u: TileId,
    extent: int,
) -> bool {
    ||| exists|k: (Coord, Coord)|
        #[trigger] theirs.contains_key(k) && owned_by(k, extent, tile) && !mine.contains_key(k)
    ||| exists|k: (Coord, Coord)|
        #[trigger] mine.contains_key(k) && owned_by(k, extent, u) && !theirs.contains_key(k)
}

/// The two tiles carry some key in common.
pub open spec fn shares_key<V>(mine: Map<(Coord, Coord), (V, V)>, theirs: Map<(Coord, Coord), (V, V)>) -> bool {
    exists|k: (Coord, Coord)| #[trigger] mine.contains_key(k) && theirs.contains_key(k)
}

/// The present tiles other than `tile` that disagree with `tile` contributing `mine` by positions
/// alone.
pub open spec fn missing_set<V>(
    m: Map<TileId, Map<(Coord, Coord), (V, V)>>,
    mine: Map<(Coord, Coord), (V, V)>,
    tile: TileId,
    extent: int,
) -> Set<TileId> {
    Set::new(
        |u: TileId| u != tile && m.contains_key(u) && misses_owned(mine, m[u], tile, u, extent),
    )
}

/// A tile disagrees with a present tile `u` whenever both carry an edge with the same endpoints
/// but different vertices: `u` is then in the conflict set.
pub proof fn law_shared_edge_mismatch_conflicts<V>(
    m: Map<TileId, Map<(Coord, Coord), (V, V)>>,
    mine: Map<(Coord, Coord), (V, V)>,
    t: TileId,
    u: TileId,
    extent: int,
    k: (Coord, Coord),
)
    requires
        u != t,
        m.contains_key(u),
        m[u].contains_key(k),
        mine.contains_key(k),
        m[u][k] != mine[k],
    ensures
        conflict_set(m, mine, t, extent).contains(u),
{
    assert(disagrees(mine, m[u], t, u, extent));
}

/// A tile disagrees with a present tile `u` whenever one of the two carries an edge with either
/// endpoint (its start or its end) in the other's cell and the other lacks that edge: `u` is then
/// in the conflict set, and among the disagreements that positions alone decide, whatever the
/// edge's direction.
pub proof fn law_uncorroborated_endpoint_conflicts<V>(
    m: Map<TileId, Map<(Coord, Coord), (V, V)>>,
    mine: Map<(Coord, Coord), (V, V)>,
    t: TileId,
    u: TileId,
    extent: int,
    k: (Coord, Coord),
)
    requires
        u != t,
        m.contains_key(u),
        (m[u].contains_key(k) && !mine.contains_key(k) && (tile_of_spec(k.0, extent) == t
            || tile_of_spec(k.1, extent) == t)) || (mine.contains_key(k) && !m[u].contains_key(k) && (
        tile_of_spec(k.0, extent) == u || tile_of_spec(k.1, extent) == u)),
    ensures
        conflict_set(m, mine, t, extent).contains(u),
        missing_set(m, mine, t, extent).contains(u),
{
    assert(owned_by(k, extent, t) || owned_by(k, extent, u));
    if m[u].contains_key(k) && !mine.contains_key(k) && owned_by(k, extent, t) {
        assert(misses_owned(mine, m[u], t, u, extent));
        assert(disagrees(mine, m[u], t, u, extent));
    } else {
        assert(misses_owned(mine, m[u], t, u, extent));
        assert(disagrees(mine, m[u], t, u, extent));
    }
}

/// The mosaic after `tile` is replaced by the edges `es` (dropped when it contributes none).
pub open spec fn committed<V: Vertex>(
    m: Map<TileId, Map<(Coord, Coord), (V, V)>>,
    tile: TileId,
    es: Seq<(V, V)>,
) -> Map<TileId, Map<(Coord, Coord), (V, V)>> {
    if es.len() == 0 {
        m.remove(tile)
    } else {
        m.insert(tile, edge_map(es))
    }
}

/// Tiles listed strictly in tile order.
pub open spec fn tiles_sorted(v: Seq<TileId>) -> bool {
    forall|i: int, j: int| 0 <= i < j < v.len() ==> tile_lt(v[i], v[j])
}

/// The index of the edge with key `k` in `es`, if any.
fn find_key<V: Vertex>(es: &Vec<(V, V)>, k: (Coord, Coord)) -> (r: Option<usize>)
    ensures
        match r {
            Some(i) => i < es@.len() && key_of(es@[i as int]) == k,
            None => forall|i: int| 0 <= i < es@.len() ==> key_of(#[trigger] es@[i]) != k,
        },
{
    let mut i: usize = 0;
    while i < es.len()
        invariant
            i <= es@.len(),
            forall|j: int| 0 <= j < i ==> key_of(#[trigger] es@[j]) != k,
        decreases es@.len() - i,
    {
        let a = es[i].0.position();
        let b = es[i].1.position();
        if a.x == k.0.x && a.y == k.0.y && b.x == k.1.x && b.y == k.1.y {
            assert(key_of(es@[i as int]) == k);
            return Some(i);
        }
        i = i + 1;
    }
    None
}

/// `v` moved by `(ox, oy)`, or `Overflow` when that leaves `i32`.
fn rebase_vertex<V: Vertex>(v: V, ox: i64, oy: i64) -> (r: Result<V, TileError>)
    requires
        -0x4000_0000_0000_0000 <= ox <= 0x4000_0000_0000_0000,
        -0x4000_0000_0000_0000 <= oy <= 0x4000_0000_0000_0000,
    ensures
        match r {
            Ok(w) => rebase_fits(v, ox as int, oy as int) && w == rebased(v, ox as int, oy as int),
            Err(e) => !rebase_fits(v, ox as int, oy as int) && e == TileError::Overflow,
        },
{
    let p = v.position();
    let x = p.x as i64 + ox;
    let y = p.y as i64 + oy;
    if x < i32::MIN as i64 || x > i32::MAX as i64 || y < i32::MIN as i64 || y > i32::MAX as i64 {
        return Err(TileError::Overflow);
    }
    Ok(v.with_position(Coord { x: x as i32, y: y as i32 }))
}

/// `run` moved by `(ox, oy)`, or `Overflow` when some vertex leaves `i32`.
fn rebase_run<V: Vertex>(run: &Vec<V>, ox: i64, oy: i64) -> (r: Result<Vec<V>, TileError>)
    requires
        -0x4000_0000_0000_0000 <= ox <= 0x4000_0000_0000_0000,
        -0x4000_0000_0000_0000 <= oy <= 0x4000_0000_0000_0000,
    ensures
        match r {
            Ok(g) => {
                &&& g@.len() == run@.len()
                &&& forall|q: int| 0 <= q < run@.len() ==> rebase_fits(#[trigger] run@[q], ox as int, oy as int)
                &&& forall|q: int| 0 <= q < run@.len() ==> #[trigger] g@[q] == rebased(run@[q], ox as int, oy as int)
            },
            Err(e) => e == TileError::Overflow && exists|q: int|
                0 <= q < run@.len() && !rebase_fits(run@[q], ox as int, oy as int),
        },
{
    let mut g: Vec<V> = Vec::new();
    let mut j: usize = 0;
    while j < run.len()
        invariant
            -0x4000_0000_0000_0000 <= ox <= 0x4000_0000_0000_0000,
            -0x4000_0000_0000_0000 <= oy <= 0x4000_0000_0000_0000,
            j <= run@.len(),
            g@.len() == j,
            forall|q: int| 0 <= q < j ==> rebase_fits(#[trigger] run@[q], ox as int, oy as int),
            forall|q: int| 0 <= q < j ==> #[trigger] g@[q] == rebased(run@[q], ox as int, oy as int),
        decreases run@.len() - j,
    {
        let v = run[j];
        match rebase_vertex(v, ox, oy) {
            Ok(w) => {
                g.push(w);
            },
            Err(err) => {
                assert(run@[j as int] == v);
                return Err(err);
            },
        }
        j = j + 1;
    }
    Ok(g)
}

/// Whether tile `u` carrying `theirs` disagrees with tile `tile` contributing `mine` (see
/// [`disagrees`]); exact when vertex equality is decidable.
fn disagrees_exec<V: Vertex>(
    mine: &Vec<(V, V)>,
    theirs: &Vec<(V, V)>,
    tile: TileId,
    u: TileId,
    extent: i32,
) -> (r: bool)
    requires
        edges_wf(mine@),
        edges_wf(theirs@),
        extent > 0,
    ensures
        V::obeys_vertex_eq() ==> r == disagrees(
            edge_map(mine@),
            edge_map(theirs@),
            tile,
            u,
            extent as int,
        ),
        misses_owned(edge_map(mine@), edge_map(theirs@), tile, u, extent as int) ==> r,
        r ==> misses_owned(edge_map(mine@), edge_map(theirs@), tile, u, extent as int) || shares_key(
            edge_map(mine@),
            edge_map(theirs@),
        ),
{
    let ghost mm = edge_map(mine@);
    let ghost tm = edge_map(theirs@);
    // A shared edge whose vertices differ.
    let mut i: usize = 0;
    while i < mine.len()
        invariant
            i <= mine@.len(),
            edges_wf(mine@),
            edges_wf(theirs@),
            mm == edge_map(mine@),
            tm == edge_map(theirs@),
            V::obeys_vertex_eq() ==> forall|j: int|
                0 <= j < i ==> !(#[trigger] tm.contains_key(key_of(mine@[j])) && tm[key_of(
                    mine@[j],
                )] != mm[key_of(mine@[j])]),
        decreases mine@.len() - i,
    {
        let m = mine[i];
        let k = (m.0.position(), m.1.position());
        proof {
            lemma_edge_map_at(mine@, i as int);
        }
        match find_key(theirs, k) {
            Some(j) => {
                proof {
                    lemma_edge_map_at(theirs@, j as int);
                }
                let t = theirs[j];
                let same = t.0.same_vertex(&m.0) && t.1.same_vertex(&m.1);
                if !same {
                    proof {
                        if V::obeys_vertex_eq() {
                            assert(mm.contains_key(k) && tm.contains_key(k) && tm[k] != mm[k]);
                        }
                        assert(mm.contains_key(k) && tm.contains_key(k));
                    }
                    return true;
                }
            },
            None => {
                assert(!tm.contains_key(k));
            },
        }
        i = i + 1;
    }
    // An edge of `u`'s reaching into `tile`'s cell that `tile` lacks.
    let mut i: usize = 0;
    while i < theirs.len()
        invariant
            i <= theirs@.len(),
            edges_wf(mine@),
            edges_wf(theirs@),
            extent > 0,
            mm == edge_map(mine@),
            tm == edge_map(theirs@),
            forall|j: int|
                0 <= j < i ==> !(owned_by(key_of(#[trigger] theirs@[j]), extent as int, tile)
                    && !mm.contains_key(key_of(theirs@[j]))),
        decreases theirs@.len() - i,
    {
        let t = theirs[i];
        let k = (t.0.position(), t.1.position());
        let owned = tile_of(k.0, extent).same_as(&tile) || tile_of(k.1, extent).same_as(&tile);
        if owned {
            match find_key(mine, k) {
                Some(j) => {
                    proof {
                        lemma_edge_map_at(mine@, j as int);
                    }
                },
                None => {
                    proof {
                        lemma_edge_map_at(theirs@, i as int);
                        assert(!mm.contains_key(k));
                        assert(tm.contains_key(k) && owned_by(k, extent as int, tile));
                    }
                    return true;
                },
            }
        }
        i = i + 1;
    }
    // An edge of `tile`'s reaching into `u`'s cell that `u` lacks.
    let mut i: usize = 0;
    while i < mine.len()
        invariant
            i <= mine@.len(),
            edges_wf(mine@),
            edges_wf(theirs@),
            extent > 0,
            mm == edge_map(mine@),
            tm == edge_map(theirs@),
            forall|j: int|
                0 <= j < i ==> !(owned_by(key_of(#[trigger] mine@[j]), extent as int, u)
                    && !tm.contains_key(key_of(mine@[j]))),
        decreases mine@.len() - i,
    {
        let m = mine[i];
        let k = (m.0.position(), m.1.position());
        let owned = tile_of(k.0, extent).same_as(&u) || tile_of(k.1, extent).same_as(&u);
        if owned {
            match find_key(theirs, k) {
                Some(j) => {
                    proof {
                        lemma_edge_map_at(theirs@, j as int);
                    }
                },
                None => {
                    proof {
                        lemma_edge_map_at(mine@, i as int);
                        assert(!tm.contains_key(k));
                        assert(mm.contains_key(k) && owned_by(k, extent as int, u));
                    }
                    return true;
                },
            }
        }
        i = i + 1;
    }
    proof {
        if V::obeys_vertex_eq() {
            assert forall|k: (Coord, Coord)| #[trigger] mm.contains_key(k) implies !(tm.contains_key(k)
                && tm[k] != mm[k]) && !(owned_by(k, extent as int, u) && !tm.contains_key(k)) by {
                let j = choose|j: int| 0 <= j < mine@.len() && key_of(mine@[j]) == k;
            }
            assert forall|k: (Coord, Coord)| #[trigger] tm.contains_key(k) implies !(owned_by(
                k,
                extent as int,
                tile,
            ) && !mm.contains_key(k)) by {
                let j = choose|j: int| 0 <= j < theirs@.len() && key_of(theirs@[j]) == k;
            }
        }
        assert forall|k: (Coord, Coord)| #[trigger] mm.contains_key(k) implies !(owned_by(
            k,
            extent as int,
            u,
        ) && !tm.contains_key(k)) by {
            let j = choose|j: int| 0 <= j < mine@.len() && key_of(mine@[j]) == k;
        }
        assert forall|k: (Coord, Coord)| #[trigger] tm.contains_key(k) implies !(owned_by(
            k,
            extent as int,
            tile,
        ) && !mm.contains_key(k)) by {
            let j = choose|j: int| 0 <= j < theirs@.len() && key_of(theirs@[j]) == k;
        }
    }
    false
}

/// Replacing `tile` keeps the mosaic consistent when no other tile carries one of its new keys
/// with different vertices.
proof fn lemma_consistent_commit<V: Vertex>(
    m: Map<TileId, Map<(Coord, Coord), (V, V)>>,
    tile: TileId,
    es: Seq<(V, V)>,
)
    requires
        consistent(m),
        forall|u: TileId, k: (Coord, Coord)|
            u != tile && m.contains_key(u) && #[trigger] m[u].contains_key(k) && edge_map(
                es,
            ).contains_key(k) ==> m[u][k] == edge_map(es)[k],
    ensures
        consistent(committed(m, tile, es)),
{
    let n = committed(m, tile, es);
    assert forall|u: TileId, w: TileId, k: (Coord, Coord)|
        n.contains_key(u) && n.contains_key(w) && #[trigger] n[u].contains_key(k)
            && #[trigger] n[w].contains_key(k) implies n[u][k] == n[w][k] by {
        if es.len() > 0 {
            if u == tile && w != tile {
                assert(m[w][k] == edge_map(es)[k]);
            } else if w == tile && u != tile {
                assert(m[u][k] == edge_map(es)[k]);
            }
        }
    }
}

/// The edges of a run prefix grow by at most the pair ending at the new vertex.
proof fn lemma_run_edges_step<V: Vertex>(run: Seq<V>, j: int, ox: int, oy: int)
    requires
        1 <= j < run.len(),
    ensures
        run_edges(run.take(j + 1), ox, oy) == (if run[j - 1].pos() != run[j].pos() {
            run_edges(run.take(j), ox, oy).push((rebased(run[j - 1], ox, oy), rebased(run[j], ox, oy)))
        } else {
            run_edges(run.take(j), ox, oy)
        }),
{
    assert(run.take(j + 1).drop_last() =~= run.take(j));
}

/// Appending one more run appends its edges.
proof fn lemma_runs_edges_step<V: Vertex>(rs: Seq<Seq<V>>, i: int, ox: int, oy: int)
    requires
        0 <= i < rs.len(),
    ensures
        runs_edges(rs.take(i + 1), ox, oy) == runs_edges(rs.take(i), ox, oy) + run_edges(
            rs[i],
            ox,
            oy,
        ),
{
    assert(rs.take(i + 1).drop_last() =~= rs.take(i));
}

/// Key order: by start position (`x`, then `y`), then by end position.
pub open spec fn key_lt(a: (Coord, Coord), b: (Coord, Coord)) -> bool {
    ||| a.0.x < b.0.x
    ||| a.0.x == b.0.x && a.0.y < b.0.y
    ||| a.0.x == b.0.x && a.0.y == b.0.y && a.1.x < b.1.x
    ||| a.0.x == b.0.x && a.0.y == b.0.y && a.1.x == b.1.x && a.1.y < b.1.y
}

/// Whether key `a` comes strictly before key `b`.
fn key_precedes(a: (Coord, Coord), b: (Coord, Coord)) -> (r: bool)
    ensures
        r == key_lt(a, b),
{
    a.0.x < b.0.x || (a.0.x == b.0.x && a.0.y < b.0.y) || (a.0.x == b.0.x && a.0.y == b.0.y && a.1.x
        < b.1.x) || (a.0.x == b.0.x && a.0.y == b.0.y && a.1.x == b.1.x && a.1.y < b.1.y)
}

/// Some present tile carries edge `e` (with these very vertices).
pub open spec fn carried<V: Vertex>(m: Map<TileId, Map<(Coord, Coord), (V, V)>>, e: (V, V)) -> bool {
    exists|u: TileId| #[trigger] m.contains_key(u) && m[u].contains_key(key_of(e)) && m[u][key_of(e)] == e
}

/// Some present tile carries an edge with key `k`.
pub open spec fn has_key<V>(m: Map<TileId, Map<(Coord, Coord), (V, V)>>, k: (Coord, Coord)) -> bool {
    exists|u: TileId| #[trigger] m.contains_key(u) && m[u].contains_key(k)
}

/// Vertex `j` of chain `c` is the end vertex, as some present tile carries it, of the edge leading
/// to it (and for the first edge, vertex `0` its start vertex).
pub open spec fn step_carried<V: Vertex>(m: Map<TileId, Map<(Coord, Coord), (V, V)>>, c: Seq<V>, j: int) -> bool {
    exists|e: (V, V)|
        #[trigger] carried(m, e) && key_of(e) == (c[j - 1].pos(), c[j].pos()) && e.1 == c[j] && (j == 1
            ==> e.0 == c[0])
}

/// Every step of chain `c` is carried by some present tile.
pub open spec fn chain_carried<V: Vertex>(m: Map<TileId, Map<(Coord, Coord), (V, V)>>, c: Seq<V>) -> bool {
    forall|j: int| 1 <= j < c.len() ==> #[trigger] step_carried(m, c, j)
}

/// Edge `e` is stored by the entry of some tile.
spec fn stored<V>(s: Seq<TileEdges<V>>, e: (V, V)) -> bool {
    exists|t: int, j: int| 0 <= t < s.len() && 0 <= j < s[t].edges@.len() && #[trigger] s[t].edges@[j] == e
}

/// Edges listed strictly in key order.
pub open spec fn keys_sorted<V: Vertex>(es: Seq<(V, V)>) -> bool {
    forall|i: int, j: int| 0 <= i < j < es.len() ==> key_lt(key_of(es[i]), key_of(es[j]))
}

/// Some listed edge has key `k`.
pub open spec fn has_key_in<V: Vertex>(es: Seq<(V, V)>, k: (Coord, Coord)) -> bool {
    exists|i: int| 0 <= i < es.len() && #[trigger] key_of(es[i]) == k
}

/// Insert `ed` at its key's place in the key-sorted `out`, unless its key is already listed.
fn insert_edge_sorted<V: Vertex>(out: &mut Vec<(V, V)>, ed: (V, V))
    requires
        keys_sorted(old(out)@),
    ensures
        keys_sorted(final(out)@),
        has_key_in(final(out)@, key_of(ed)),
        forall|k: (Coord, Coord)| has_key_in(old(out)@, k) ==> has_key_in(final(out)@, k),
        forall|i: int|
            0 <= i < final(out)@.len() ==> #[trigger] final(out)@[i] == ed || exists|x: int|
                0 <= x < old(out)@.len() && old(out)@[x] == final(out)@[i],
{
    let k = (ed.0.position(), ed.1.position());
    let mut p: usize = 0;
    while p < out.len() && key_precedes((out[p].0.position(), out[p].1.position()), k)
        invariant
            p <= out@.len(),
            forall|i: int| 0 <= i < p ==> key_lt(key_of(#[trigger] out@[i]), k),
        decreases out@.len() - p,
    {
        p = p + 1;
    }
    let ghost o = out@;
    if p < out.len() {
        let q = (out[p].0.position(), out[p].1.position());
        if q.0.x == k.0.x && q.0.y == k.0.y && q.1.x == k.1.x && q.1.y == k.1.y {
            assert(key_of(o[p as int]) == k);
            return;
        }
        assert(!key_lt(key_of(o[p as int]), k));
    }
    out.insert(p, ed);
    proof {
        let nw = out@;
        assert forall|a: int| 0 <= a < nw.len() implies #[trigger] nw[a] == (if a < p {
            o[a]
        } else if a == p {
            ed
        } else {
            o[a - 1]
        }) by {}
        assert forall|a: int, b: int| 0 <= a < b < nw.len() implies key_lt(key_of(nw[a]), key_of(nw[b])) by {
            if b < p {
                assert(nw[a] == o[a] && nw[b] == o[b]);
            } else if b == p {
                assert(nw[a] == o[a]);
            } else if a < p {
                assert(nw[a] == o[a] && nw[b] == o[b - 1]);
                if b - 1 > p {
                    assert(key_lt(key_of(o[p as int]), key_of(o[b - 1])));
                }
            } else if a == p {
                assert(nw[b] == o[b - 1]);
                if b - 1 > p {
                    assert(key_lt(key_of(o[p as int]), key_of(o[b - 1])));
                }
            } else {
                assert(nw[a] == o[a - 1] && nw[b] == o[b - 1]);
            }
        }
        assert(key_of(nw[p as int]) == k);
        assert forall|kk: (Coord, Coord)| has_key_in(o, kk) implies has_key_in(nw, kk) by {
            let i = choose|i: int| 0 <= i < o.len() && #[trigger] key_of(o[i]) == kk;
            if i < p {
                assert(nw[i] == o[i]);
            } else {
                assert(nw[i + 1] == o[i]);
            }
        }
        assert forall|i: int| 0 <= i < nw.len() implies #[trigger] nw[i] == ed || exists|x: int|
            0 <= x < o.len() && o[x] == nw[i] by {
            if i < p {
                assert(o[i] == nw[i]);
            } else if i > p {
                assert(o[i - 1] == nw[i]);
            }
        }
    }
}

/// A chain that follows edges each carried by some tile is carried edge by edge.
proof fn lemma_chain_carried<V: Vertex>(
    m: Map<TileId, Map<(Coord, Coord), (V, V)>>,
    all: Seq<(V, V)>,
    cv: Seq<V>,
)
    requires
        follows(cv, all),
        forall|i: int| 0 <= i < all.len() ==> carried(m, #[trigger] all[i]),
    ensures
        chain_carried(m, cv),
{
    assert forall|j: int| 1 <= j < cv.len() implies #[trigger] step_carried(m, cv, j) by {
        let _ = cv[j];
        let i = choose|i: int|
            0 <= i < all.len() && #[trigger] key_of(all[i]) == (cv[j - 1].pos(), cv[j].pos())
                && all[i].1 == cv[j] && (j == 1 ==> all[i].0 == cv[0]);
        assert(carried(m, all[i]));
    }
}

/// Keys listed exactly when some listed edge has them are exactly the keys some tile carries.
proof fn lemma_chain_key_set<V: Vertex>(
    m: Map<TileId, Map<(Coord, Coord), (V, V)>>,
    all: Seq<(V, V)>,
    ks: Seq<(Coord, Coord)>,
)
    requires
        forall|i: int| 0 <= i < all.len() ==> carried(m, #[trigger] all[i]),
        forall|k: (Coord, Coord)|
            has_key(m, k) ==> exists|i: int| 0 <= i < all.len() && #[trigger] key_of(all[i]) == k,
        forall|k: (Coord, Coord)|
            ks.contains(k) <==> exists|i: int| 0 <= i < all.len() && #[trigger] key_of(all[i]) == k,
    ensures
        forall|k: (Coord, Coord)| ks.contains(k) <==> has_key(m, k),
{
    assert forall|k: (Coord, Coord)| ks.contains(k) <==> has_key(m, k) by {
        if ks.contains(k) {
            let i = choose|i: int| 0 <= i < all.len() && #[trigger] key_of(all[i]) == k;
            assert(carried(m, all[i]));
            let u = choose|u: TileId|
                #[trigger] m.contains_key(u) && m[u].contains_key(key_of(all[i])) && m[u][key_of(
                    all[i],
                )] == all[i];
            assert(m.contains_key(u) && m[u].contains_key(k));
        }
    }
}

/// The keys of the edges present.
pub open spec fn key_set<V>(m: Map<TileId, Map<(Coord, Coord), (V, V)>>) -> Set<(Coord, Coord)> {
    Set::new(|k: (Coord, Coord)| has_key(m, k))
}

/// The keys in `ks` leaving position `p`.
pub open spec fn leaving(ks: Set<(Coord, Coord)>, p: Coord) -> Set<(Coord, Coord)> {
    ks.filter(|k: (Coord, Coord)| k.0 == p)
}

/// The keys in `ks` arriving at position `p`.
pub open spec fn arriving(ks: Set<(Coord, Coord)>, p: Coord) -> Set<(Coord, Coord)> {
    ks.filter(|k: (Coord, Coord)| k.1 == p)
}

/// Feature `f` is maximal at its start: it begins where more present edges leave than arrive,
/// or it is closed.
pub open spec fn starts_maximal<V: Vertex>(m: Map<TileId, Map<(Coord, Coord), (V, V)>>, f: Seq<V>) -> bool {
    let s = f[0].pos();
    leaving(key_set(m), s).len() > arriving(key_set(m), s).len() || s == f.last().pos()
}

/// Feature `c` of `fs` is maximal at its end: every present edge leaving its last position is
/// walked by it or by an earlier feature.
pub open spec fn ends_maximal<V: Vertex>(
    m: Map<TileId, Map<(Coord, Coord), (V, V)>>,
    fs: Seq<Seq<V>>,
    c: int,
) -> bool {
    forall|k: (Coord, Coord)|
        has_key(m, k) && k.0 == fs[c].last().pos() ==> #[trigger] chain_keys(fs.take(c + 1)).contains(k)
}

/// The keys of the first `n` edges.
spec fn keys_upto<V: Vertex>(es: Seq<(V, V)>, n: int) -> Set<(Coord, Coord)>
    decreases n,
{
    if n <= 0 {
        Set::empty()
    } else {
        keys_upto(es, n - 1).insert(key_of(es[n - 1]))
    }
}

/// Over edges with distinct keys, counting the edges leaving or arriving at `p` counts their
/// keys.
proof fn lemma_counts_card<V: Vertex>(es: Seq<(V, V)>, p: Coord, n: int)
    requires
        edges_wf(es),
        0 <= n <= es.len(),
    ensures
        keys_upto(es, n).finite(),
        out_count(es, p, n) == leaving(keys_upto(es, n), p).len(),
        in_count(es, p, n) == arriving(keys_upto(es, n), p).len(),
        forall|k: (Coord, Coord)|
            keys_upto(es, n).contains(k) <==> exists|i: int| 0 <= i < n && #[trigger] key_of(es[i]) == k,
    decreases n,
{
    if n <= 0 {
        assert(leaving(keys_upto(es, n), p) =~= Set::<(Coord, Coord)>::empty());
        assert(arriving(keys_upto(es, n), p) =~= Set::<(Coord, Coord)>::empty());
    } else {
        lemma_counts_card(es, p, n - 1);
        let s0 = keys_upto(es, n - 1);
        let x = key_of(es[n - 1]);
        assert(!s0.contains(x)) by {
            if s0.contains(x) {
                let i = choose|i: int| 0 <= i < n - 1 && #[trigger] key_of(es[i]) == x;
                assert(key_of(es[i]) != key_of(es[n - 1]));
            }
        }
        let s1 = s0.insert(x);
        vstd::set_lib::lemma_len_subset(leaving(s0, p), s0);
        vstd::set_lib::lemma_len_subset(arriving(s0, p), s0);
        if x.0 == p {
            assert(leaving(s1, p) =~= leaving(s0, p).insert(x));
            vstd::set::axiom_set_insert_len(leaving(s0, p), x);
        } else {
            assert(leaving(s1, p) =~= leaving(s0, p));
        }
        if x.1 == p {
            assert(arriving(s1, p) =~= arriving(s0, p).insert(x));
            vstd::set::axiom_set_insert_len(arriving(s0, p), x);
        } else {
            assert(arriving(s1, p) =~= arriving(s0, p));
        }
        assert forall|k: (Coord, Coord)|
            s1.contains(k) <==> exists|i: int| 0 <= i < n && #[trigger] key_of(es[i]) == k by {
            if s1.contains(k) && k != x {
                let i = choose|i: int| 0 <= i < n - 1 && #[trigger] key_of(es[i]) == k;
            }
        }
    }
}

/// Reassembles tiled features back into whole features as tiles are [added](Self::add).
///
/// Generic over the [`Vertex`] type `V`. Needs only the `extent` the tiles were sliced at, never
/// the buffer. A payload-carrying vertex (e.g. [`Measured`](crate::Measured)) additionally makes
/// payload conflicts meaningful.
pub struct Mosaic<V: Vertex = Coord> {
    extent: u32,
    tiles: Vec<TileEdges<V>>,
}

impl<V: Vertex> Mosaic<V> {
    /// The mosaic's invariant: a valid extent, the tiles stored in order with well-formed edges,
    /// and (for vertices whose equality is decidable) every shared edge agreeing across tiles.
    #[verifier::type_invariant]
    pub closed spec fn wf(&self) -> bool {
        &&& 1 <= self.extent <= i32::MAX
        &&& entries_wf(self.tiles@)
        &&& V::obeys_vertex_eq() ==> consistent(self@)
    }

    /// The extent the tiles are sliced at.
    pub closed spec fn extent_view(&self) -> u32 {
        self.extent
    }

    /// The tiles present, each with the directed edges (in the global frame) it carries, keyed by
    /// their endpoint positions. A present tile carries at least one edge.
    pub closed spec fn view(&self) -> Map<TileId, Map<(Coord, Coord), (V, V)>> {
        entries_view(self.tiles@)
    }

    /// Create an empty mosaic for tiles sliced at `extent`.
    ///
    /// `InvalidExtent` if `extent` is `0` or greater than `i32::MAX`.
    pub fn new(extent: u32) -> (r: Result<Self, TileError>)
        ensures
            (extent == 0 || extent > i32::MAX) ==> r == Err::<Self, TileError>(
                TileError::InvalidExtent,
            ),
            (1 <= extent <= i32::MAX) ==> (r matches Ok(m) && m.wf() && m.extent_view() == extent
                && m@ == Map::<TileId, Map<(Coord, Coord), (V, V)>>::empty()),
    {
        if extent == 0 || extent > i32::MAX as u32 {
            return Err(TileError::InvalidExtent);
        }
        let m = Mosaic { extent, tiles: Vec::new() };
        assert(m@ =~= Map::<TileId, Map<(Coord, Coord), (V, V)>>::empty());
        Ok(m)
    }

    /// The extent every tile is sliced at.
    pub fn extent(&self) -> (r: u32)
        ensures
            r == self.extent_view(),
    {
        self.extent
    }

    /// The storage index of `tile`, if present.
    fn find(&self, tile: TileId) -> (r: Option<usize>)
        requires
            self.wf(),
        ensures
            match r {
                Some(k) => k < self.tiles@.len() && self.tiles@[k as int].tile == tile,
                None => !self@.contains_key(tile),
            },
    {
        let mut k: usize = 0;
        while k < self.tiles.len()
            invariant
                k <= self.tiles@.len(),
                forall|j: int| 0 <= j < k ==> (#[trigger] self.tiles@[j]).tile != tile,
            decreases self.tiles@.len() - k,
        {
            if self.tiles[k].tile.same_as(&tile) {
                return Some(k);
            }
            k = k + 1;
        }
        None
    }

    /// The tiles present are finitely many.
    pub proof fn lemma_view_finite(&self)
        requires
            self.wf(),
        ensures
            self@.dom().finite(),
    {
        lemma_view_dom(self.tiles@);
    }

    /// Whether `tile` is currently in the mosaic.
    pub fn contains(&self, tile: TileId) -> (r: bool)
        ensures
            r == self@.contains_key(tile),
    {
        proof {
            use_type_invariant(self);
        }
        match self.find(tile) {
            Some(k) => {
                proof {
                    lemma_view_at(self.tiles@, k as int);
                }
                true
            },
            None => false,
        }
    }

    /// The number of tiles currently in the mosaic.
    pub fn len(&self) -> (r: usize)
        ensures
            r == self@.dom().len(),
    {
        proof {
            use_type_invariant(self);
        }
        proof {
            lemma_view_dom(self.tiles@);
        }
        self.tiles.len()
    }

    /// Whether no tile is present.
    pub fn is_empty(&self) -> (r: bool)
        ensures
            r == (self@.dom().len() == 0),
    {
        proof {
            use_type_invariant(self);
        }
        proof {
            lemma_view_dom(self.tiles@);
        }
        self.tiles.len() == 0
    }

    /// Discard every tile, keeping the extent.
    pub fn clear(&mut self)
        ensures
            final(self).wf(),
            final(self).extent_view() == old(self).extent_view(),
            final(self)@ == Map::<TileId, Map<(Coord, Coord), (V, V)>>::empty(),
    {
        proof {
            use_type_invariant(&*self);
        }
        self.tiles = Vec::new();
        assert(self@ =~= Map::<TileId, Map<(Coord, Coord), (V, V)>>::empty());
    }

    /// Remove `tile` and all geometry it contributed (edges other tiles also carry stay). Returns
    /// whether the tile was present.
    pub fn purge(&mut self, tile: TileId) -> (r: bool)
        ensures
            final(self).wf(),
            final(self).extent_view() == old(self).extent_view(),
            r == old(self)@.contains_key(tile),
            final(self)@ == old(self)@.remove(tile),
            final(self)@.dom().len() == old(self)@.dom().len() - (if r {
                1int
            } else {
                0int
            }),
            !r ==> *final(self) == *old(self),
    {
        proof {
            use_type_invariant(&*self);
        }
        proof {
            lemma_view_dom(self.tiles@);
        }
        match self.find(tile) {
            Some(k) => {
                let ghost s = self.tiles@;
                proof {
                    lemma_view_at(s, k as int);
                    lemma_view_remove(s, k as int);
                }
                let mut ts: Vec<TileEdges<V>> = Vec::new();
                std::mem::swap(&mut ts, &mut self.tiles);
                ts.remove(k);
                proof {
                    let n = ts@;
                    assert forall|i: int| #![trigger n[i]] 0 <= i < n.len() implies n[i].edges@.len()
                        >= 1 && edges_wf(n[i].edges@) by {
                        let js = if i < k { i } else { i + 1 };
                        assert(n[i] == s[js]);
                    }
                    assert(entries_view(n) == old(self)@.remove(tile));
                }
                self.tiles = ts;
                proof {
                    lemma_view_dom(self.tiles@);
                }
                true
            },
            None => {
                assert(self@ =~= old(self)@.remove(tile));
                false
            },
        }
    }
}

impl<V: Vertex> Mosaic<V> {
    /// Add `tile`'s runs (in its local frame) to the mosaic, rebased by `tile · extent` into the
    /// global frame. Re-adding a tile replaces its contents; a tile with no edge (no two
    /// consecutive vertices at distinct positions) is dropped.
    ///
    /// `Overflow` if a vertex leaves `i32` when rebased; `Conflict` (naming the disagreeing tiles,
    /// sorted) if the tile disagrees with tiles already present. Either way the mosaic is unchanged.
    /// A disagreement decided by positions alone (an edge with an endpoint in the other tile's cell
    /// that the other tile lacks) is refused for every vertex type.
    pub fn add(&mut self, tile: TileId, runs: &[Vec<V>]) -> (r: Result<(), TileError>)
        ensures
            final(self).wf(),
            final(self).extent_view() == old(self).extent_view(),
            r is Err ==> *final(self) == *old(self),
            ({
                let e = old(self).extent_view() as int;
                let rs = runs_view(runs@);
                let fit = runs_fit(rs, tile.x * e, tile.y * e);
                let es = tile_edges(tile, e, rs);
                let cs = conflict_set(old(self)@, edge_map(es), tile, e);
                let ms = missing_set(old(self)@, edge_map(es), tile, e);
                &&& !fit ==> r == Err::<(), TileError>(TileError::Overflow)
                &&& (V::obeys_vertex_eq() && fit) ==> (r is Ok <==> cs.is_empty())
                &&& (fit && !ms.is_empty()) ==> (r matches Err(TileError::Conflict(_)))
                &&& match r {
                    Ok(()) => fit && final(self)@ == committed(old(self)@, tile, es) && ms.is_empty(),
                    Err(TileError::Conflict(v)) => {
                        &&& fit
                        &&& final(self)@ == old(self)@
                        &&& v@.len() >= 1
                        &&& tiles_sorted(v@)
                        &&& forall|a: int|
                            0 <= a < v@.len() ==> #[trigger] old(self)@.contains_key(v@[a]) && v@[a]
                                != tile
                        &&& forall|a: int|
                            0 <= a < v@.len() ==> misses_owned(
                                edge_map(es),
                                old(self)@[#[trigger] v@[a]],
                                tile,
                                v@[a],
                                e,
                            ) || shares_key(edge_map(es), old(self)@[v@[a]])
                        &&& forall|u: TileId| #[trigger] ms.contains(u) ==> v@.contains(u)
                        &&& V::obeys_vertex_eq() ==> v@.to_set() == cs
                    },
                    Err(e) => e == TileError::Overflow && !fit && final(self)@ == old(self)@,
                }
            }),
    {
        proof {
            use_type_invariant(&*self);
        }
        let ghost s0 = self.tiles@;
        let ghost m0 = self@;
        let e = self.extent as i64;
        assert(-0x8000_0000 * 0x8000_0000 <= tile.x * e <= 0x8000_0000 * 0x8000_0000)
            by (nonlinear_arith)
            requires
                -0x8000_0000 <= tile.x < 0x8000_0000,
                0 < e < 0x8000_0000,
        ;
        assert(-0x8000_0000 * 0x8000_0000 <= tile.y * e <= 0x8000_0000 * 0x8000_0000)
            by (nonlinear_arith)
            requires
                -0x8000_0000 <= tile.y < 0x8000_0000,
                0 < e < 0x8000_0000,
        ;
        let ox = tile.x as i64 * e;
        let oy = tile.y as i64 * e;
        let ghost rs = runs_view(runs@);
        let mut mine: Vec<(V, V)> = Vec::new();
        let mut ri: usize = 0;
        while ri < runs.len()
            invariant
                self.tiles@ == s0,
                self.wf(),
                self.extent == old(self).extent,
                e == old(self).extent as i64,
                self@ == m0,
                ox == tile.x * e,
                oy == tile.y * e,
                -0x4000_0000_0000_0000 <= ox <= 0x4000_0000_0000_0000,
                -0x4000_0000_0000_0000 <= oy <= 0x4000_0000_0000_0000,
                rs == runs_view(runs@),
                ri <= runs@.len(),
                runs_fit(rs.take(ri as int), ox as int, oy as int),
                mine@ == first_edges(runs_edges(rs.take(ri as int), ox as int, oy as int)),
                edges_wf(mine@),
            decreases runs@.len() - ri,
        {
            let run = &runs[ri];
            assert(rs[ri as int] == run@);
            let g = match rebase_run(run, ox, oy) {
                Ok(g) => g,
                Err(err) => {
                    proof {
                        let j = choose|j: int| 0 <= j < run@.len() && !rebase_fits(run@[j], ox as int, oy as int);
                        assert(rs[ri as int][j] == run@[j]);
                        assert(!rebase_fits(rs[ri as int][j], ox as int, oy as int));
                        assert(!runs_fit(rs, ox as int, oy as int));
                    }
                    return Err(err);
                },
            };
            let ghost base = runs_edges(rs.take(ri as int), ox as int, oy as int);
            assert(forall|q: int| 0 <= q < g@.len() ==> #[trigger] rebase_fits(run@[q], ox as int, oy as int));
            if g.len() >= 2 {
                let mut j: usize = 1;
                proof {
                    assert(run_edges(run@.take(1), ox as int, oy as int) =~= Seq::<(V, V)>::empty());
                    assert(base + run_edges(run@.take(1), ox as int, oy as int) =~= base);
                }
                while j < g.len()
                    invariant
                        -0x4000_0000_0000_0000 <= ox <= 0x4000_0000_0000_0000,
                        -0x4000_0000_0000_0000 <= oy <= 0x4000_0000_0000_0000,
                        g@.len() == run@.len(),
                        1 <= j <= g@.len(),
                        forall|q: int|
                            0 <= q < g@.len() ==> #[trigger] g@[q] == rebased(
                                run@[q],
                                ox as int,
                                oy as int,
                            ),
                        forall|q: int|
                            0 <= q < g@.len() ==> #[trigger] rebase_fits(run@[q], ox as int, oy as int),
                        mine@ == first_edges(base + run_edges(run@.take(j as int), ox as int, oy as int)),
                        edges_wf(mine@),
                    decreases g@.len() - j,
                {
                    let a = g[j - 1];
                    let b = g[j];
                    let pa = a.position();
                    let pb = b.position();
                    proof {
                        lemma_run_edges_step(run@, j as int, ox as int, oy as int);
                        let va = run@[j - 1];
                        let vb = run@[j as int];
                        assert(rebase_fits(va, ox as int, oy as int));
                        assert(rebase_fits(vb, ox as int, oy as int));
                        assert(g@[j - 1] == rebased(va, ox as int, oy as int));
                        assert(g@[j as int] == rebased(vb, ox as int, oy as int));
                        V::lemma_moved_to(va, Coord { x: (va.pos().x + ox) as i32, y: (va.pos().y + oy) as i32 }, va.pos());
                        V::lemma_moved_to(vb, Coord { x: (vb.pos().x + ox) as i32, y: (vb.pos().y + oy) as i32 }, vb.pos());
                        assert((pa == pb) == (va.pos() == vb.pos()));
                    }
                    let ghost prior = base + run_edges(run@.take(j as int), ox as int, oy as int);
                    if !(pa.x == pb.x && pa.y == pb.y) {
                        let k = (pa, pb);
                        proof {
                            assert(base + run_edges(run@.take(j + 1), ox as int, oy as int) =~= prior.push((a, b)));
                            assert(prior.push((a, b)).drop_last() =~= prior);
                        }
                        match find_key(&mine, k) {
                            Some(_) => {},
                            None => {
                                mine.push((a, b));
                                proof {
                                    assert forall|x: int, y: int| 0 <= x < y < mine@.len() implies key_of(mine@[x]) != key_of(mine@[y]) by {
                                        if y == mine@.len() - 1 {
                                            assert(key_of(mine@[x]) != k);
                                        }
                                    }
                                }
                            },
                        }
                    } else {
                        proof {
                            assert(base + run_edges(run@.take(j + 1), ox as int, oy as int) =~= prior);
                        }
                    }
                    j = j + 1;
                }
                proof {
                    assert(run@.take(run@.len() as int) =~= run@);
                }
            } else {
                proof {
                    assert(run_edges(run@, ox as int, oy as int) =~= Seq::<(V, V)>::empty());
                    assert(base + run_edges(run@, ox as int, oy as int) =~= base);
                }
            }
            proof {
                lemma_runs_edges_step(rs, ri as int, ox as int, oy as int);
                assert forall|a: int, b: int|
                    0 <= a < rs.take(ri + 1).len() && 0 <= b < rs.take(ri + 1)[a].len() implies #[trigger] rebase_fits(
                    rs.take(ri + 1)[a][b],
                    ox as int,
                    oy as int,
                ) by {
                    if a < ri {
                        assert(rs.take(ri + 1)[a] == rs.take(ri as int)[a]);
                        assert(rebase_fits(rs.take(ri as int)[a][b], ox as int, oy as int));
                    } else {
                        assert(rs.take(ri + 1)[a] == run@);
                        assert(rebase_fits(run@[b], ox as int, oy as int));
                    }
                }
            }
            ri = ri + 1;
        }
        proof {
            assert(rs.take(runs@.len() as int) =~= rs);
        }
        let ghost es = mine@;
        let ghost mm = edge_map(es);
        let ghost ext_i = e as int;
        assert(es == tile_edges(tile, ext_i, rs));
        // Conflict scan against the other present tiles, in tile order.
        let ext = self.extent as i32;
        let mut conflicts: Vec<TileId> = Vec::new();
        let mut i: usize = 0;
        while i < self.tiles.len()
            invariant
                self.tiles@ == s0,
                entries_wf(s0),
                ext == ext_i,
                ext > 0,
                edges_wf(mine@),
                mine@ == es,
                mm == edge_map(es),
                i <= s0.len(),
                tiles_sorted(conflicts@),
                forall|a: int|
                    #![trigger conflicts@[a]]
                    0 <= a < conflicts@.len() ==> conflicts@[a] != tile && exists|j: int|
                        0 <= j < i && #[trigger] s0[j].tile == conflicts@[a] && (misses_owned(
                            mm,
                            edge_map(s0[j].edges@),
                            tile,
                            conflicts@[a],
                            ext_i,
                        ) || shares_key(mm, edge_map(s0[j].edges@))),
                forall|j: int|
                    0 <= j < i && #[trigger] s0[j].tile != tile && misses_owned(
                        mm,
                        edge_map(s0[j].edges@),
                        tile,
                        s0[j].tile,
                        ext_i,
                    ) ==> conflicts@.contains(s0[j].tile),
                conflicts@.len() == 0 || i > 0,
                V::obeys_vertex_eq() ==> forall|u: TileId|
                    conflicts@.contains(u) <==> exists|j: int|
                        0 <= j < i && #[trigger] s0[j].tile == u && u != tile && disagrees(
                            mm,
                            edge_map(s0[j].edges@),
                            tile,
                            u,
                            ext_i,
                        ),
            decreases s0.len() - i,
        {
            let u = self.tiles[i].tile;
            assert(s0[i as int].edges@.len() >= 1);
            let bad = !u.same_as(&tile) && disagrees_exec(&mine, &self.tiles[i].edges, tile, u, ext);
            let ghost before = conflicts@;
            if bad {
                conflicts.push(u);
                proof {
                    assert forall|a: int, b: int| 0 <= a < b < conflicts@.len() implies tile_lt(
                        conflicts@[a],
                        conflicts@[b],
                    ) by {
                        if b == conflicts@.len() - 1 {
                            let j = choose|j: int| 0 <= j < i && #[trigger] s0[j].tile == conflicts@[a];
                            assert(tile_lt(s0[j].tile, s0[i as int].tile));
                        }
                    }
                    assert forall|a: int| #![trigger conflicts@[a]] 0 <= a < conflicts@.len() implies conflicts@[a] != tile && exists|j: int|
                        0 <= j < i + 1 && #[trigger] s0[j].tile == conflicts@[a] && (misses_owned(
                            mm,
                            edge_map(s0[j].edges@),
                            tile,
                            conflicts@[a],
                            ext_i,
                        ) || shares_key(mm, edge_map(s0[j].edges@))) by {
                        if a == conflicts@.len() - 1 {
                            assert(s0[i as int].tile == conflicts@[a]);
                        } else {
                            assert(conflicts@[a] == before[a]);
                        }
                    }
                }
            }
            proof {
                assert forall|j: int|
                    0 <= j < i + 1 && #[trigger] s0[j].tile != tile && misses_owned(
                        mm,
                        edge_map(s0[j].edges@),
                        tile,
                        s0[j].tile,
                        ext_i,
                    ) implies conflicts@.contains(s0[j].tile) by {
                    if j < i {
                        assert(before.contains(s0[j].tile));
                        let x = choose|x: int| 0 <= x < before.len() && before[x] == s0[j].tile;
                        assert(conflicts@[x] == s0[j].tile);
                    } else {
                        assert(u == s0[j].tile);
                        assert(bad);
                        assert(conflicts@[conflicts@.len() - 1] == u);
                    }
                }
            }
            proof {
                if V::obeys_vertex_eq() {
                    assert forall|w: TileId| conflicts@.contains(w) <==> exists|j: int|
                        0 <= j < i + 1 && #[trigger] s0[j].tile == w && w != tile && disagrees(
                            mm,
                            edge_map(s0[j].edges@),
                            tile,
                            w,
                            ext_i,
                        ) by {
                        if conflicts@.contains(w) && !before.contains(w) {
                            assert(w == u);
                            assert(s0[i as int].tile == w);
                        }
                        if before.contains(w) {
                            let x = choose|x: int| 0 <= x < before.len() && before[x] == w;
                            assert(conflicts@[x] == w);
                        }
                        if exists|j: int|
                            0 <= j < i + 1 && #[trigger] s0[j].tile == w && w != tile && disagrees(
                                mm,
                                edge_map(s0[j].edges@),
                                tile,
                                w,
                                ext_i,
                            ) {
                            let j = choose|j: int|
                                0 <= j < i + 1 && #[trigger] s0[j].tile == w && w != tile && disagrees(
                                    mm,
                                    edge_map(s0[j].edges@),
                                    tile,
                                    w,
                                    ext_i,
                                );
                            if j == i {
                                assert(bad);
                                assert(conflicts@[conflicts@.len() - 1] == w);
                            }
                        }
                    }
                }
            }
            i = i + 1;
        }
        let ghost cs = conflict_set(m0, mm, tile, ext_i);
        proof {
            if V::obeys_vertex_eq() {
                assert forall|w: TileId| conflicts@.to_set().contains(w) <==> cs.contains(w) by {
                    if cs.contains(w) {
                        let j = choose|j: int| 0 <= j < s0.len() && s0[j].tile == w;
                        lemma_view_at(s0, j);
                    }
                    if conflicts@.contains(w) {
                        let j = choose|j: int|
                            0 <= j < s0.len() && #[trigger] s0[j].tile == w && w != tile && disagrees(
                                mm,
                                edge_map(s0[j].edges@),
                                tile,
                                w,
                                ext_i,
                            );
                        lemma_view_at(s0, j);
                    }
                }
                assert(conflicts@.to_set() =~= cs);
            }
        }
        if conflicts.len() > 0 {
            proof {
                if V::obeys_vertex_eq() {
                    assert(conflicts@.to_set().contains(conflicts@[0]));
                }
                assert forall|a: int| 0 <= a < conflicts@.len() implies #[trigger] m0.contains_key(conflicts@[a])
                    && conflicts@[a] != tile && (misses_owned(mm, m0[conflicts@[a]], tile, conflicts@[a], ext_i)
                    || shares_key(mm, m0[conflicts@[a]])) by {
                    let j = choose|j: int| 0 <= j < i && #[trigger] s0[j].tile == conflicts@[a] && (misses_owned(
                        mm,
                        edge_map(s0[j].edges@),
                        tile,
                        conflicts@[a],
                        ext_i,
                    ) || shares_key(mm, edge_map(s0[j].edges@)));
                    lemma_view_at(s0, j);
                }
                assert forall|w: TileId| #[trigger] missing_set(m0, mm, tile, ext_i).contains(w) implies conflicts@.contains(w) by {
                    let j = choose|j: int| 0 <= j < s0.len() && s0[j].tile == w;
                    lemma_view_at(s0, j);
                    assert(s0[j].tile != tile);
                }
            }
            return Err(TileError::Conflict(conflicts));
        }
        proof {
            assert(missing_set(m0, mm, tile, ext_i) =~= Set::<TileId>::empty()) by {
                assert forall|w: TileId| !#[trigger] missing_set(m0, mm, tile, ext_i).contains(w) by {
                    if missing_set(m0, mm, tile, ext_i).contains(w) {
                        let j = choose|j: int| 0 <= j < s0.len() && s0[j].tile == w;
                        lemma_view_at(s0, j);
                        assert(s0[j].tile != tile);
                        assert(conflicts@.contains(w));
                    }
                }
            }
            if V::obeys_vertex_eq() {
                assert(cs =~= Set::<TileId>::empty()) by {
                    assert(conflicts@.to_set() =~= Set::<TileId>::empty());
                }
                assert forall|u: TileId, k: (Coord, Coord)|
                    u != tile && m0.contains_key(u) && #[trigger] m0[u].contains_key(k) && mm.contains_key(k)
                        implies m0[u][k] == mm[k] by {
                    assert(!cs.contains(u));
                }
                lemma_consistent_commit(m0, tile, es);
            }
        }
        // Commit: replace this tile's prior contents.
        let mut k: usize = 0;
        while k < self.tiles.len() && self.tiles[k].tile.precedes(&tile)
            invariant
                self.tiles@ == s0,
                k <= s0.len(),
                forall|j: int| 0 <= j < k ==> tile_lt(#[trigger] s0[j].tile, tile),
            decreases s0.len() - k,
        {
            k = k + 1;
        }
        let nonempty = mine.len() > 0;
        let entry = TileEdges { tile, edges: mine };
        let mut ts: Vec<TileEdges<V>> = Vec::new();
        std::mem::swap(&mut ts, &mut self.tiles);
        if k < ts.len() && ts[k].tile.same_as(&tile) {
            if nonempty {
                ts.set(k, entry);
                proof {
                    lemma_view_update(s0, k as int, entry);
                    assert(ts@ == s0.update(k as int, entry));
                    let n = ts@;
                    assert forall|i: int| #![trigger n[i]] 0 <= i < n.len() implies n[i].edges@.len()
                        >= 1 && edges_wf(n[i].edges@) by {
                        if i != k {
                            assert(n[i] == s0[i]);
                        }
                    }
                    assert forall|a: int, b: int| 0 <= a < b < n.len() implies tile_lt(n[a].tile, n[b].tile) by {
                        assert(n[a].tile == s0[a].tile && n[b].tile == s0[b].tile);
                    }
                }
            } else {
                proof {
                    lemma_view_remove(s0, k as int);
                }
                ts.remove(k);
                proof {
                    let n = ts@;
                    assert forall|i: int| #![trigger n[i]] 0 <= i < n.len() implies n[i].edges@.len()
                        >= 1 && edges_wf(n[i].edges@) by {
                        let js = if i < k { i } else { i + 1 };
                        assert(n[i] == s0[js]);
                    }
                }
            }
        } else {
            proof {
                if k < s0.len() {
                    assert(!tile_lt(s0[k as int].tile, tile));
                    assert(s0[k as int].tile != tile);
                }
                assert forall|j: int| 0 <= j < s0.len() implies s0[j].tile != tile by {
                    if j >= k {
                        if j > k {
                            assert(tile_lt(s0[k as int].tile, s0[j].tile));
                        }
                    }
                }
            }
            if nonempty {
                ts.insert(k, entry);
                proof {
                    lemma_view_insert(s0, k as int, entry);
                    let n = ts@;
                    assert forall|i: int| #![trigger n[i]] 0 <= i < n.len() implies n[i].edges@.len()
                        >= 1 && edges_wf(n[i].edges@) by {
                        if i < k {
                            assert(n[i] == s0[i]);
                        } else if i > k {
                            assert(n[i] == s0[i - 1]);
                        }
                    }
                }
            } else {
                assert(m0.remove(tile) =~= m0);
            }
        }
        self.tiles = ts;
        Ok(())
    }
}

/// `es` lists, strictly in key order, edges that `m` carries, one for every key `m` carries.
pub open spec fn lists_edges<V: Vertex>(m: Map<TileId, Map<(Coord, Coord), (V, V)>>, es: Seq<(V, V)>) -> bool {
    &&& keys_sorted(es)
    &&& forall|i: int| 0 <= i < es.len() ==> carried(m, #[trigger] es[i])
    &&& forall|k: (Coord, Coord)| has_key(m, k) ==> has_key_in(es, k)
}

/// Some sequence of edges meeting `p`.
pub open spec fn some_listing<V>(p: spec_fn(Seq<(V, V)>) -> bool) -> Seq<(V, V)> {
    choose|es: Seq<(V, V)>| #[trigger] p(es)
}

/// The distinct edges of `m` in key order (the one such listing when `m`'s shared edges agree).
pub open spec fn sorted_edges<V: Vertex>(m: Map<TileId, Map<(Coord, Coord), (V, V)>>) -> Seq<(V, V)> {
    some_listing(|es: Seq<(V, V)>| lists_edges(m, es))
}

/// The features a mosaic whose shared edges agree gives back: its distinct edges, in key order,
/// rejoined into chains.
pub open spec fn reassembled<V: Vertex>(m: Map<TileId, Map<(Coord, Coord), (V, V)>>) -> Seq<Seq<V>> {
    stitched(sorted_edges(m))
}

/// A mosaic's features depend only on the edges it carries: two mosaics carrying the same keys
/// and the same edges give back the same features in the same order, however their tiles were
/// cut.
pub proof fn law_features_depend_only_on_edges<V: Vertex>(
    m1: Map<TileId, Map<(Coord, Coord), (V, V)>>,
    m2: Map<TileId, Map<(Coord, Coord), (V, V)>>,
)
    requires
        forall|k: (Coord, Coord)| has_key(m1, k) <==> has_key(m2, k),
        forall|e: (V, V)| carried(m1, e) <==> carried(m2, e),
    ensures
        reassembled(m1) == reassembled(m2),
{
    assert forall|es: Seq<(V, V)>| lists_edges(m1, es) == lists_edges(m2, es) by {
        assert((forall|i: int| 0 <= i < es.len() ==> carried(m1, #[trigger] es[i])) == (forall|i: int|
            0 <= i < es.len() ==> carried(m2, #[trigger] es[i])));
    }
    let p1 = |es: Seq<(V, V)>| lists_edges(m1, es);
    let p2 = |es: Seq<(V, V)>| lists_edges(m2, es);
    assert(p1 =~= p2);
    assert(sorted_edges(m1) == some_listing(p1));
    assert(sorted_edges(m2) == some_listing(p2));
}

/// Two key-sorted listings with the same keys, agreeing on the edge of every key, are one listing.
proof fn lemma_listing_unique<V: Vertex>(s1: Seq<(V, V)>, s2: Seq<(V, V)>)
    requires
        keys_sorted(s1),
        keys_sorted(s2),
        forall|k: (Coord, Coord)| has_key_in(s1, k) <==> has_key_in(s2, k),
        forall|i: int, j: int|
            0 <= i < s1.len() && 0 <= j < s2.len() && key_of(#[trigger] s1[i]) == key_of(
                #[trigger] s2[j],
            ) ==> s1[i] == s2[j],
    ensures
        s1 == s2,
    decreases s1.len(),
{
    if s1.len() == 0 {
        if s2.len() > 0 {
            assert(has_key_in(s2, key_of(s2[0])));
        }
        assert(s1 =~= s2);
    } else {
        assert(has_key_in(s1, key_of(s1[0])));
        let j = choose|j: int| 0 <= j < s2.len() && #[trigger] key_of(s2[j]) == key_of(s1[0]);
        assert(has_key_in(s2, key_of(s2[0])));
        let i = choose|i: int| 0 <= i < s1.len() && #[trigger] key_of(s1[i]) == key_of(s2[0]);
        if j > 0 {
            assert(key_lt(key_of(s2[0]), key_of(s2[j])));
            if i > 0 {
                assert(key_lt(key_of(s1[0]), key_of(s1[i])));
            }
            assert(false);
        }
        let t1 = s1.drop_first();
        let t2 = s2.drop_first();
        assert forall|k: (Coord, Coord)| has_key_in(t1, k) <==> has_key_in(t2, k) by {
            if has_key_in(t1, k) {
                let a = choose|a: int| 0 <= a < t1.len() && #[trigger] key_of(t1[a]) == k;
                assert(key_of(s1[a + 1]) == k);
                assert(has_key_in(s1, k));
                let b = choose|b: int| 0 <= b < s2.len() && #[trigger] key_of(s2[b]) == k;
                assert(key_lt(key_of(s1[0]), key_of(s1[a + 1])));
                if b == 0 {
                    assert(false);
                }
                assert(key_of(t2[b - 1]) == k);
            }
            if has_key_in(t2, k) {
                let a = choose|a: int| 0 <= a < t2.len() && #[trigger] key_of(t2[a]) == k;
                assert(key_of(s2[a + 1]) == k);
                assert(has_key_in(s2, k));
                let b = choose|b: int| 0 <= b < s1.len() && #[trigger] key_of(s1[b]) == k;
                assert(key_lt(key_of(s2[0]), key_of(s2[a + 1])));
                if b == 0 {
                    assert(false);
                }
                assert(key_of(t1[b - 1]) == k);
            }
        }
        assert forall|a: int, b: int|
            0 <= a < t1.len() && 0 <= b < t2.len() && key_of(#[trigger] t1[a]) == key_of(
                #[trigger] t2[b],
            ) implies t1[a] == t2[b] by {
            assert(t1[a] == s1[a + 1] && t2[b] == s2[b + 1]);
        }
        lemma_listing_unique(t1, t2);
        assert(s1 =~= seq![s1[0]] + t1);
        assert(s2 =~= seq![s2[0]] + t2);
    }
}

/// When `m`'s shared edges agree, every listing of its edges is the one [`sorted_edges`] names.
proof fn lemma_sorted_edges<V: Vertex>(m: Map<TileId, Map<(Coord, Coord), (V, V)>>, es: Seq<(V, V)>)
    requires
        consistent(m),
        lists_edges(m, es),
    ensures
        sorted_edges(m) == es,
{
    let s = sorted_edges(m);
    let p = |x: Seq<(V, V)>| lists_edges(m, x);
    assert(p(es));
    assert(s == some_listing(p));
    assert(lists_edges(m, s));
    assert forall|k: (Coord, Coord)| has_key_in(s, k) <==> has_key_in(es, k) by {
        if has_key_in(s, k) {
            let i = choose|i: int| 0 <= i < s.len() && #[trigger] key_of(s[i]) == k;
            assert(carried(m, s[i]));
        }
        if has_key_in(es, k) {
            let i = choose|i: int| 0 <= i < es.len() && #[trigger] key_of(es[i]) == k;
            assert(carried(m, es[i]));
        }
    }
    assert forall|i: int, j: int|
        0 <= i < s.len() && 0 <= j < es.len() && key_of(#[trigger] s[i]) == key_of(#[trigger] es[j])
        implies s[i] == es[j] by {
        assert(carried(m, s[i]));
        assert(carried(m, es[j]));
        let u = choose|u: TileId| #[trigger] m.contains_key(u) && m[u].contains_key(key_of(s[i]))
            && m[u][key_of(s[i])] == s[i];
        let w = choose|w: TileId| #[trigger] m.contains_key(w) && m[w].contains_key(key_of(es[j]))
            && m[w][key_of(es[j])] == es[j];
        assert(m[u].contains_key(key_of(s[i])) && m[w].contains_key(key_of(s[i])));
    }
    lemma_listing_unique(s, es);
}

impl<V: Vertex> Mosaic<V> {
    /// Every distinct edge present, once each, ordered by key.
    fn collect_edges(&self) -> (r: Vec<(V, V)>)
        requires
            self.wf(),
        ensures
            edges_wf(r@),
            keys_sorted(r@),
            forall|i: int| 0 <= i < r@.len() ==> carried(self@, #[trigger] r@[i]),
            forall|k: (Coord, Coord)|
                has_key(self@, k) ==> exists|i: int| 0 <= i < r@.len() && #[trigger] key_of(r@[i]) == k,
    {
        let ghost s0 = self.tiles@;
        let mut out: Vec<(V, V)> = Vec::new();
        let mut t: usize = 0;
        while t < self.tiles.len()
            invariant
                self.tiles@ == s0,
                entries_wf(s0),
                t <= s0.len(),
                keys_sorted(out@),
                forall|i: int| 0 <= i < out@.len() ==> stored(s0, #[trigger] out@[i]),
                forall|tt: int, jj: int|
                    #![trigger s0[tt].edges@[jj]]
                    0 <= tt < t && 0 <= jj < s0[tt].edges@.len() ==> has_key_in(out@, key_of(s0[tt].edges@[jj])),
            decreases s0.len() - t,
        {
            let es = &self.tiles[t].edges;
            let mut j: usize = 0;
            while j < es.len()
                invariant
                    self.tiles@ == s0,
                    entries_wf(s0),
                    t < s0.len(),
                    es@ == s0[t as int].edges@,
                    j <= es@.len(),
                    keys_sorted(out@),
                    forall|i: int| 0 <= i < out@.len() ==> stored(s0, #[trigger] out@[i]),
                    forall|tt: int, jj: int|
                        #![trigger s0[tt].edges@[jj]]
                        0 <= tt < t && 0 <= jj < s0[tt].edges@.len() ==> has_key_in(out@, key_of(s0[tt].edges@[jj])),
                    forall|jj: int| 0 <= jj < j ==> has_key_in(out@, key_of(#[trigger] es@[jj])),
                decreases es@.len() - j,
            {
                let ed = es[j];
                assert(stored(s0, ed)) by {
                    assert(s0[t as int].edges@[j as int] == ed);
                }
                let ghost o = out@;
                insert_edge_sorted(&mut out, ed);
                proof {
                    assert forall|i: int| 0 <= i < out@.len() implies stored(s0, #[trigger] out@[i]) by {
                        if out@[i] != ed {
                            let x = choose|x: int| 0 <= x < o.len() && o[x] == out@[i];
                            assert(stored(s0, o[x]));
                        }
                    }
                }
                j = j + 1;
            }
            proof {
                assert forall|tt: int, jj: int|
                    #![trigger s0[tt].edges@[jj]]
                    0 <= tt < t + 1 && 0 <= jj < s0[tt].edges@.len() implies has_key_in(out@, key_of(s0[tt].edges@[jj])) by {
                    if tt == t {
                        assert(s0[tt].edges@[jj] == es@[jj]);
                    }
                }
            }
            t = t + 1;
        }
        proof {
            let m = self@;
            assert forall|i: int| 0 <= i < out@.len() implies carried(m, #[trigger] out@[i]) by {
                let e = out@[i];
                assert(stored(s0, e));
                let (tt, jj) = choose|tt: int, jj: int| 0 <= tt < s0.len() && 0 <= jj < s0[tt].edges@.len() && #[trigger] s0[tt].edges@[jj] == e;
                lemma_view_at(s0, tt);
                lemma_edge_map_at(s0[tt].edges@, jj);
                assert(m.contains_key(s0[tt].tile));
            }
            assert forall|k: (Coord, Coord)| has_key(m, k) implies exists|i: int|
                0 <= i < out@.len() && #[trigger] key_of(out@[i]) == k by {
                let u = choose|u: TileId| #[trigger] m.contains_key(u) && m[u].contains_key(k);
                let tt = choose|tt: int| 0 <= tt < s0.len() && s0[tt].tile == u;
                lemma_view_at(s0, tt);
                let jj = choose|jj: int| 0 <= jj < s0[tt].edges@.len() && key_of(s0[tt].edges@[jj]) == k;
                assert(has_key_in(out@, key_of(s0[tt].edges@[jj])));
            }
            assert forall|i: int| 0 <= i < out@.len() implies (#[trigger] out@[i]).0.pos() != out@[i].1.pos() by {
                let e = out@[i];
                assert(stored(s0, e));
                let (tt, jj) = choose|tt: int, jj: int| 0 <= tt < s0.len() && 0 <= jj < s0[tt].edges@.len() && #[trigger] s0[tt].edges@[jj] == e;
                assert(edges_wf(s0[tt].edges@));
            }
            assert forall|i: int, j: int| 0 <= i < j < out@.len() implies key_of(out@[i]) != key_of(out@[j]) by {
                assert(key_lt(key_of(out@[i]), key_of(out@[j])));
            }
        }
        out
    }

    /// Every reassembled feature: the distinct edges present, re-chained into polylines in the
    /// global frame. Each edge is walked exactly once by exactly one feature, and features are
    /// maximal: each starts where more edges leave than arrive, or is closed, and ends where every
    /// leaving edge is already walked by it or an earlier feature. For every vertex type the
    /// features are the present edges, one per key in key order, rejoined by `stitched`; for
    /// vertices whose equality is decidable that listing is unique, so the features and their order
    /// depend only on the tiles present and their edges.
    pub fn iter_features(&self) -> (r: Vec<Vec<V>>)
        ensures
            forall|c: int| 0 <= c < r@.len() ==> #[trigger] r@[c]@.len() >= 2,
            forall|c: int| 0 <= c < r@.len() ==> chain_carried(self@, #[trigger] r@[c]@),
            chain_keys(runs_view(r@)).no_duplicates(),
            forall|k: (Coord, Coord)| chain_keys(runs_view(r@)).contains(k) <==> has_key(self@, k),
            forall|c: int| 0 <= c < r@.len() ==> #[trigger] starts_maximal(self@, r@[c]@),
            forall|c: int| 0 <= c < r@.len() ==> #[trigger] ends_maximal(self@, runs_view(r@), c),
            exists|es: Seq<(V, V)>| lists_edges(self@, es) && runs_view(r@) == stitched(es),
            V::obeys_vertex_eq() ==> runs_view(r@) == reassembled(self@),
    {
        proof {
            use_type_invariant(self);
        }
        let all = self.collect_edges();
        let chains = stitch(&all);
        proof {
            assert(lists_edges(self@, all@));
            if V::obeys_vertex_eq() {
                lemma_sorted_edges(self@, all@);
            }
        }
        proof {
            let m = self@;
            let n = all@.len() as int;
            let fs = runs_view(chains@);
            assert forall|p: Coord|
                out_count(all@, p, n) == #[trigger] leaving(key_set(m), p).len() && in_count(
                    all@,
                    p,
                    n,
                ) == arriving(key_set(m), p).len() by {
                lemma_counts_card(all@, p, n);
                assert(keys_upto(all@, n) =~= key_set(m)) by {
                    assert forall|k: (Coord, Coord)| keys_upto(all@, n).contains(k) implies has_key(
                        m,
                        k,
                    ) by {
                        let i = choose|i: int| 0 <= i < n && #[trigger] key_of(all@[i]) == k;
                        assert(carried(m, all@[i]));
                    }
                }
            }
            assert forall|c: int| 0 <= c < chains@.len() implies #[trigger] starts_maximal(
                m,
                chains@[c]@,
            ) by {
                assert(starts_well(chains@[c]@, all@));
                assert(leaving(key_set(m), chains@[c]@[0].pos()).len() == out_count(
                    all@,
                    chains@[c]@[0].pos(),
                    n,
                ));
            }
            assert forall|c: int| 0 <= c < chains@.len() implies #[trigger] ends_maximal(m, fs, c) by {
                assert(ends_well(fs, c, all@));
                assert forall|k: (Coord, Coord)| has_key(m, k) && k.0 == fs[c].last().pos() implies #[trigger] chain_keys(
                    fs.take(c + 1),
                ).contains(k) by {
                    let i = choose|i: int| 0 <= i < all@.len() && #[trigger] key_of(all@[i]) == k;
                    assert(all@[i].0.pos() == k.0);
                }
            }
            assert forall|c: int| 0 <= c < chains@.len() implies chain_carried(m, #[trigger] chains@[c]@) by {
                lemma_chain_carried(m, all@, chains@[c]@);
            }
            lemma_chain_key_set(m, all@, chain_keys(runs_view(chains@)));
        }
        chains
    }
}

/// Purging a tile right after adding it to a mosaic that did not hold it gives the mosaic back.
pub proof fn law_purge_undoes_add<V: Vertex>(
    m: Map<TileId, Map<(Coord, Coord), (V, V)>>,
    t: TileId,
    es: Seq<(V, V)>,
)
    requires
        !m.contains_key(t),
    ensures
        committed(m, t, es).remove(t) == m,
{
    assert(committed(m, t, es).remove(t) =~= m);
}

/// Re-adding a tile depends only on what it is re-added with: whatever the tile held before,
/// the mosaic afterwards is the same.
pub proof fn law_readd_replaces<V: Vertex>(
    m: Map<TileId, Map<(Coord, Coord), (V, V)>>,
    t: TileId,
    old_es: Seq<(V, V)>,
    es: Seq<(V, V)>,
)
    ensures
        committed(committed(m, t, old_es), t, es) == committed(m, t, es),
{
    assert(committed(committed(m, t, old_es), t, es) =~= committed(m, t, es));
}


/// Disagreement between two tiles does not depend on which of them is the one being added.
pub proof fn law_disagreement_symmetric<V>(
    a: Map<(Coord, Coord), (V, V)>,
    b: Map<(Coord, Coord), (V, V)>,
    t: TileId,
    u: TileId,
    extent: int,
)
    ensures
        disagrees(a, b, t, u, extent) == disagrees(b, a, u, t, extent),
{
    if disagrees(a, b, t, u, extent) {
        if exists|k: (Coord, Coord)| #[trigger] a.contains_key(k) && b.contains_key(k) && b[k] != a[k] {
            let k = choose|k: (Coord, Coord)|
                #[trigger] a.contains_key(k) && b.contains_key(k) && b[k] != a[k];
            assert(b.contains_key(k) && a.contains_key(k) && a[k] != b[k]);
        }
    }
    if disagrees(b, a, u, t, extent) {
        if exists|k: (Coord, Coord)| #[trigger] b.contains_key(k) && a.contains_key(k) && a[k] != b[k] {
            let k = choose|k: (Coord, Coord)|
                #[trigger] b.contains_key(k) && a.contains_key(k) && a[k] != b[k];
            assert(a.contains_key(k) && b.contains_key(k) && b[k] != a[k]);
        }
    }
}

/// Two different tiles, each carrying some edge, can be added in either order: both orders leave
/// the same mosaic, and so give back the same features in the same order; the tile added second
/// meets the first in its conflicts in one order exactly when it does in the other, and its
/// conflicts with every other tile are those it would meet without the first.
pub proof fn law_add_order_independent<V: Vertex>(
    m: Map<TileId, Map<(Coord, Coord), (V, V)>>,
    t: TileId,
    et: Seq<(V, V)>,
    u: TileId,
    eu: Seq<(V, V)>,
    extent: int,
)
    requires
        t != u,
        et.len() >= 1,
        eu.len() >= 1,
    ensures
        committed(committed(m, t, et), u, eu) == committed(committed(m, u, eu), t, et),
        conflict_set(committed(m, t, et), edge_map(eu), u, extent).contains(t) == conflict_set(
            committed(m, u, eu),
            edge_map(et),
            t,
            extent,
        ).contains(u),
        forall|w: TileId|
            w != t ==> (conflict_set(committed(m, t, et), edge_map(eu), u, extent).contains(w)
                == #[trigger] conflict_set(m, edge_map(eu), u, extent).contains(w)),
        reassembled(committed(committed(m, t, et), u, eu)) == reassembled(
            committed(committed(m, u, eu), t, et),
        ),
{
    assert(committed(committed(m, t, et), u, eu) =~= committed(committed(m, u, eu), t, et));
    law_disagreement_symmetric(edge_map(eu), edge_map(et), u, t, extent);
}

} // verus!
