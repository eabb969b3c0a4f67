//! The public polyline slicing API: [`SlicerAll`] (accumulate every tile a polyline touches) and
//! [`SlicerOne`] (accumulate a single, fixed tile).
//!
//! Both wrap the same stateless [`Grid`] engine and accumulate results as **features**. Each
//! polyline added is an independent feature; it is sliced and its per-tile runs recorded under that
//! feature, together with the feature's attribute. A single polyline can still yield several runs in
//! one tile (it left the tile and re-entered, dropping a vertex outside); those runs stay grouped as
//! that tile's feature.
//!
//! Runs come out in each tile's **local frame**: the tile's `[0, 0]` corner is the origin, so a
//! vertex at global `(x, y)` is `(x − tile.x·extent, y − tile.y·extent)`.

use vstd::prelude::*;

use crate::error::TileError;
use crate::grid::{
    dedup, distinct_tiles, has_tile, lemma_slice_one_long, localized_runs, pending_runs, runs_long,
    runs_upto, runs_view, tile_index, Grid, PendingTile, MAX_INDEXED_LEN,
};
use crate::tile::{tile_lt, TileId};
use crate::vertex::{Coord, Vertex};

verus! {

/// One feature's runs in one tile, plus the index of the feature's attribute.
#[derive(Debug)]
pub struct FeatureBuf<V> {
    pub runs: Vec<Vec<V>>,
    pub attr: usize,
}

/// One tile's accumulated features, in the order they were added.
#[derive(Debug)]
pub struct TileBuf<V> {
    pub tile: TileId,
    pub features: Vec<FeatureBuf<V>>,
}

/// A feature as seen from outside: its runs and its attribute.
pub open spec fn feature_of<V, A>(f: FeatureBuf<V>, attrs: Seq<A>) -> (Seq<Seq<V>>, A) {
    (runs_view(f.runs@), attrs[f.attr as int])
}

/// All of a tile's features as seen from outside.
pub open spec fn features_of<V, A>(fs: Seq<FeatureBuf<V>>, attrs: Seq<A>) -> Seq<(Seq<Seq<V>>, A)> {
    fs.map_values(|f: FeatureBuf<V>| feature_of(f, attrs))
}

/// Every feature holds at least one run, each of at least two vertices, and a valid attribute
/// index.
pub open spec fn features_wf<V>(fs: Seq<FeatureBuf<V>>, n_attrs: int) -> bool {
    forall|j: int|
        #![trigger fs[j]]
        0 <= j < fs.len() ==> fs[j].runs@.len() >= 1 && runs_long(runs_view(fs[j].runs@))
            && fs[j].attr < n_attrs
}

/// The tile buffers are sorted strictly by tile, each non-empty and well formed.
pub open spec fn tiles_wf<V>(tiles: Seq<TileBuf<V>>, n_attrs: int) -> bool {
    &&& forall|i: int, j: int| 0 <= i < j < tiles.len() ==> tile_lt(tiles[i].tile, tiles[j].tile)
    &&& forall|i: int|
        #![trigger tiles[i]]
        0 <= i < tiles.len() ==> (tiles[i].features@.len() >= 1 && features_wf(
            tiles[i].features@,
            n_attrs,
        ))
}

/// The features recorded for tile `t` (empty when the tile was never touched).
pub open spec fn tile_features<V, A>(tiles: Seq<TileBuf<V>>, attrs: Seq<A>, t: TileId) -> Seq<
    (Seq<Seq<V>>, A),
> {
    if exists|k: int| 0 <= k < tiles.len() && tiles[k].tile == t {
        let k = choose|k: int| 0 <= k < tiles.len() && tiles[k].tile == t;
        features_of(tiles[k].features@, attrs)
    } else {
        Seq::empty()
    }
}

/// The features listed for tile `t` in a tile-ordered view (empty when it is not listed).
pub open spec fn view_features<V, A>(view: Seq<(TileId, Seq<(Seq<Seq<V>>, A)>)>, t: TileId) -> Seq<
    (Seq<Seq<V>>, A),
> {
    if exists|k: int| 0 <= k < view.len() && view[k].0 == t {
        view[choose|k: int| 0 <= k < view.len() && view[k].0 == t].1
    } else {
        Seq::empty()
    }
}

/// A view lists tiles strictly in tile order, each with at least one feature, every feature with
/// at least one run.
pub open spec fn view_sorted<V, A>(view: Seq<(TileId, Seq<(Seq<Seq<V>>, A)>)>) -> bool {
    &&& forall|i: int, j: int| 0 <= i < j < view.len() ==> tile_lt(view[i].0, view[j].0)
    &&& forall|i: int|
        0 <= i < view.len() ==> #[trigger] view[i].1.len() >= 1 && (forall|j: int|
            0 <= j < view[i].1.len() ==> #[trigger] view[i].1[j].0.len() >= 1 && runs_long(
                view[i].1[j].0,
            ))
}

/// The runs a single-tile clip of `polyline` yields for tile `t` (empty when it does not reach the
/// tile, or the clip fails).
pub open spec fn clip_new<V: Vertex>(grid: Grid, polyline: Seq<V>, t: TileId) -> Seq<Seq<V>> {
    match grid.slice_one_spec(polyline, t) {
        Ok(r) => r,
        Err(_) => Seq::empty(),
    }
}

/// `t`'s features after adding a feature whose runs in `t` are `runs` with attribute `attr`: the
/// feature is recorded only when it has a run there.
pub open spec fn with_feature<V, A>(
    before: Seq<(Seq<Seq<V>>, A)>,
    runs: Seq<Seq<V>>,
    attr: A,
) -> Seq<(Seq<Seq<V>>, A)> {
    if runs.len() > 0 {
        before.push((runs, attr))
    } else {
        before
    }
}

/// A borrowed view of one feature's clipped polylines within a tile.
pub struct FeatureView<'a, V, A> {
    runs: &'a [Vec<V>],
    attr: &'a A,
}

impl<'a, V, A> FeatureView<'a, V, A> {
    /// The feature's runs and attribute.
    pub closed spec fn view(&self) -> (Seq<Seq<V>>, A) {
        (runs_view(self.runs@), *self.attr)
    }

    /// This feature's polylines (runs) in this tile, each a vertex slice in the tile's local frame.
    /// A feature yields several polylines where the input left the tile and re-entered.
    pub fn iter_polylines(&self) -> (r: Vec<&'a [V]>)
        ensures
            r@.len() == self.view().0.len(),
            forall|i: int| 0 <= i < r@.len() ==> #[trigger] r@[i]@ == self.view().0[i],
    {
        let mut out: Vec<&'a [V]> = Vec::new();
        let mut i: usize = 0;
        while i < self.runs.len()
            invariant
                i <= self.runs@.len(),
                out@.len() == i,
                forall|j: int| 0 <= j < i ==> #[trigger] out@[j]@ == self.runs@[j]@,
            decreases self.runs@.len() - i,
        {
            out.push(self.runs[i].as_slice());
            i = i + 1;
        }
        out
    }

    /// The feature's per-feature attribute.
    pub fn attr(&self) -> (r: &'a A)
        ensures
            *r == self.view().1,
    {
        self.attr
    }
}

/// Build the views of a tile's features.
fn feature_views<'a, V, A>(fs: &'a [FeatureBuf<V>], attrs: &'a [A]) -> (r: Vec<
    FeatureView<'a, V, A>,
>)
    requires
        features_wf(fs@, attrs@.len() as int),
    ensures
        r@.len() == fs@.len(),
        forall|i: int| 0 <= i < r@.len() ==> #[trigger] r@[i].view() == feature_of(fs@[i], attrs@),
{
    let mut out: Vec<FeatureView<'a, V, A>> = Vec::new();
    let mut i: usize = 0;
    while i < fs.len()
        invariant
            i <= fs@.len(),
            features_wf(fs@, attrs@.len() as int),
            out@.len() == i,
            forall|j: int| 0 <= j < i ==> #[trigger] out@[j].view() == feature_of(fs@[j], attrs@),
        decreases fs@.len() - i,
    {
        let f = &fs[i];
        assert(fs@[i as int].attr < attrs@.len());
        out.push(FeatureView { runs: f.runs.as_slice(), attr: &attrs[f.attr] });
        i = i + 1;
    }
    out
}

/// A borrowed view of one tile's accumulated features, yielded by [`SlicerAll::iter_tiles`].
pub struct TileView<'a, V, A> {
    buf: &'a TileBuf<V>,
    attrs: &'a [A],
}

impl<'a, V, A> TileView<'a, V, A> {
    /// The tile and its features.
    pub closed spec fn view(&self) -> (TileId, Seq<(Seq<Seq<V>>, A)>) {
        (self.buf.tile, features_of(self.buf.features@, self.attrs@))
    }

    /// Whether the view refers to well-formed storage.
    #[verifier::type_invariant]
    pub closed spec fn wf(&self) -> bool {
        features_wf(self.buf.features@, self.attrs@.len() as int)
    }

    /// The tile this view is for.
    pub fn id(&self) -> (r: TileId)
        ensures
            r == self.view().0,
    {
        self.buf.tile
    }

    /// The tile this view is for (same as [`id`](Self::id)).
    pub fn tile_id(&self) -> (r: TileId)
        ensures
            r == self.view().0,
    {
        self.buf.tile
    }

    /// This tile's features, in the order they were first added.
    pub fn iter_features(&self) -> (r: Vec<FeatureView<'a, V, A>>)
        ensures
            r@.len() == self.view().1.len(),
            forall|i: int| 0 <= i < r@.len() ==> #[trigger] r@[i].view() == self.view().1[i],
    {
        proof {
            use_type_invariant(self);
        }
        feature_views(self.buf.features.as_slice(), self.attrs)
    }
}

/// Slices integer polylines into per-tile pieces on an integer grid, accumulating every tile each
/// polyline touches.
///
/// Generic over the [`Vertex`] type `V` (plain [`Coord`]s or payload-carrying vertices such as
/// [`Measured`](crate::Measured)) and over a per-feature attribute `A` (default `()`). Add each
/// polyline as an independent feature with [`add_feature`](Self::add_feature) /
/// [`add_feature_with`](Self::add_feature_with) and read them back with
/// [`iter_tiles`](Self::iter_tiles). Tiles come out ordered by [`TileId`] (`x`, then `y`).
pub struct SlicerAll<V: Vertex = Coord, A = ()> {
    grid: Grid,
    tiles: Vec<TileBuf<V>>,
    attrs: Vec<A>,
}

impl<V: Vertex, A> SlicerAll<V, A> {
    /// The accumulator's invariant: a valid grid, and tiles sorted and well formed.
    #[verifier::type_invariant]
    pub closed spec fn wf(&self) -> bool {
        &&& self.grid.wf()
        &&& tiles_wf(self.tiles@, self.attrs@.len() as int)
    }

    /// The tile geometry this slicer clips against.
    pub closed spec fn grid(&self) -> Grid {
        self.grid
    }

    /// The touched tiles in read-back order, each with its features.
    pub closed spec fn tiles_view(&self) -> Seq<(TileId, Seq<(Seq<Seq<V>>, A)>)> {
        self.tiles@.map_values(|tb: TileBuf<V>| (tb.tile, features_of(tb.features@, self.attrs@)))
    }

    /// A well-formed slicer clips against a well-formed grid.
    pub proof fn lemma_wf_grid(&self)
        requires
            self.wf(),
        ensures
            self.grid().wf(),
    {
    }

    /// The features recorded for tile `t`, in insertion order (empty when untouched).
    pub open spec fn features_at(&self, t: TileId) -> Seq<(Seq<Seq<V>>, A)> {
        view_features(self.tiles_view(), t)
    }

    /// A well-formed accumulator lists each touched tile once, in tile order, each with at least
    /// one feature of at least one run, and every run with at least two vertices.
    pub proof fn lemma_view_sorted(&self)
        requires
            self.wf(),
        ensures
            view_sorted(self.tiles_view()),
    {
        let v = self.tiles_view();
        assert forall|i: int| 0 <= i < v.len() implies #[trigger] v[i].1.len() >= 1 && (forall|
            j: int,
        | 0 <= j < v[i].1.len() ==> #[trigger] v[i].1[j].0.len() >= 1 && runs_long(v[i].1[j].0)) by {
            assert(self.tiles@[i].features@.len() >= 1);
            assert forall|j: int| 0 <= j < v[i].1.len() implies #[trigger] v[i].1[j].0.len() >= 1
                && runs_long(v[i].1[j].0) by {
                assert(self.tiles@[i].features@[j].runs@.len() >= 1);
                assert(v[i].1[j].0 == runs_view(self.tiles@[i].features@[j].runs@));
            }
        }
    }

    /// Create a slicer with the given tile side / per-tile output resolution `extent` and `buffer`.
    ///
    /// Coordinates are integers in tile space: a vertex belongs to tile `x.div_euclid(extent)` and
    /// is emitted at `x − tile·extent ∈ [0, extent)`.
    ///
    /// `InvalidExtent` if `extent` is `0` or greater than `i32::MAX`; `BufferTooLarge` if `buffer`
    /// is not strictly less than half the `extent`.
    pub fn new(extent: u32, buffer: u16) -> (r: Result<Self, TileError>)
        ensures
            (extent == 0 || extent > i32::MAX) ==> r is Err && r->Err_0 == TileError::InvalidExtent,
            (1 <= extent <= i32::MAX && 2 * buffer >= extent) ==> r is Err && r->Err_0
                == TileError::BufferTooLarge,
            (1 <= extent <= i32::MAX && 2 * buffer < extent) ==> (r matches Ok(s) && s.wf()
                && s.grid().extent == extent && s.grid().buffer == buffer && s.tiles_view().len()
                == 0),
    {
        let grid = Grid::new(extent, buffer)?;
        Ok(SlicerAll { grid, tiles: Vec::new(), attrs: Vec::new() })
    }

    /// The tile side / per-tile output resolution: kept vertices land in `0..extent`.
    pub fn extent(&self) -> (r: u32)
        ensures
            r == self.grid().extent,
    {
        proof {
            use_type_invariant(self);
        }
        self.grid.extent()
    }

    /// The buffer kept around every tile, in tile-space units.
    pub fn buffer(&self) -> (r: u16)
        ensures
            r == self.grid().buffer,
    {
        proof {
            use_type_invariant(self);
        }
        self.grid.buffer()
    }

    /// Number of tiles the accumulator has touched.
    pub fn len(&self) -> (r: usize)
        ensures
            r == self.tiles_view().len(),
    {
        self.tiles.len()
    }

    /// Whether nothing has been accumulated yet.
    pub fn is_empty(&self) -> (r: bool)
        ensures
            r == (self.tiles_view().len() == 0),
    {
        self.tiles.len() == 0
    }

    /// Discard everything accumulated so far, keeping the extent/buffer config.
    pub fn clear(&mut self)
        ensures
            final(self).wf(),
            final(self).grid() == old(self).grid(),
            final(self).tiles_view().len() == 0,
    {
        proof {
            use_type_invariant(&*self);
        }
        self.tiles = Vec::new();
        self.attrs = Vec::new();
    }

    /// The touched tiles, ordered by [`TileId`], each exposing that tile's features.
    pub fn iter_tiles(&self) -> (r: Vec<TileView<'_, V, A>>)
        ensures
            r@.len() == self.tiles_view().len(),
            forall|i: int|
                0 <= i < r@.len() ==> #[trigger] r@[i].view() == self.tiles_view()[i] && r@[i].wf(),
    {
        proof {
            use_type_invariant(self);
        }
        let mut out: Vec<TileView<'_, V, A>> = Vec::new();
        let mut i: usize = 0;
        while i < self.tiles.len()
            invariant
                self.wf(),
                i <= self.tiles@.len(),
                out@.len() == i,
                forall|j: int|
                    0 <= j < i ==> #[trigger] out@[j].view() == self.tiles_view()[j] && out@[j].wf(),
            decreases self.tiles@.len() - i,
        {
            assert(self.tiles@[i as int].features@.len() >= 1);
            out.push(TileView { buf: &self.tiles[i], attrs: self.attrs.as_slice() });
            i = i + 1;
        }
        out
    }
}

/// A routing result agrees tile by tile with single-tile clipping, and every entry holds a run.
proof fn lemma_routed_clip<V: Vertex>(grid: Grid, out: Seq<PendingTile<V>>, polyline: Seq<V>)
    requires
        grid.wf(),
        grid.routed(out, polyline),
    ensures
        forall|t: TileId| #[trigger] pending_runs(out, t) == clip_new(grid, polyline, t),
        forall|t: TileId|
            grid.box_of(t) is Some ==> (#[trigger] grid.slice_one_spec(polyline, t)) is Ok,
        forall|k: int|
            0 <= k < out.len() ==> (#[trigger] out[k].runs@.len()) >= 1 && runs_long(
                runs_view(out[k].runs@),
            ),
{
    let q = dedup(polyline);
    assert forall|t: TileId| #![trigger pending_runs(out, t)] #![trigger grid.slice_one_spec(polyline, t)]
        pending_runs(out, t) == clip_new(grid, polyline, t)
        && (grid.box_of(t) is Some ==> grid.slice_one_spec(polyline, t) is Ok) by {
        assert(grid.tile_state_ok(out, q, t, q.len() - 1));
        match grid.box_of(t) {
            None => {},
            Some((mn, mx)) => {
                let r = runs_upto(q, mn, mx, q.len() - 1);
                let o = grid.origin_of(mn);
                if r.len() == 0 {
                    assert(localized_runs(r, o) =~= Seq::<Seq<V>>::empty());
                }
            },
        }
    }
    assert forall|k: int| 0 <= k < out.len() implies (#[trigger] out[k].runs@.len()) >= 1
        && runs_long(runs_view(out[k].runs@)) by {
        let t = out[k].tile;
        assert(has_tile(out, t));
        assert(grid.tile_state_ok(out, q, t, q.len() - 1));
        let ki = tile_index(out, t);
        assert(ki == k);
        let (mn, mx) = grid.box_of(t).unwrap();
        let r = runs_upto(q, mn, mx, q.len() - 1);
        assert(runs_view(out[k].runs@).len() == localized_runs(r, grid.origin_of(mn)).len());
        lemma_slice_one_long(grid, polyline, t);
        assert(pending_runs(out, t) == runs_view(out[k].runs@));
    }
}

/// The features seen through a tile-ordered view agree with the storage.
proof fn lemma_view_features<V, A>(tiles: Seq<TileBuf<V>>, attrs: Seq<A>, t: TileId)
    requires
        tiles_wf(tiles, attrs.len() as int),
    ensures
        view_features(
            tiles.map_values(|tb: TileBuf<V>| (tb.tile, features_of(tb.features@, attrs))),
            t,
        ) == tile_features(tiles, attrs, t),
{
    let v = tiles.map_values(|tb: TileBuf<V>| (tb.tile, features_of(tb.features@, attrs)));
    if exists|k: int| 0 <= k < tiles.len() && tiles[k].tile == t {
        let k = choose|k: int| 0 <= k < tiles.len() && tiles[k].tile == t;
        assert(v[k].0 == t);
        assert(exists|kk: int| 0 <= kk < v.len() && v[kk].0 == t);
        let k2 = choose|kk: int| 0 <= kk < v.len() && v[kk].0 == t;
        assert(v[k2].0 == tiles[k2].tile);
        if k2 != k {
            if k2 < k {
                assert(tile_lt(tiles[k2].tile, tiles[k].tile));
            } else {
                assert(tile_lt(tiles[k].tile, tiles[k2].tile));
            }
        }
        assert(view_features(v, t) == v[k2].1);
        assert(tile_features(tiles, attrs, t) == features_of(tiles[k].features@, attrs));
    } else {
        assert forall|k: int| 0 <= k < v.len() implies v[k].0 != t by {
            assert(v[k].0 == tiles[k].tile);
        }
    }
}

/// Appending an attribute leaves the attributes of recorded features unchanged.
proof fn lemma_features_attr_push<V, A>(tiles: Seq<TileBuf<V>>, attrs: Seq<A>, a: A, t: TileId)
    requires
        tiles_wf(tiles, attrs.len() as int),
    ensures
        tiles_wf(tiles, (attrs.len() + 1) as int),
        tile_features(tiles, attrs.push(a), t) == tile_features(tiles, attrs, t),
{
    assert forall|i: int| #![trigger tiles[i]] 0 <= i < tiles.len() implies features_wf(
        tiles[i].features@,
        (attrs.len() + 1) as int,
    ) by {
        assert(features_wf(tiles[i].features@, attrs.len() as int));
        assert forall|j: int| #![trigger tiles[i].features@[j]] 0 <= j < tiles[i].features@.len() implies
            tiles[i].features@[j].runs@.len() >= 1 && runs_long(runs_view(tiles[i].features@[j].runs@))
            && tiles[i].features@[j].attr < attrs.len() + 1 by {
            assert(tiles[i].features@[j].attr < attrs.len());
        }
    }
    if exists|k: int| 0 <= k < tiles.len() && tiles[k].tile == t {
        let k = choose|k: int| 0 <= k < tiles.len() && tiles[k].tile == t;
        let fs = tiles[k].features@;
        assert(features_wf(fs, attrs.len() as int));
        assert(features_of(fs, attrs.push(a)) =~= features_of(fs, attrs)) by {
            assert forall|j: int| 0 <= j < fs.len() implies #[trigger] features_of(
                fs,
                attrs.push(a),
            )[j] == features_of(fs, attrs)[j] by {
                assert(fs[j].attr < attrs.len());
            }
        }
    }
}

/// Record one more feature (its `runs` and attribute index `attr`) in tile `t`, creating the tile
/// in its sorted place if needed.
fn commit_feature<V, A>(
    tiles: &mut Vec<TileBuf<V>>,
    t: TileId,
    runs: Vec<Vec<V>>,
    attr: usize,
    Ghost(attrs): Ghost<Seq<A>>,
)
    requires
        tiles_wf(old(tiles)@, attrs.len() as int),
        runs@.len() >= 1,
        runs_long(runs_view(runs@)),
        attr < attrs.len(),
    ensures
        tiles_wf(final(tiles)@, attrs.len() as int),
        forall|u: TileId|
            u != t ==> #[trigger] tile_features(final(tiles)@, attrs, u) == tile_features(
                old(tiles)@,
                attrs,
                u,
            ),
        tile_features(final(tiles)@, attrs, t) == tile_features(old(tiles)@, attrs, t).push(
            (runs_view(runs@), attrs[attr as int]),
        ),
{
    let ghost o = old(tiles)@;
    let ghost n = attrs.len() as int;
    let mut k: usize = 0;
    while k < tiles.len() && tiles[k].tile.precedes(&t)
        invariant
            tiles@ == o,
            k <= tiles@.len(),
            forall|j: int| 0 <= j < k ==> tile_lt(#[trigger] tiles@[j].tile, t),
        decreases tiles@.len() - k,
    {
        k = k + 1;
    }
    let ghost fr = FeatureBuf { runs, attr };
    let feature = FeatureBuf { runs, attr };
    if k < tiles.len() && tiles[k].tile.same_as(&t) {
        let mut tb = tiles.remove(k);
        let ghost old_fs = tb.features@;
        tb.features.push(feature);
        tiles.insert(k, tb);
        proof {
            let nt = tiles@;
            assert(o[k as int].tile == t);
            assert forall|i: int, j: int| 0 <= i < j < nt.len() implies tile_lt(
                nt[i].tile,
                nt[j].tile,
            ) by {
                assert(nt[i].tile == o[i].tile && nt[j].tile == o[j].tile);
            }
            assert forall|i: int| #![trigger nt[i]] 0 <= i < nt.len() implies (nt[i].features@.len()
                >= 1 && features_wf(nt[i].features@, n)) by {
                if i != k {
                    assert(nt[i] == o[i]);
                } else {
                    assert(features_wf(o[i].features@, n));
                    assert forall|j: int| #![trigger nt[i].features@[j]] 0 <= j
                        < nt[i].features@.len() implies nt[i].features@[j].runs@.len() >= 1
                        && runs_long(runs_view(nt[i].features@[j].runs@))
                        && nt[i].features@[j].attr < n by {
                        if j < old_fs.len() {
                            assert(nt[i].features@[j] == old_fs[j]);
                        }
                    }
                }
            }
            assert forall|u: TileId| #[trigger] tile_features(nt, attrs, u) == (if u == t {
                tile_features(o, attrs, t).push((runs_view(fr.runs@), attrs[attr as int]))
            } else {
                tile_features(o, attrs, u)
            }) by {
                lemma_unique_index(o, u, attrs);
                lemma_unique_index(nt, u, attrs);
                if exists|kk: int| 0 <= kk < o.len() && o[kk].tile == u {
                    let ko = choose|kk: int| 0 <= kk < o.len() && o[kk].tile == u;
                    assert(nt[ko].tile == u);
                    if u == t {
                        assert(ko == k);
                        assert(features_of(nt[ko].features@, attrs) =~= features_of(
                            old_fs,
                            attrs,
                        ).push((runs_view(fr.runs@), attrs[attr as int])));
                    } else {
                        assert(nt[ko] == o[ko]);
                    }
                } else {
                    assert(nt[k as int].tile == t);
                    assert(u != t);
                    assert forall|kk: int| 0 <= kk < nt.len() implies nt[kk].tile != u by {
                        assert(nt[kk].tile == o[kk].tile);
                    }
                }
            }
        }
    } else {
        let tb = TileBuf { tile: t, features: vec![feature] };
        tiles.insert(k, tb);
        proof {
            let nt = tiles@;
            assert(nt[k as int].tile == t);
            assert forall|i: int| 0 <= i < nt.len() && i != k implies #[trigger] nt[i] == (if i < k {
                o[i]
            } else {
                o[i - 1]
            }) by {}
            assert forall|i: int, j: int| 0 <= i < j < nt.len() implies tile_lt(
                nt[i].tile,
                nt[j].tile,
            ) by {
                if j == k {
                    assert(nt[i] == o[i]);
                } else if i == k {
                    assert(nt[j] == o[j - 1]);
                    if k < o.len() {
                        assert(!tile_lt(o[k as int].tile, t));
                        assert(o[k as int].tile != t);
                        if j - 1 > k {
                            assert(tile_lt(o[k as int].tile, o[j - 1].tile));
                        }
                    }
                } else if i < k {
                    if j < k {
                        assert(nt[i] == o[i] && nt[j] == o[j]);
                    } else {
                        assert(nt[i] == o[i] && nt[j] == o[j - 1]);
                    }
                } else {
                    assert(nt[i] == o[i - 1] && nt[j] == o[j - 1]);
                }
            }
            assert forall|i: int| #![trigger nt[i]] 0 <= i < nt.len() implies (nt[i].features@.len()
                >= 1 && features_wf(nt[i].features@, n)) by {
                if i == k {
                    assert(nt[i].features@ =~= seq![fr]);
                } else if i < k {
                    assert(nt[i] == o[i]);
                } else {
                    assert(nt[i] == o[i - 1]);
                }
            }
            assert forall|u: TileId| #[trigger] tile_features(nt, attrs, u) == (if u == t {
                tile_features(o, attrs, t).push((runs_view(fr.runs@), attrs[attr as int]))
            } else {
                tile_features(o, attrs, u)
            }) by {
                lemma_unique_index(o, u, attrs);
                lemma_unique_index(nt, u, attrs);
                if u == t {
                    assert forall|kk: int| 0 <= kk < o.len() implies o[kk].tile != t by {
                        if kk < k {
                            assert(tile_lt(o[kk].tile, t));
                        } else if kk > k {
                            assert(tile_lt(o[k as int].tile, o[kk].tile));
                            assert(!tile_lt(o[k as int].tile, t));
                        }
                    }
                    assert(features_of(nt[k as int].features@, attrs) =~= Seq::<(Seq<Seq<V>>, A)>::empty().push(
                        (runs_view(fr.runs@), attrs[attr as int]),
                    ));
                } else {
                    if exists|kk: int| 0 <= kk < o.len() && o[kk].tile == u {
                        let ko = choose|kk: int| 0 <= kk < o.len() && o[kk].tile == u;
                        let kn = if ko < k { ko } else { ko + 1 };
                        assert(nt[kn] == o[ko]);
                    } else {
                        assert forall|kk: int| 0 <= kk < nt.len() implies nt[kk].tile != u by {
                            if kk < k {
                                assert(nt[kk] == o[kk]);
                            } else if kk > k {
                                assert(nt[kk] == o[kk - 1]);
                            }
                        }
                    }
                }
            }
        }
    }
}

/// In sorted storage, the tile found by `choose` is the only one with that id.
proof fn lemma_unique_index<V, A>(tiles: Seq<TileBuf<V>>, t: TileId, attrs: Seq<A>)
    requires
        forall|i: int, j: int| 0 <= i < j < tiles.len() ==> tile_lt(tiles[i].tile, tiles[j].tile),
    ensures
        forall|k: int|
            0 <= k < tiles.len() && tiles[k].tile == t ==> tile_features(tiles, attrs, t)
                == features_of(#[trigger] tiles[k].features@, attrs),
{
    assert forall|k: int| 0 <= k < tiles.len() && tiles[k].tile == t implies tile_features(
        tiles,
        attrs,
        t,
    ) == features_of(#[trigger] tiles[k].features@, attrs) by {
        let k2 = choose|k: int| 0 <= k < tiles.len() && tiles[k].tile == t;
        if k2 < k {
            assert(tile_lt(tiles[k2].tile, tiles[k].tile));
        } else if k2 > k {
            assert(tile_lt(tiles[k].tile, tiles[k2].tile));
        }
    }
}

impl<V: Vertex, A> SlicerAll<V, A> {
    /// Add `polyline` as an independent feature carrying the attribute `attr`: slice it into every
    /// tile it touches, recording its runs there as a fresh feature (the attribute is shared by all
    /// of the feature's tile pieces). A tile the polyline does not reach is left as it was.
    ///
    /// Atomic: on error nothing is recorded. `PolylineTooLarge` for more than `u16::MAX + 1`
    /// vertices; otherwise it succeeds unless the polyline [spreads](Grid::spreads) over too many
    /// tiles (`TooManyTiles`) or [overflows](Grid::overflows) `i32` while routing (`Overflow`);
    /// when both happen, the error is that of the first failing segment
    /// ([`route_failure`](Grid::route_failure)).
    pub fn add_feature_with(&mut self, polyline: &[V], attr: A) -> (r: Result<(), TileError>)
        ensures
            final(self).wf(),
            final(self).grid() == old(self).grid(),
            polyline@.len() > MAX_INDEXED_LEN ==> r == Err::<(), TileError>(
                TileError::PolylineTooLarge,
            ),
            r is Ok <==> (polyline@.len() <= MAX_INDEXED_LEN && !old(self).grid().spreads(polyline@)
                && !old(self).grid().overflows(polyline@)),
            r == Err::<(), TileError>(TileError::TooManyTiles) ==> old(self).grid().spreads(polyline@),
            r == Err::<(), TileError>(TileError::Overflow) ==> old(self).grid().overflows(polyline@),
            polyline@.len() <= MAX_INDEXED_LEN ==> match old(self).grid().route_failure(polyline@) {
                Some(e) => r == Err::<(), TileError>(e),
                None => r is Ok,
            },
            match r {
                Ok(()) => {
                    &&& forall|t: TileId| #[trigger]
                        final(self).features_at(t) == with_feature(
                            old(self).features_at(t),
                            clip_new(old(self).grid(), polyline@, t),
                            attr,
                        )
                    &&& forall|t: TileId|
                        old(self).grid().box_of(t) is Some ==> (#[trigger] old(
                            self,
                        ).grid().slice_one_spec(polyline@, t)) is Ok
                },
                Err(e) => {
                    &&& final(self).tiles_view() == old(self).tiles_view()
                    &&& (e == TileError::TooManyTiles || e == TileError::Overflow || (e
                        == TileError::PolylineTooLarge && polyline@.len() > MAX_INDEXED_LEN))
                },
            },
    {
        proof {
            use_type_invariant(&*self);
        }
        let grid = self.grid;
        let out = match grid.route(polyline) {
            Ok(out) => out,
            Err(e) => return Err(e),
        };
        proof {
            lemma_routed_clip(grid, out@, polyline@);
        }
        let ghost tiles0 = self.tiles@;
        let ghost attrs0 = self.attrs@;
        let ghost out0 = out@;
        let mut tiles: Vec<TileBuf<V>> = Vec::new();
        std::mem::swap(&mut tiles, &mut self.tiles);
        let mut attrs: Vec<A> = Vec::new();
        std::mem::swap(&mut attrs, &mut self.attrs);
        let idx = attrs.len();
        attrs.push(attr);
        let ghost attrs1 = attrs@;
        proof {
            assert(attrs1 == attrs0.push(attr));
            assert forall|t: TileId| #[trigger] tile_features(tiles0, attrs1, t) == tile_features(
                tiles0,
                attrs0,
                t,
            ) by {
                lemma_features_attr_push(tiles0, attrs0, attr, t);
            }
            lemma_features_attr_push(tiles0, attrs0, attr, TileId { x: 0, y: 0 });
        }
        let mut out = out;
        while out.len() > 0
            invariant
                self.grid == grid,
                attrs@ == attrs1,
                idx == attrs0.len(),
                attrs1.len() == attrs0.len() + 1,
                attrs1[idx as int] == attr,
                tiles_wf(tiles@, attrs1.len() as int),
                out@ == out0.take(out@.len() as int),
                out@.len() <= out0.len(),
                distinct_tiles(out0),
                forall|k: int|
                    0 <= k < out0.len() ==> (#[trigger] out0[k].runs@.len()) >= 1 && runs_long(
                        runs_view(out0[k].runs@),
                    ),
                forall|t: TileId| #[trigger]
                    tile_features(tiles@, attrs1, t) == (if has_tile(out@, t) {
                        tile_features(tiles0, attrs1, t)
                    } else {
                        with_feature(tile_features(tiles0, attrs1, t), pending_runs(out0, t), attr)
                    }),
            decreases out@.len(),
        {
            let ghost before = tiles@;
            let ghost ob = out@;
            let n = out.len();
            let e = out.pop().unwrap();
            proof {
                assert(e == out0[n - 1]);
                assert(e.runs@.len() >= 1);
                assert(out@ =~= out0.take(n - 1));
            }
            let ghost t = e.tile;
            let ghost rv = runs_view(e.runs@);
            commit_feature::<V, A>(&mut tiles, e.tile, e.runs, idx, Ghost(attrs1));
            proof {
                assert(has_tile(ob, t)) by {
                    assert(ob[n - 1].tile == t);
                }
                assert(!has_tile(out@, t)) by {
                    assert forall|k: int| 0 <= k < out@.len() implies out@[k].tile != t by {
                        assert(out@[k] == out0[k]);
                        assert(out0[n - 1].tile == t);
                    }
                }
                assert(pending_runs(out0, t) == rv) by {
                    assert(out0[n - 1].tile == t);
                    let ki = tile_index(out0, t);
                    assert(ki == n - 1);
                }
                assert forall|u: TileId| #[trigger] tile_features(tiles@, attrs1, u) == (if has_tile(
                    out@,
                    u,
                ) {
                    tile_features(tiles0, attrs1, u)
                } else {
                    with_feature(tile_features(tiles0, attrs1, u), pending_runs(out0, u), attr)
                }) by {
                    if u != t {
                        assert(tile_features(tiles@, attrs1, u) == tile_features(
                            before,
                            attrs1,
                            u,
                        ));
                        if has_tile(ob, u) {
                            let k = choose|k: int| 0 <= k < ob.len() && ob[k].tile == u;
                            assert(k != n - 1);
                            assert(out@[k] == ob[k]);
                        }
                        if has_tile(out@, u) {
                            let k = choose|k: int| 0 <= k < out@.len() && out@[k].tile == u;
                            assert(ob[k] == out@[k]);
                        }
                    } else {
                        assert(tile_features(before, attrs1, t) == tile_features(tiles0, attrs1, t));
                    }
                }
            }
        }
        self.attrs = attrs;
        self.tiles = tiles;
        proof {
            assert forall|t: TileId| #[trigger] self.features_at(t) == with_feature(
                old(self).features_at(t),
                clip_new(grid, polyline@, t),
                attr,
            ) by {
                lemma_view_features(self.tiles@, attrs1, t);
                lemma_view_features(tiles0, attrs0, t);
                assert(!has_tile(out@, t));
            }
        }
        Ok(())
    }
}

impl<V: Vertex> SlicerAll<V, ()> {
    /// Add `polyline` as an independent feature with no attribute (see
    /// [`add_feature_with`](Self::add_feature_with)).
    pub fn add_feature(&mut self, polyline: &[V]) -> (r: Result<(), TileError>)
        ensures
            final(self).wf(),
            final(self).grid() == old(self).grid(),
            polyline@.len() > MAX_INDEXED_LEN ==> r == Err::<(), TileError>(
                TileError::PolylineTooLarge,
            ),
            r is Ok <==> (polyline@.len() <= MAX_INDEXED_LEN && !old(self).grid().spreads(polyline@)
                && !old(self).grid().overflows(polyline@)),
            r == Err::<(), TileError>(TileError::TooManyTiles) ==> old(self).grid().spreads(polyline@),
            r == Err::<(), TileError>(TileError::Overflow) ==> old(self).grid().overflows(polyline@),
            polyline@.len() <= MAX_INDEXED_LEN ==> match old(self).grid().route_failure(polyline@) {
                Some(e) => r == Err::<(), TileError>(e),
                None => r is Ok,
            },
            match r {
                Ok(()) => {
                    &&& forall|t: TileId| #[trigger]
                        final(self).features_at(t) == with_feature(
                            old(self).features_at(t),
                            clip_new(old(self).grid(), polyline@, t),
                            (),
                        )
                    &&& forall|t: TileId|
                        old(self).grid().box_of(t) is Some ==> (#[trigger] old(
                            self,
                        ).grid().slice_one_spec(polyline@, t)) is Ok
                },
                Err(e) => {
                    &&& final(self).tiles_view() == old(self).tiles_view()
                    &&& (e == TileError::TooManyTiles || e == TileError::Overflow || (e
                        == TileError::PolylineTooLarge && polyline@.len() > MAX_INDEXED_LEN))
                },
            },
    {
        proof {
            use_type_invariant(&*self);
        }
        self.add_feature_with(polyline, ())
    }
}

/// All the runs of a tile's features, feature after feature.
pub open spec fn feature_runs<V, A>(fs: Seq<(Seq<Seq<V>>, A)>) -> Seq<Seq<V>>
    decreases fs.len(),
{
    if fs.len() == 0 {
        Seq::empty()
    } else {
        feature_runs(fs.drop_last()) + fs.last().0
    }
}

/// Whether [`SlicerAll::add_feature`] records `polyline` on `grid`; otherwise it fails and records
/// nothing.
pub open spec fn add_succeeds<V: Vertex>(grid: Grid, polyline: Seq<V>) -> bool {
    polyline.len() <= MAX_INDEXED_LEN && !grid.spreads(polyline) && !grid.overflows(polyline)
}

/// What tile `t` holds once the polylines `ps` have been handed in order to
/// [`SlicerAll::add_feature`] on `grid`, starting from nothing: each one that is recorded adds its
/// runs in `t` as one more feature there, and one that fails changes nothing.
pub open spec fn history<V: Vertex>(grid: Grid, ps: Seq<Seq<V>>, t: TileId) -> Seq<
    (Seq<Seq<V>>, ()),
>
    decreases ps.len(),
{
    if ps.len() == 0 {
        Seq::empty()
    } else {
        let before = history(grid, ps.drop_last(), t);
        if add_succeeds(grid, ps.last()) {
            with_feature(before, clip_new(grid, ps.last(), t), ())
        } else {
            before
        }
    }
}

/// A slicer holding nothing, fresh from [`SlicerAll::new`] or just [cleared](SlicerAll::clear),
/// holds in every tile the history of no additions; and the history of `ps` followed by `p`
/// extends that of `ps` exactly as [`SlicerAll::add_feature`] extends a slicer's features: by
/// `p`'s runs in the tile when the addition succeeds, not at all when it fails. So a cleared
/// slicer goes on as a fresh one on the same grid.
pub proof fn law_history_starts_empty<V: Vertex>(s: SlicerAll<V, ()>, ps: Seq<Seq<V>>, p: Seq<V>)
    requires
        s.wf(),
        s.tiles_view().len() == 0,
    ensures
        forall|t: TileId| #[trigger] s.features_at(t) == history(s.grid(), Seq::<Seq<V>>::empty(), t),
        forall|t: TileId|
            #[trigger] history(s.grid(), ps.push(p), t) == (if add_succeeds(s.grid(), p) {
                with_feature(history(s.grid(), ps, t), clip_new(s.grid(), p, t), ())
            } else {
                history(s.grid(), ps, t)
            }),
{
    assert forall|t: TileId| #[trigger] history(s.grid(), ps.push(p), t) == (if add_succeeds(
        s.grid(),
        p,
    ) {
        with_feature(history(s.grid(), ps, t), clip_new(s.grid(), p, t), ())
    } else {
        history(s.grid(), ps, t)
    }) by {
        assert(ps.push(p).drop_last() =~= ps);
    }
}

/// A failed addition leaves no trace: what a tile holds after a sequence of additions is what it
/// holds after only those of them that succeeded.
pub proof fn law_failed_adds_leave_no_trace<V: Vertex>(grid: Grid, ps: Seq<Seq<V>>, t: TileId)
    ensures
        history(grid, ps, t) == history(grid, ps.filter(|p: Seq<V>| add_succeeds(grid, p)), t),
    decreases ps.len(),
{
    reveal(Seq::filter);
    let f = |p: Seq<V>| add_succeeds(grid, p);
    if ps.len() > 0 {
        let rest = ps.drop_last();
        law_failed_adds_leave_no_trace(grid, rest, t);
        let fr = rest.filter(f);
        assert(ps.filter(f) == (if f(ps.last()) {
            fr.push(ps.last())
        } else {
            fr
        }));
        if f(ps.last()) {
            assert(fr.push(ps.last()).drop_last() =~= fr);
        }
    }
}

/// Slices integer polylines into pieces for **one fixed tile**, accumulating only that tile.
///
/// The single-tile counterpart to [`SlicerAll`]: each polyline is clipped only to this slicer's
/// [`tile`](Self::tile), and it yields exactly what [`SlicerAll`] yields for that tile. Because
/// there is a single tile, the read API skips the tile level.
pub struct SlicerOne<V: Vertex = Coord, A = ()> {
    grid: Grid,
    tile: TileId,
    features: Vec<FeatureBuf<V>>,
    attrs: Vec<A>,
}

impl<V: Vertex, A> SlicerOne<V, A> {
    /// The accumulator's invariant: a valid grid and well-formed features.
    #[verifier::type_invariant]
    pub closed spec fn wf(&self) -> bool {
        &&& self.grid.wf()
        &&& features_wf(self.features@, self.attrs@.len() as int)
    }

    /// The tile geometry this slicer clips against.
    pub closed spec fn grid(&self) -> Grid {
        self.grid
    }

    /// The tile this slicer clips into.
    pub closed spec fn tile_spec(&self) -> TileId {
        self.tile
    }

    /// The recorded features in insertion order, each with its runs and attribute.
    pub closed spec fn features_view(&self) -> Seq<(Seq<Seq<V>>, A)> {
        features_of(self.features@, self.attrs@)
    }

    /// A well-formed accumulator records each feature with at least one run, and every run with
    /// at least two vertices.
    pub proof fn lemma_view_long(&self)
        requires
            self.wf(),
        ensures
            forall|j: int|
                0 <= j < self.features_view().len() ==> #[trigger] self.features_view()[j].0.len()
                    >= 1 && runs_long(self.features_view()[j].0),
    {
        assert forall|j: int| 0 <= j < self.features_view().len() implies #[trigger] self.features_view()[j].0.len()
            >= 1 && runs_long(self.features_view()[j].0) by {
            assert(self.features@[j].runs@.len() >= 1);
            assert(self.features_view()[j].0 == runs_view(self.features@[j].runs@));
        }
    }

    /// Create a slicer bound to `tile`, with the given tile side / per-tile output resolution
    /// `extent` and `buffer` (see [`SlicerAll::new`] for the coordinate model).
    pub fn new(extent: u32, buffer: u16, tile: TileId) -> (r: Result<Self, TileError>)
        ensures
            (extent == 0 || extent > i32::MAX) ==> r is Err && r->Err_0 == TileError::InvalidExtent,
            (1 <= extent <= i32::MAX && 2 * buffer >= extent) ==> r is Err && r->Err_0
                == TileError::BufferTooLarge,
            (1 <= extent <= i32::MAX && 2 * buffer < extent) ==> (r matches Ok(s) && s.wf()
                && s.grid().extent == extent && s.grid().buffer == buffer && s.tile_spec() == tile
                && s.features_view().len() == 0),
    {
        let grid = Grid::new(extent, buffer)?;
        let s = SlicerOne { grid, tile, features: Vec::new(), attrs: Vec::new() };
        assert(s.features_view() =~= Seq::<(Seq<Seq<V>>, A)>::empty());
        Ok(s)
    }

    /// The tile side / per-tile output resolution: kept vertices land in `0..extent`.
    pub fn extent(&self) -> (r: u32)
        ensures
            r == self.grid().extent,
    {
        proof {
            use_type_invariant(self);
        }
        self.grid.extent()
    }

    /// The buffer kept around the tile, in tile-space units.
    pub fn buffer(&self) -> (r: u16)
        ensures
            r == self.grid().buffer,
    {
        proof {
            use_type_invariant(self);
        }
        self.grid.buffer()
    }

    /// The tile this slicer clips into.
    pub fn tile(&self) -> (r: TileId)
        ensures
            r == self.tile_spec(),
    {
        self.tile
    }

    /// Add `polyline` as an independent feature carrying `attr`, clipped to this slicer's tile. A
    /// feature is recorded only if something of `polyline` lands in the tile.
    ///
    /// Atomic: on error nothing is recorded. `Overflow` if the tile's box or a kept vertex
    /// overflows `i32`.
    pub fn add_feature_with(&mut self, polyline: &[V], attr: A) -> (r: Result<(), TileError>)
        ensures
            final(self).wf(),
            final(self).grid() == old(self).grid(),
            final(self).tile_spec() == old(self).tile_spec(),
            match old(self).grid().slice_one_spec(polyline@, old(self).tile_spec()) {
                Ok(runs) => r is Ok && final(self).features_view() == with_feature(
                    old(self).features_view(),
                    runs,
                    attr,
                ),
                Err(e) => r == Err::<(), TileError>(e) && final(self).features_view() == old(
                    self,
                ).features_view(),
            },
    {
        proof {
            use_type_invariant(&*self);
        }
        let runs = match self.grid.slice_one(polyline, self.tile) {
            Ok(runs) => runs,
            Err(e) => return Err(e),
        };
        if runs.len() > 0 {
            let ghost fs0 = self.features@;
            let ghost attrs0 = self.attrs@;
            let ghost rv = runs_view(runs@);
            let mut features: Vec<FeatureBuf<V>> = Vec::new();
            std::mem::swap(&mut features, &mut self.features);
            let mut attrs: Vec<A> = Vec::new();
            std::mem::swap(&mut attrs, &mut self.attrs);
            let idx = attrs.len();
            attrs.push(attr);
            features.push(FeatureBuf { runs, attr: idx });
            proof {
                let fs1 = features@;
                let attrs1 = attrs@;
                lemma_slice_one_long(self.grid, polyline@, self.tile);
                assert forall|j: int| #![trigger fs1[j]] 0 <= j < fs1.len() implies fs1[j].runs@.len()
                    >= 1 && runs_long(runs_view(fs1[j].runs@)) && fs1[j].attr < attrs1.len() by {
                    if j < fs0.len() {
                        assert(fs1[j] == fs0[j]);
                    }
                }
                assert(features_of(fs1, attrs1) =~= features_of(fs0, attrs0).push((rv, attr))) by {
                    assert forall|j: int| 0 <= j < fs0.len() implies #[trigger] features_of(
                        fs1,
                        attrs1,
                    )[j] == features_of(fs0, attrs0)[j] by {
                        assert(fs1[j] == fs0[j]);
                        assert(fs0[j].attr < attrs0.len());
                    }
                }
            }
            self.attrs = attrs;
            self.features = features;
        }
        Ok(())
    }

    /// This tile's features, in the order they were added.
    pub fn iter_features(&self) -> (r: Vec<FeatureView<'_, V, A>>)
        ensures
            r@.len() == self.features_view().len(),
            forall|i: int| 0 <= i < r@.len() ==> #[trigger] r@[i].view() == self.features_view()[i],
    {
        proof {
            use_type_invariant(self);
        }
        feature_views(self.features.as_slice(), self.attrs.as_slice())
    }

    /// Number of features accumulated for the tile.
    pub fn len(&self) -> (r: usize)
        ensures
            r == self.features_view().len(),
    {
        self.features.len()
    }

    /// Whether nothing has been accumulated yet.
    pub fn is_empty(&self) -> (r: bool)
        ensures
            r == (self.features_view().len() == 0),
    {
        self.features.len() == 0
    }

    /// Discard everything accumulated so far, keeping the extent/buffer/tile config.
    pub fn clear(&mut self)
        ensures
            final(self).wf(),
            final(self).grid() == old(self).grid(),
            final(self).tile_spec() == old(self).tile_spec(),
            final(self).features_view().len() == 0,
    {
        proof {
            use_type_invariant(&*self);
        }
        self.features = Vec::new();
        self.attrs = Vec::new();
    }
}

impl<V: Vertex> SlicerOne<V, ()> {
    /// Add `polyline` as an independent feature with no attribute (see
    /// [`add_feature_with`](Self::add_feature_with)).
    pub fn add_feature(&mut self, polyline: &[V]) -> (r: Result<(), TileError>)
        ensures
            final(self).wf(),
            final(self).grid() == old(self).grid(),
            final(self).tile_spec() == old(self).tile_spec(),
            match old(self).grid().slice_one_spec(polyline@, old(self).tile_spec()) {
                Ok(runs) => r is Ok && final(self).features_view() == with_feature(
                    old(self).features_view(),
                    runs,
                    (),
                ),
                Err(e) => r == Err::<(), TileError>(e) && final(self).features_view() == old(
                    self,
                ).features_view(),
            },
    {
        proof {
            use_type_invariant(&*self);
        }
        self.add_feature_with(polyline, ())
    }
}

/// A single-tile slicer yields exactly what the all-tiles slicer yields for its tile: whenever
/// [`SlicerAll::add_feature_with`] accepts a polyline (taking `all0` to `all1`), a [`SlicerOne`]
/// for any representable tile that so far agrees with `all0` on that tile accepts the same
/// polyline and attribute, and afterwards agrees with `all1` on that tile.
pub proof fn law_slicer_one_matches_all<V: Vertex, A>(
    all0: SlicerAll<V, A>,
    all1: SlicerAll<V, A>,
    one: SlicerOne<V, A>,
    polyline: Seq<V>,
    attr: A,
)
    requires
        all0.wf(),
        one.wf(),
        forall|t: TileId| #[trigger]
            all1.features_at(t) == with_feature(
                all0.features_at(t),
                clip_new(all0.grid(), polyline, t),
                attr,
            ),
        forall|t: TileId|
            all0.grid().box_of(t) is Some ==> (#[trigger] all0.grid().slice_one_spec(polyline, t)) is Ok,
        one.grid() == all0.grid(),
        one.grid().box_of(one.tile_spec()) is Some,
        one.features_view() == all0.features_at(one.tile_spec()),
    ensures
        match one.grid().slice_one_spec(polyline, one.tile_spec()) {
            Ok(runs) => with_feature(one.features_view(), runs, attr) == all1.features_at(
                one.tile_spec(),
            ),
            Err(_) => false,
        },
{
    let t = one.tile_spec();
    assert(all1.features_at(t) == with_feature(
        all0.features_at(t),
        clip_new(all0.grid(), polyline, t),
        attr,
    ));
    assert(all0.grid().slice_one_spec(polyline, t) is Ok);
}

/// A tile's runs, features in order and each feature's runs in order.
pub open spec fn flat_runs<V, A>(fs: Seq<(Seq<Seq<V>>, A)>) -> Seq<Seq<V>>
    decreases fs.len(),
{
    if fs.len() == 0 {
        Seq::empty()
    } else {
        flat_runs(fs.drop_last()) + fs.last().0
    }
}

/// Adding a feature appends exactly its clip to each tile's runs (nothing when it misses the tile).
pub proof fn law_add_appends_clip<V, A>(before: Seq<(Seq<Seq<V>>, A)>, runs: Seq<Seq<V>>, attr: A)
    ensures
        flat_runs(with_feature(before, runs, attr)) == flat_runs(before) + runs,
{
    if runs.len() > 0 {
        assert(before.push((runs, attr)).drop_last() =~= before);
    } else {
        assert(flat_runs(before) + runs =~= flat_runs(before));
    }
}

} // verus!
