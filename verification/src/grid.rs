//! The stateless slicing engine shared by [`SlicerAll`](crate::SlicerAll) and
//! [`SlicerOne`](crate::SlicerOne).
//!
//! [`Grid`] holds only the tile geometry (extent + buffer) and knows how to clip one polyline into a
//! single tile ([`Grid::slice_one`]) or route it into every tile it touches ([`Grid::route`]). It
//! keeps no accumulated state; the public slicers layer feature accumulation on top of it.

use vstd::prelude::*;

use crate::clip_polyline::{
    corners_left, in_box, law_touches_is_contact, local_of, segment_intersects, to_local, touches,
};
use crate::error::TileError;
use crate::tile::{tile_of, tile_of_spec, TileId};
use crate::vertex::{Coord, Vertex};

verus! {

/// `v` fits `i32`.
pub open spec fn fits(v: int) -> bool {
    i32::MIN <= v <= i32::MAX
}

/// The closed buffered box `[min, max]` of `tile` (its cell `[t·e, t·e + e − 1]` grown by `b` on
/// every side), or `None` when any of its coordinates leaves the `i32` range.
pub open spec fn buffered_box(e: int, b: int, tile: TileId) -> Option<(Coord, Coord)> {
    let bx = tile.x * e;
    let by = tile.y * e;
    let reach = e - 1 + b;
    if fits(bx) && fits(by) && fits(reach) && fits(bx - b) && fits(by - b) && fits(bx + reach)
        && fits(by + reach) {
        Some(
            (
                Coord { x: (bx - b) as i32, y: (by - b) as i32 },
                Coord { x: (bx + reach) as i32, y: (by + reach) as i32 },
            ),
        )
    } else {
        None
    }
}

/// `p` with consecutive vertices at the same position collapsed to the first of each group.
pub open spec fn dedup<V: Vertex>(p: Seq<V>) -> Seq<V>
    decreases p.len(),
{
    if p.len() == 0 {
        Seq::empty()
    } else {
        let d = dedup(p.drop_last());
        if d.len() > 0 && d.last().pos() == p.last().pos() {
            d
        } else {
            d.push(p.last())
        }
    }
}

/// Segment `i` (from `q[i]` to `q[i + 1]`) touches the box `[min, max]`.
pub open spec fn seg_hit<V: Vertex>(q: Seq<V>, min: Coord, max: Coord, i: int) -> bool {
    touches(q[i].pos(), q[i + 1].pos(), min, max)
}

/// The runs kept by clipping the first `n` segments of `q` to `[min, max]`. A vertex is kept when
/// a segment next to it touches the box, and a run is a maximal stretch of consecutive kept
/// vertices: it breaks only where a vertex is dropped, so a single segment that misses the box
/// between two touching ones still joins them into one run.
pub open spec fn runs_upto<V: Vertex>(q: Seq<V>, min: Coord, max: Coord, n: int) -> Seq<Seq<V>>
    decreases n,
{
    if n <= 0 {
        Seq::empty()
    } else if !seg_hit(q, min, max, n - 1) {
        runs_upto(q, min, max, n - 1)
    } else if n >= 2 && seg_hit(q, min, max, n - 2) {
        let r = runs_upto(q, min, max, n - 1);
        r.update(r.len() - 1, r.last().push(q[n]))
    } else if n >= 3 && seg_hit(q, min, max, n - 3) {
        let r = runs_upto(q, min, max, n - 1);
        r.update(r.len() - 1, r.last().push(q[n - 1]).push(q[n]))
    } else {
        runs_upto(q, min, max, n - 1).push(seq![q[n - 1], q[n]])
    }
}

/// The runs of a whole (deduplicated) polyline `q` clipped to `[min, max]`.
pub open spec fn clip_runs<V: Vertex>(q: Seq<V>, min: Coord, max: Coord) -> Seq<Seq<V>> {
    runs_upto(q, min, max, q.len() - 1)
}

/// Vertex `v` moved into the frame with origin `o` (meaningful when `local_of` succeeds).
pub open spec fn loc<V: Vertex>(v: V, o: Coord) -> V {
    v.moved_to(local_of(v.pos(), o).unwrap())
}

/// Every vertex of `runs` can be expressed in the frame with origin `o` without overflow.
pub open spec fn all_local<V: Vertex>(runs: Seq<Seq<V>>, o: Coord) -> bool {
    forall|i: int, j: int|
        0 <= i < runs.len() && 0 <= j < runs[i].len() ==> (#[trigger] local_of(
            runs[i][j].pos(),
            o,
        )) is Some
}

/// `runs` with every vertex moved into the frame with origin `o`.
pub open spec fn localized_runs<V: Vertex>(runs: Seq<Seq<V>>, o: Coord) -> Seq<Seq<V>> {
    runs.map_values(|run: Seq<V>| run.map_values(|v: V| loc(v, o)))
}

/// What clipping `polyline` to the tile with box `[min, max]` and origin `o` yields: its localized
/// runs, or `Overflow` when some kept vertex cannot be localized.
pub open spec fn clipped_local<V: Vertex>(polyline: Seq<V>, min: Coord, max: Coord, o: Coord) -> Result<
    Seq<Seq<V>>,
    TileError,
> {
    let runs = clip_runs(dedup(polyline), min, max);
    if all_local(runs, o) {
        Ok(localized_runs(runs, o))
    } else {
        Err(TileError::Overflow)
    }
}

/// The nested vectors' contents.
pub open spec fn runs_view<V>(runs: Seq<Vec<V>>) -> Seq<Seq<V>> {
    runs.map_values(|run: Vec<V>| run@)
}

/// The tile geometry a slicer clips against: the tile side (`extent`) and a `buffer`, plus the
/// clipping engine.
///
/// Integers in pre-scaled tile space: `x` belongs to tile `x.div_euclid(extent)` and is emitted at
/// `x − tile·extent ∈ [0, extent)`; each clip box grows `buffer` on every side.
#[derive(Debug, Clone, Copy, PartialEq, Eq)]
pub struct Grid {
    /// Tile side length in tile space (always in `1..=i32::MAX`).
    pub extent: i32,
    /// Margin kept around every tile (always in `0..=u16::MAX`, less than half the extent).
    pub buffer: i32,
}

impl Grid {
    /// The configuration invariant established by [`Grid::new`].
    pub open spec fn wf(self) -> bool {
        &&& 1 <= self.extent
        &&& 0 <= self.buffer <= u16::MAX
        &&& 2 * self.buffer < self.extent
    }

    /// The buffered box of `tile` under this grid.
    pub open spec fn box_of(self, tile: TileId) -> Option<(Coord, Coord)> {
        buffered_box(self.extent as int, self.buffer as int, tile)
    }

    /// The low corner of `tile`'s buffered box (meaningful when it exists).
    pub open spec fn box_lo(self, tile: TileId) -> Coord {
        self.box_of(tile).unwrap().0
    }

    /// The high corner of `tile`'s buffered box (meaningful when it exists).
    pub open spec fn box_hi(self, tile: TileId) -> Coord {
        self.box_of(tile).unwrap().1
    }

    /// What [`Grid::slice_one`] yields for `polyline` and `tile`.
    pub open spec fn slice_one_spec<V: Vertex>(self, polyline: Seq<V>, tile: TileId) -> Result<
        Seq<Seq<V>>,
        TileError,
    > {
        match self.box_of(tile) {
            None => Err(TileError::Overflow),
            Some((min, max)) => clipped_local(
                polyline,
                min,
                max,
                Coord { x: (min.x + self.buffer) as i32, y: (min.y + self.buffer) as i32 },
            ),
        }
    }

    /// Create a grid with the given tile side / output resolution `extent` and `buffer`.
    ///
    /// `InvalidExtent` if `extent` is `0` or greater than `i32::MAX`; `BufferTooLarge` if
    /// `2 * buffer >= extent`.
    pub fn new(extent: u32, buffer: u16) -> (r: Result<Self, TileError>)
        ensures
            (extent == 0 || extent > i32::MAX) ==> r == Err::<Self, TileError>(
                TileError::InvalidExtent,
            ),
            (1 <= extent <= i32::MAX && 2 * buffer >= extent) ==> r == Err::<Self, TileError>(
                TileError::BufferTooLarge,
            ),
            (1 <= extent <= i32::MAX && 2 * buffer < extent) ==> (r matches Ok(g) && g.wf()
                && g.extent == extent && g.buffer == buffer),
    {
        if extent == 0 || extent > i32::MAX as u32 {
            return Err(TileError::InvalidExtent);
        }
        if 2 * (buffer as u32) >= extent {
            return Err(TileError::BufferTooLarge);
        }
        Ok(Grid { extent: extent as i32, buffer: buffer as i32 })
    }

    /// The tile side length / per-tile output resolution.
    pub fn extent(self) -> (r: u32)
        requires
            self.wf(),
        ensures
            r == self.extent,
    {
        self.extent as u32
    }

    /// The buffer kept around every tile, in tile-space units.
    pub fn buffer(self) -> (r: u16)
        requires
            self.wf(),
        ensures
            r == self.buffer,
    {
        self.buffer as u16
    }

    /// The closed integer bounds `(min, max)` of `tile`'s clip box, grown by `buffer` on each side.
    /// `Overflow` means the tile lies outside the representable range for this `extent`.
    pub fn tile_buffered_bounds(self, tile: TileId) -> (r: Result<(Coord, Coord), TileError>)
        requires
            self.wf(),
        ensures
            r == (match self.box_of(tile) {
                Some(bx) => Ok::<(Coord, Coord), TileError>(bx),
                None => Err(TileError::Overflow),
            }),
    {
        let base_x = match tile.x.checked_mul(self.extent) {
            Some(v) => v,
            None => return Err(TileError::Overflow),
        };
        let base_y = match tile.y.checked_mul(self.extent) {
            Some(v) => v,
            None => return Err(TileError::Overflow),
        };
        let reach = match (self.extent - 1).checked_add(self.buffer) {
            Some(v) => v,
            None => return Err(TileError::Overflow),
        };
        let min_x = match base_x.checked_sub(self.buffer) {
            Some(v) => v,
            None => return Err(TileError::Overflow),
        };
        let min_y = match base_y.checked_sub(self.buffer) {
            Some(v) => v,
            None => return Err(TileError::Overflow),
        };
        let max_x = match base_x.checked_add(reach) {
            Some(v) => v,
            None => return Err(TileError::Overflow),
        };
        let max_y = match base_y.checked_add(reach) {
            Some(v) => v,
            None => return Err(TileError::Overflow),
        };
        Ok((Coord { x: min_x, y: min_y }, Coord { x: max_x, y: max_y }))
    }
}

/// Clipping only reads the vertices up to the last segment considered, so appending a vertex does
/// not change the runs of the existing segments.
pub proof fn lemma_runs_upto_push<V: Vertex>(q: Seq<V>, c: V, min: Coord, max: Coord, n: int)
    requires
        n <= q.len() - 1,
    ensures
        runs_upto(q.push(c), min, max, n) == runs_upto(q, min, max, n),
    decreases n,
{
    if n > 0 {
        lemma_runs_upto_push(q, c, min, max, n - 1);
        assert(q.push(c)[n] == q[n]);
        assert(q.push(c)[n - 1] == q[n - 1]);
        if n >= 2 {
            assert(q.push(c)[n - 2] == q[n - 2]);
        }
        if n >= 3 {
            assert(q.push(c)[n - 3] == q[n - 3]);
        }
    }
}

/// Every run kept from the first `n` segments holds at least two vertices.
pub proof fn lemma_runs_upto_long<V: Vertex>(q: Seq<V>, min: Coord, max: Coord, n: int)
    requires
        n <= q.len() - 1,
    ensures
        forall|x: int|
            0 <= x < runs_upto(q, min, max, n).len() ==> #[trigger] runs_upto(q, min, max, n)[x].len()
                >= 2,
    decreases n,
{
    if n > 0 {
        lemma_runs_upto_long(q, min, max, n - 1);
        if seg_hit(q, min, max, n - 1) && n >= 2 && seg_hit(q, min, max, n - 2) {
            lemma_runs_upto_last(q, min, max, n - 1);
        } else if seg_hit(q, min, max, n - 1) && n >= 3 && seg_hit(q, min, max, n - 3) {
            lemma_runs_upto_last(q, min, max, n - 2);
            assert(runs_upto(q, min, max, n - 1) == runs_upto(q, min, max, n - 2));
        }
    }
}

/// Every run holds at least two vertices.
pub open spec fn runs_long<V>(runs: Seq<Seq<V>>) -> bool {
    forall|x: int| 0 <= x < runs.len() ==> #[trigger] runs[x].len() >= 2
}

/// Every run a single-tile clip yields holds at least two vertices.
pub proof fn lemma_clipped_local_long<V: Vertex>(polyline: Seq<V>, min: Coord, max: Coord, o: Coord)
    ensures
        clipped_local(polyline, min, max, o) matches Ok(runs) ==> runs_long(runs),
{
    let q = dedup(polyline);
    lemma_runs_upto_long(q, min, max, q.len() - 1);
}

/// Every run [`Grid::slice_one`] yields holds at least two vertices.
pub proof fn lemma_slice_one_long<V: Vertex>(grid: Grid, polyline: Seq<V>, t: TileId)
    ensures
        grid.slice_one_spec(polyline, t) matches Ok(runs) ==> runs_long(runs),
{
    if let Some((min, max)) = grid.box_of(t) {
        lemma_clipped_local_long(
            polyline,
            min,
            max,
            Coord { x: (min.x + grid.buffer) as i32, y: (min.y + grid.buffer) as i32 },
        );
    }
}

/// A touching last segment leaves at least one run, ending at that segment's far vertex.
pub proof fn lemma_runs_upto_last<V: Vertex>(q: Seq<V>, min: Coord, max: Coord, n: int)
    requires
        1 <= n <= q.len() - 1,
        seg_hit(q, min, max, n - 1),
    ensures
        runs_upto(q, min, max, n).len() >= 1,
        runs_upto(q, min, max, n).last().len() >= 2,
        runs_upto(q, min, max, n).last().last() == q[n],
    decreases n,
{
    if n >= 2 && seg_hit(q, min, max, n - 2) {
        lemma_runs_upto_last(q, min, max, n - 1);
    } else if n >= 3 && seg_hit(q, min, max, n - 3) {
        lemma_runs_upto_last(q, min, max, n - 2);
        assert(runs_upto(q, min, max, n - 1) == runs_upto(q, min, max, n - 2));
    }
}

/// Extending the last run by one vertex commutes with localization.
pub proof fn lemma_localize_extend<V: Vertex>(r: Seq<Seq<V>>, v: V, o: Coord)
    requires
        r.len() >= 1,
        all_local(r, o),
        local_of(v.pos(), o) is Some,
    ensures
        all_local(r.update(r.len() - 1, r.last().push(v)), o),
        localized_runs(r.update(r.len() - 1, r.last().push(v)), o) == {
            let lr = localized_runs(r, o);
            lr.update(lr.len() - 1, lr.last().push(loc(v, o)))
        },
{
    let r2 = r.update(r.len() - 1, r.last().push(v));
    assert forall|i: int, j: int| 0 <= i < r2.len() && 0 <= j < r2[i].len() implies (#[trigger] local_of(
        r2[i][j].pos(),
        o,
    )) is Some by {
        if i == r.len() - 1 && j == r.last().len() {
        } else {
            assert(r2[i][j] == r[i][j]);
        }
    }
    let lr = localized_runs(r, o);
    assert(localized_runs(r2, o) =~~= lr.update(lr.len() - 1, lr.last().push(loc(v, o))));
}

/// Appending a new two-vertex run commutes with localization.
pub proof fn lemma_localize_new_run<V: Vertex>(r: Seq<Seq<V>>, a: V, c: V, o: Coord)
    requires
        all_local(r, o),
        local_of(a.pos(), o) is Some,
        local_of(c.pos(), o) is Some,
    ensures
        all_local(r.push(seq![a, c]), o),
        localized_runs(r.push(seq![a, c]), o) == localized_runs(r, o).push(
            seq![loc(a, o), loc(c, o)],
        ),
{
    let r2 = r.push(seq![a, c]);
    assert forall|i: int, j: int| 0 <= i < r2.len() && 0 <= j < r2[i].len() implies (#[trigger] local_of(
        r2[i][j].pos(),
        o,
    )) is Some by {
        if i < r.len() {
            assert(r2[i][j] == r[i][j]);
        }
    }
    assert(localized_runs(r2, o) =~~= localized_runs(r, o).push(seq![loc(a, o), loc(c, o)]));
}

/// Deduplicating one more vertex: it is appended unless it repeats the previous position.
pub proof fn lemma_dedup_step<V: Vertex>(p: Seq<V>, i: int)
    requires
        0 <= i < p.len(),
    ensures
        dedup(p.take(i + 1)) == (if dedup(p.take(i)).len() > 0 && dedup(p.take(i)).last().pos()
            == p[i].pos() {
            dedup(p.take(i))
        } else {
            dedup(p.take(i)).push(p[i])
        }),
        i == 0 ==> dedup(p.take(i + 1)) == seq![p[0]],
{
    assert(p.take(i + 1).drop_last() =~= p.take(i));
    assert(p.take(i + 1).last() == p[i]);
    if i == 0 {
        assert(p.take(0) =~= Seq::<V>::empty());
        assert(dedup(Seq::<V>::empty()) =~= Seq::<V>::empty());
    }
}

/// Clipping reads only `q[0..=n]` for the first `n` segments.
pub proof fn lemma_runs_upto_prefix<V: Vertex>(q1: Seq<V>, q2: Seq<V>, min: Coord, max: Coord, n: int)
    requires
        n + 1 <= q1.len(),
        n + 1 <= q2.len(),
        q1.take(n + 1) == q2.take(n + 1),
    ensures
        runs_upto(q1, min, max, n) == runs_upto(q2, min, max, n),
    decreases n,
{
    if n > 0 {
        assert(q1.take(n) =~= q1.take(n + 1).take(n));
        assert(q2.take(n) =~= q2.take(n + 1).take(n));
        lemma_runs_upto_prefix(q1, q2, min, max, n - 1);
        assert(q1[n] == q1.take(n + 1)[n]);
        assert(q2[n] == q2.take(n + 1)[n]);
        assert(q1[n - 1] == q1.take(n + 1)[n - 1]);
        assert(q2[n - 1] == q2.take(n + 1)[n - 1]);
        if n >= 2 {
            assert(q1[n - 2] == q1.take(n + 1)[n - 2]);
            assert(q2[n - 2] == q2.take(n + 1)[n - 2]);
        }
        if n >= 3 {
            assert(q1[n - 3] == q1.take(n + 1)[n - 3]);
            assert(q2[n - 3] == q2.take(n + 1)[n - 3]);
        }
    }
}

/// Later segments only append runs or extend the last one: a vertex already placed at run `i`,
/// position `j` keeps its place.
pub proof fn lemma_runs_upto_grow<V: Vertex>(
    q: Seq<V>,
    min: Coord,
    max: Coord,
    n: int,
    m: int,
    i: int,
    j: int,
)
    requires
        0 <= n <= m <= q.len() - 1,
        0 <= i < runs_upto(q, min, max, n).len(),
        0 <= j < runs_upto(q, min, max, n)[i].len(),
    ensures
        i < runs_upto(q, min, max, m).len(),
        j < runs_upto(q, min, max, m)[i].len(),
        runs_upto(q, min, max, m)[i][j] == runs_upto(q, min, max, n)[i][j],
    decreases m - n,
{
    if n < m {
        lemma_runs_upto_grow(q, min, max, n, m - 1, i, j);
        let r = runs_upto(q, min, max, m - 1);
        if seg_hit(q, min, max, m - 1) && m >= 2 && seg_hit(q, min, max, m - 2) {
            lemma_runs_upto_last(q, min, max, m - 1);
            if i == r.len() - 1 {
                assert(runs_upto(q, min, max, m)[i] == r.last().push(q[m]));
            }
        } else if seg_hit(q, min, max, m - 1) && m >= 3 && seg_hit(q, min, max, m - 3) {
            lemma_runs_upto_last(q, min, max, m - 2);
            if i == r.len() - 1 {
                assert(runs_upto(q, min, max, m)[i] == r.last().push(q[m - 1]).push(q[m]));
            }
        }
    }
}

/// The deduplicated prefixes of a polyline are prefixes of one another.
pub proof fn lemma_dedup_prefix<V: Vertex>(p: Seq<V>, i: int, j: int)
    requires
        0 <= i <= j <= p.len(),
    ensures
        dedup(p.take(i)).len() <= dedup(p.take(j)).len(),
        dedup(p.take(j)).take(dedup(p.take(i)).len() as int) == dedup(p.take(i)),
    decreases j - i,
{
    if i < j {
        lemma_dedup_prefix(p, i, j - 1);
        lemma_dedup_step(p, j - 1);
        let di = dedup(p.take(i));
        let dj1 = dedup(p.take(j - 1));
        let dj = dedup(p.take(j));
        assert(dj.take(di.len() as int) =~= dj1.take(di.len() as int));
    } else {
        assert(dedup(p.take(j)).take(dedup(p.take(i)).len() as int) =~= dedup(p.take(i)));
    }
}

/// A vertex that failed to localize while clipping a prefix makes the whole clip overflow.
proof fn lemma_overflow_persists<V: Vertex>(
    p: Seq<V>,
    k: int,
    min: Coord,
    max: Coord,
    o: Coord,
    n: int,
    ri: int,
    rj: int,
)
    requires
        0 <= k <= p.len(),
        1 <= n <= dedup(p.take(k)).len() - 1,
        0 <= ri < runs_upto(dedup(p.take(k)), min, max, n).len(),
        0 <= rj < runs_upto(dedup(p.take(k)), min, max, n)[ri].len(),
        local_of(runs_upto(dedup(p.take(k)), min, max, n)[ri][rj].pos(), o) is None,
    ensures
        clipped_local(p, min, max, o) == Err::<Seq<Seq<V>>, TileError>(TileError::Overflow),
{
    let qk = dedup(p.take(k));
    let qq = dedup(p);
    assert(p.take(p.len() as int) =~= p);
    lemma_dedup_prefix(p, k, p.len() as int);
    assert(qq.take(n + 1) =~= qk.take(n + 1));
    lemma_runs_upto_prefix(qq, qk, min, max, n);
    lemma_runs_upto_grow(qq, min, max, n, qq.len() - 1, ri, rj);
    let fin = clip_runs(qq, min, max);
    assert(fin[ri][rj] == runs_upto(qk, min, max, n)[ri][rj]);
    assert(!all_local(fin, o));
}

impl Grid {
    /// Clip one `polyline` to a single tile, keeping original vertices. Returns the kept runs in
    /// the tile's **local coordinates** (the tile's `[0, 0]` corner is the origin). Empty when
    /// nothing of `polyline` touches the tile's (buffered) box.
    ///
    /// A vertex is kept when either of its segments touches the box, so a border crossing keeps the
    /// first vertex just outside. A run breaks only where a vertex is dropped (both its segments
    /// miss the box). Consecutive duplicate positions are collapsed.
    ///
    /// `Overflow` if `tile`'s buffered box leaves the `i32` range, or a kept vertex lies more than an
    /// `i32` span from the tile origin.
    pub fn slice_one<V: Vertex>(self, polyline: &[V], tile: TileId) -> (r: Result<
        Vec<Vec<V>>,
        TileError,
    >)
        requires
            self.wf(),
        ensures
            match r {
                Ok(runs) => self.slice_one_spec(polyline@, tile) == Ok::<Seq<Seq<V>>, TileError>(
                    runs_view(runs@),
                ),
                Err(e) => self.slice_one_spec(polyline@, tile) == Err::<Seq<Seq<V>>, TileError>(
                    e,
                ),
            },
    {
        let (min, max) = self.tile_buffered_bounds(tile)?;
        // The tile origin is `min` grown back by the buffer (proved in range by the bounds above).
        let origin = Coord { x: min.x + self.buffer, y: min.y + self.buffer };
        let ghost p = polyline@;
        let mut runs: Vec<Vec<V>> = Vec::new();
        let mut prev: Option<V> = None;
        let mut prev_hit = false;
        let mut prev2_hit = false;
        let ghost mut q: Seq<V> = Seq::empty();
        let mut i: usize = 0;
        while i < polyline.len()
            invariant
                self.wf(),
                self.box_of(tile) == Some((min, max)),
                origin == (Coord { x: (min.x + self.buffer) as i32, y: (min.y + self.buffer) as i32 }),
                p == polyline@,
                0 <= i <= p.len(),
                q == dedup(p.take(i as int)),
                (i == 0) == (q.len() == 0),
                prev matches Some(a) ==> q.len() > 0 && a == q.last(),
                (i == 0) == (prev is None),
                prev_hit == (q.len() >= 2 && seg_hit(q, min, max, q.len() - 2)),
                prev2_hit == (q.len() >= 3 && seg_hit(q, min, max, q.len() - 3)),
                all_local(runs_upto(q, min, max, q.len() - 1), origin),
                runs_view(runs@) == localized_runs(runs_upto(q, min, max, q.len() - 1), origin),
            decreases p.len() - i,
        {
            let c = polyline[i];
            proof {
                lemma_dedup_step(p, i as int);
            }
            match prev {
                None => {
                    proof {
                        q = seq![c];
                        assert(runs_upto(q, min, max, 0) =~= Seq::<Seq<V>>::empty());
                        assert(runs_view(runs@) =~= Seq::<Seq<V>>::empty());
                    }
                    prev = Some(c);
                },
                Some(a) => {
                    let pa = a.position();
                    let pc = c.position();
                    if pa.x == pc.x && pa.y == pc.y {
                        // A consecutive duplicate position: drop it, keeping `prev` and its hit.
                        assert(pa == pc);
                    } else {
                        let hit = segment_intersects(pa, pc, min, max);
                        let ghost q2 = q.push(c);
                        let ghost n = q.len() as int;
                        proof {
                            lemma_runs_upto_push(q, c, min, max, n - 1);
                            assert(q2[n - 1] == a);
                            assert(q2[n] == c);
                            assert(seg_hit(q2, min, max, n - 1) == hit);
                            if n >= 2 {
                                assert(q2[n - 2] == q[n - 2]);
                                assert(seg_hit(q2, min, max, n - 2) == seg_hit(q, min, max, n - 2));
                            }
                            if n >= 3 {
                                assert(q2[n - 3] == q[n - 3]);
                                assert(seg_hit(q2, min, max, n - 3) == seg_hit(q, min, max, n - 3));
                            }
                        }
                        if hit {
                            proof {
                                lemma_runs_upto_last(q2, min, max, n);
                                assert(p.take(i + 1 as int).len() == i + 1);
                            }
                            let lc = match to_local(c, origin) {
                                Ok(v) => v,
                                Err(e) => {
                                    proof {
                                        let rr = runs_upto(q2, min, max, n);
                                        lemma_overflow_persists(
                                            p,
                                            i + 1,
                                            min,
                                            max,
                                            origin,
                                            n,
                                            rr.len() - 1,
                                            rr.last().len() - 1,
                                        );
                                    }
                                    return Err(e);
                                },
                            };
                            if prev_hit {
                                proof {
                                    lemma_runs_upto_last(q, min, max, n - 1);
                                    lemma_localize_extend(runs_upto(q, min, max, n - 1), c, origin);
                                }
                                let mut last = runs.pop().unwrap();
                                last.push(lc);
                                runs.push(last);
                                proof {
                                    assert(runs_view(runs@) =~~= localized_runs(
                                        runs_upto(q2, min, max, n),
                                        origin,
                                    ));
                                }
                            } else if prev2_hit {
                                // Only the previous segment missed the box: both its ends are
                                // kept, so the run goes on through it.
                                let la = match to_local(a, origin) {
                                    Ok(v) => v,
                                    Err(e) => {
                                        proof {
                                            lemma_runs_upto_last(q, min, max, n - 2);
                                            let rr = runs_upto(q2, min, max, n);
                                            assert(rr.last().len() >= 4);
                                            assert(rr.last()[rr.last().len() - 2] == a);
                                            lemma_overflow_persists(
                                                p,
                                                i + 1,
                                                min,
                                                max,
                                                origin,
                                                n,
                                                rr.len() - 1,
                                                rr.last().len() - 2,
                                            );
                                        }
                                        return Err(e);
                                    },
                                };
                                proof {
                                    lemma_runs_upto_last(q, min, max, n - 2);
                                    let r0 = runs_upto(q, min, max, n - 1);
                                    assert(r0 == runs_upto(q, min, max, n - 2));
                                    lemma_localize_extend(r0, a, origin);
                                    let r1 = r0.update(r0.len() - 1, r0.last().push(a));
                                    lemma_localize_extend(r1, c, origin);
                                    assert(r1.update(r1.len() - 1, r1.last().push(c)) =~= runs_upto(
                                        q2,
                                        min,
                                        max,
                                        n,
                                    ));
                                }
                                let mut last = runs.pop().unwrap();
                                last.push(la);
                                last.push(lc);
                                runs.push(last);
                                proof {
                                    assert(runs_view(runs@) =~~= localized_runs(
                                        runs_upto(q2, min, max, n),
                                        origin,
                                    ));
                                }
                            } else {
                                let la = match to_local(a, origin) {
                                    Ok(v) => v,
                                    Err(e) => {
                                        proof {
                                            let rr = runs_upto(q2, min, max, n);
                                            assert(rr.last() == seq![a, c]);
                                            lemma_overflow_persists(
                                                p,
                                                i + 1,
                                                min,
                                                max,
                                                origin,
                                                n,
                                                rr.len() - 1,
                                                0,
                                            );
                                        }
                                        return Err(e);
                                    },
                                };
                                proof {
                                    lemma_localize_new_run(runs_upto(q, min, max, n - 1), a, c, origin);
                                }
                                runs.push(vec![la, lc]);
                                proof {
                                    assert(runs_view(runs@) =~~= localized_runs(
                                        runs_upto(q2, min, max, n),
                                        origin,
                                    ));
                                }
                            }
                        }
                        proof {
                            q = q2;
                        }
                        prev = Some(c);
                        prev2_hit = prev_hit;
                        prev_hit = hit;
                    }
                },
            }
            i = i + 1;
        }
        proof {
            assert(p.take(p.len() as int) =~= p);
        }
        Ok(runs)
    }
}

/// The maximum polyline length [`Grid::route`] accepts (`u16::MAX + 1` vertices).
pub const MAX_INDEXED_LEN: usize = 65536;

/// Upper bound on the candidate tiles [`Grid::route`] examines before giving up with
/// `TooManyTiles`; it caps worst-case time and memory for adversarial, widely-spread input.
pub const MAX_TILE_VISITS: i64 = 33554432;

/// `v = e·(v / e) + v % e` with `0 ≤ v % e < e`.
pub proof fn lemma_div_range(v: int, e: int)
    requires
        e > 0,
    ensures
        v == e * (v / e) + v % e,
        0 <= v % e < e,
{
    vstd::arithmetic::div_mod::lemma_fundamental_div_mod(v, e);
    vstd::arithmetic::div_mod::lemma_mod_bound(v, e);
}

/// Floor division is monotone around a multiple: `v ≤ t·e + e − 1 ⇒ v / e ≤ t` and
/// `v ≥ t·e ⇒ v / e ≥ t`.
pub proof fn lemma_div_between(v: int, e: int, t: int)
    requires
        e > 0,
    ensures
        v <= t * e + e - 1 ==> v / e <= t,
        v >= t * e ==> v / e >= t,
{
    lemma_div_range(v, e);
    let q = v / e;
    let r = v % e;
    if v <= t * e + e - 1 {
        assert(q <= t) by (nonlinear_arith)
            requires
                v == e * q + r,
                0 <= r < e,
                v <= t * e + e - 1,
                e > 0,
        ;
    }
    if v >= t * e {
        assert(q >= t) by (nonlinear_arith)
            requires
                v == e * q + r,
                0 <= r < e,
                v >= t * e,
                e > 0,
        ;
    }
}

/// Distinct tiles step by at least a whole extent: `t ≥ u + 1 ⇒ t·e ≥ u·e + e`.
pub proof fn lemma_mul_step(t: int, u: int, e: int)
    requires
        e > 0,
        t >= u + 1,
    ensures
        t * e >= u * e + e,
{
    assert(t * e >= u * e + e) by (nonlinear_arith)
        requires
            e > 0,
            t >= u + 1,
    ;
}

/// Floor division by a positive extent stays between zero and the dividend.
proof fn lemma_div_shrinks(v: int, e: int)
    requires
        e > 0,
    ensures
        v >= 0 ==> 0 <= v / e <= v,
        v < 0 ==> v <= v / e < 0,
{
    lemma_div_range(v, e);
    let q = v / e;
    let r = v % e;
    assert(v >= 0 ==> 0 <= q <= v) by (nonlinear_arith)
        requires
            v == e * q + r,
            0 <= r < e,
            e > 0,
    ;
    assert(v < 0 ==> v <= q < 0) by (nonlinear_arith)
        requires
            v == e * q + r,
            0 <= r < e,
            e > 0,
    ;
}

/// A vertex belongs to the tile `⌊x / extent⌋` on each axis and, in that tile's frame, sits at
/// `x − tile·extent`, within `[0, extent)`, inside the tile's buffered box (whenever that box
/// fits `i32`).
pub proof fn law_vertex_lands_in_own_cell(grid: Grid, c: Coord)
    requires
        grid.wf(),
        grid.box_of(tile_of_spec(c, grid.extent as int)) is Some,
    ensures
        ({
            let e = grid.extent as int;
            let t = tile_of_spec(c, e);
            &&& t.x == c.x as int / e && t.y == c.y as int / e
            &&& 0 <= c.x - t.x * e < e && 0 <= c.y - t.y * e < e
            &&& in_box(c, grid.box_lo(t), grid.box_hi(t))
            &&& local_of(c, grid.origin_of(grid.box_lo(t))) == Some(
                Coord { x: (c.x - t.x * e) as i32, y: (c.y - t.y * e) as i32 },
            )
        }),
{
    let e = grid.extent as int;
    lemma_div_range(c.x as int, e);
    lemma_div_range(c.y as int, e);
    lemma_div_shrinks(c.x as int, e);
    lemma_div_shrinks(c.y as int, e);
    let t = tile_of_spec(c, e);
    assert(t.x == c.x as int / e && t.y == c.y as int / e);
    assert(t.x * e == e * (c.x as int / e)) by (nonlinear_arith)
        requires
            t.x == c.x as int / e,
    ;
    assert(t.y * e == e * (c.y as int / e)) by (nonlinear_arith)
        requires
            t.y == c.y as int / e,
    ;
}

/// A vertex's owner tile with its core cell and inner box precomputed in **global** coordinates,
/// so membership tests are plain comparisons.
///
/// - the **core cell** `[base, base + extent − 1]` is the tile's own cell;
/// - the **inner box** `[base + buffer, base + extent − 1 − buffer]` is the core shrunk by the
///   buffer: a segment with both endpoints inside it cannot reach any other tile's buffered box.
#[derive(Debug, Clone, Copy)]
pub struct Located {
    pub owner: TileId,
    pub core_lo: Coord,
    pub core_hi: Coord,
    pub inner_lo: Coord,
    pub inner_hi: Coord,
}

impl Located {
    /// Is `c` in the core cell?
    pub fn contains_core(&self, c: Coord) -> (r: bool)
        ensures
            r == in_box(c, self.core_lo, self.core_hi),
    {
        c.x >= self.core_lo.x && c.x <= self.core_hi.x && c.y >= self.core_lo.y && c.y
            <= self.core_hi.y
    }

    /// Is `c` in the inner box?
    pub fn contains_inner(&self, c: Coord) -> (r: bool)
        ensures
            r == in_box(c, self.inner_lo, self.inner_hi),
    {
        c.x >= self.inner_lo.x && c.x <= self.inner_hi.x && c.y >= self.inner_lo.y && c.y
            <= self.inner_hi.y
    }
}

/// One tile's pieces of the polyline being routed, in that tile's local frame.
#[derive(Debug)]
pub struct PendingTile<V> {
    pub tile: TileId,
    pub origin: Coord,
    pub runs: Vec<Vec<V>>,
    /// The ordinal of the last segment that reached this tile.
    pub last_seg: usize,
}

/// `out` holds at most one entry per tile.
pub open spec fn distinct_tiles<V>(out: Seq<PendingTile<V>>) -> bool {
    forall|i: int, j: int| 0 <= i < j < out.len() ==> out[i].tile != out[j].tile
}

/// `out` has an entry for `t`.
pub open spec fn has_tile<V>(out: Seq<PendingTile<V>>, t: TileId) -> bool {
    exists|k: int| 0 <= k < out.len() && out[k].tile == t
}

/// The index of `t`'s entry in `out` (meaningful when [`has_tile`]).
pub open spec fn tile_index<V>(out: Seq<PendingTile<V>>, t: TileId) -> int {
    choose|k: int| 0 <= k < out.len() && out[k].tile == t
}

/// The runs routed into `t` so far (empty when `t` has no entry).
pub open spec fn pending_runs<V>(out: Seq<PendingTile<V>>, t: TileId) -> Seq<Seq<V>> {
    if has_tile(out, t) {
        runs_view(out[tile_index(out, t)].runs@)
    } else {
        Seq::empty()
    }
}

impl Grid {
    /// The local-frame origin of a tile whose buffered box starts at `min`.
    pub open spec fn origin_of(self, min: Coord) -> Coord {
        Coord { x: (min.x + self.buffer) as i32, y: (min.y + self.buffer) as i32 }
    }

    /// The owner of `c` with its core and inner boxes, or `None` when its box overflows.
    pub open spec fn located_of(self, c: Coord) -> Option<Located> {
        let t = tile_of_spec(c, self.extent as int);
        match self.box_of(t) {
            Some((mn, mx)) => Some(
                Located {
                    owner: t,
                    core_lo: Coord { x: (mn.x + self.buffer) as i32, y: (mn.y + self.buffer) as i32 },
                    core_hi: Coord { x: (mx.x - self.buffer) as i32, y: (mx.y - self.buffer) as i32 },
                    inner_lo: Coord {
                        x: (mn.x + 2 * self.buffer) as i32,
                        y: (mn.y + 2 * self.buffer) as i32,
                    },
                    inner_hi: Coord {
                        x: (mx.x - 2 * self.buffer) as i32,
                        y: (mx.y - 2 * self.buffer) as i32,
                    },
                },
            ),
            None => None,
        }
    }

    /// The routing state for tile `t` after `n` segments of `q`: its entry holds exactly the
    /// localized clip runs of those segments (none when they never touched it), and remembers the
    /// last segment that reached it.
    pub open spec fn tile_state_ok<V: Vertex>(
        self,
        out: Seq<PendingTile<V>>,
        q: Seq<V>,
        t: TileId,
        n: int,
    ) -> bool {
        match self.box_of(t) {
            None => !has_tile(out, t),
            Some((mn, mx)) => {
                let r = runs_upto(q, mn, mx, n);
                let o = self.origin_of(mn);
                &&& all_local(r, o)
                &&& (r.len() == 0) == !has_tile(out, t)
                &&& has_tile(out, t) ==> {
                    let e = out[tile_index(out, t)];
                    &&& e.origin == o
                    &&& runs_view(e.runs@) == localized_runs(r, o)
                    &&& e.last_seg < n
                    &&& seg_hit(q, mn, mx, e.last_seg as int)
                    &&& forall|j: int| e.last_seg < j < n ==> !#[trigger] seg_hit(q, mn, mx, j)
                }
            },
        }
    }

    /// Locate the tile owning `c`, with its core and inner boxes precomputed. `Overflow` for
    /// exactly the tiles whose buffered box overflows.
    pub fn locate(self, c: Coord) -> (r: Result<Located, TileError>)
        requires
            self.wf(),
        ensures
            r == (match self.located_of(c) {
                Some(l) => Ok::<Located, TileError>(l),
                None => Err(TileError::Overflow),
            }),
    {
        let owner = tile_of(c, self.extent);
        let (min, max) = self.tile_buffered_bounds(owner)?;
        Ok(
            Located {
                owner,
                core_lo: Coord { x: min.x + self.buffer, y: min.y + self.buffer },
                core_hi: Coord { x: max.x - self.buffer, y: max.y - self.buffer },
                inner_lo: Coord { x: min.x + 2 * self.buffer, y: min.y + 2 * self.buffer },
                inner_hi: Coord { x: max.x - 2 * self.buffer, y: max.y - 2 * self.buffer },
            },
        )
    }
}

/// The entry for `tile` after routing segment `a`–`c` (ordinal `seg`) into it: the segment
/// continues the tile's open run when the previous segment also reached the tile, otherwise it
/// opens a new two-vertex run.
pub open spec fn emitted_runs<V: Vertex>(
    out: Seq<PendingTile<V>>,
    tile: TileId,
    origin: Coord,
    a: V,
    c: V,
    seg: int,
) -> Seq<Seq<V>> {
    let old_runs = pending_runs(out, tile);
    if has_tile(out, tile) && out[tile_index(out, tile)].last_seg + 1 == seg {
        old_runs.update(old_runs.len() - 1, old_runs.last().push(loc(c, origin)))
    } else if has_tile(out, tile) && out[tile_index(out, tile)].last_seg + 2 == seg {
        old_runs.update(
            old_runs.len() - 1,
            old_runs.last().push(loc(a, origin)).push(loc(c, origin)),
        )
    } else {
        old_runs.push(seq![loc(a, origin), loc(c, origin)])
    }
}

/// Whether routing segment `a`–`c` into `tile` needs `a` localized too (it opens a new run).
pub open spec fn opens_run<V>(out: Seq<PendingTile<V>>, tile: TileId, seg: int) -> bool {
    !(has_tile(out, tile) && out[tile_index(out, tile)].last_seg + 1 == seg)
}

/// Route the segment `a`–`c` (ordinal `seg`) into `tile`, whose local-frame origin is `origin`:
/// extend the tile's open run when the previous segment also landed here, else start a new run.
/// `Overflow` if a vertex lies more than an `i32` span from `origin`.
fn emit<V: Vertex>(
    out: &mut Vec<PendingTile<V>>,
    tile: TileId,
    origin: Coord,
    a: V,
    c: V,
    seg: usize,
) -> (r: Result<(), TileError>)
    requires
        distinct_tiles(old(out)@),
        has_tile(old(out)@, tile) ==> {
            let e = old(out)@[tile_index(old(out)@, tile)];
            &&& e.last_seg < seg
            &&& e.origin == origin
            &&& e.runs@.len() >= 1
        },
    ensures
        match r {
            Ok(()) => {
                &&& local_of(c.pos(), origin) is Some
                &&& opens_run(old(out)@, tile, seg as int) ==> local_of(a.pos(), origin) is Some
                &&& distinct_tiles(final(out)@)
                &&& has_tile(final(out)@, tile)
                &&& {
                    let e = final(out)@[tile_index(final(out)@, tile)];
                    &&& e.origin == origin
                    &&& e.last_seg == seg
                    &&& runs_view(e.runs@) == emitted_runs(old(out)@, tile, origin, a, c, seg as int)
                }
                &&& forall|t: TileId|
                    t != tile ==> (has_tile(final(out)@, t) == has_tile(old(out)@, t) && (has_tile(
                        old(out)@,
                        t,
                    ) ==> final(out)@[tile_index(final(out)@, t)] == old(out)@[tile_index(
                        old(out)@,
                        t,
                    )]))
            },
            Err(e) => {
                &&& e == TileError::Overflow
                &&& (local_of(c.pos(), origin) is None || (opens_run(old(out)@, tile, seg as int)
                    && local_of(a.pos(), origin) is None))
            },
        },
{
    let ghost o = old(out)@;
    let mut k: usize = 0;
    while k < out.len() && !out[k].tile.same_as(&tile)
        invariant
            out@ == o,
            k <= out.len(),
            forall|j: int| 0 <= j < k ==> out@[j].tile != tile,
        decreases out.len() - k,
    {
        k = k + 1;
    }
    let c_local = to_local(c, origin)?;
    if k < out.len() {
        assert(out@[k as int].tile == tile);
        assert(has_tile(o, tile));
        assert(tile_index(o, tile) == k);
        let mut entry = out.remove(k);
        if entry.last_seg + 1 == seg {
            let mut last = entry.runs.pop().unwrap();
            last.push(c_local);
            entry.runs.push(last);
            proof {
                let ov = runs_view(o[k as int].runs@);
                assert(runs_view(entry.runs@) =~~= ov.update(ov.len() - 1, ov.last().push(loc(c, origin))));
            }
        } else if entry.last_seg + 2 == seg {
            // Only the segment just before missed this tile: both its ends are kept, so the run
            // goes on through it.
            let a_local = to_local(a, origin)?;
            let mut last = entry.runs.pop().unwrap();
            last.push(a_local);
            last.push(c_local);
            entry.runs.push(last);
            proof {
                let ov = runs_view(o[k as int].runs@);
                assert(runs_view(entry.runs@) =~~= ov.update(
                    ov.len() - 1,
                    ov.last().push(loc(a, origin)).push(loc(c, origin)),
                ));
            }
        } else {
            let a_local = to_local(a, origin)?;
            entry.runs.push(vec![a_local, c_local]);
            proof {
                let ov = runs_view(o[k as int].runs@);
                assert(runs_view(entry.runs@) =~~= ov.push(seq![loc(a, origin), loc(c, origin)]));
            }
        }
        entry.last_seg = seg;
        out.insert(k, entry);
        proof {
            let n = out@;
            assert forall|i: int, j: int| 0 <= i < j < n.len() implies n[i].tile != n[j].tile by {
                if i != k && j != k {
                    assert(n[i] == o[i] && n[j] == o[j]);
                } else if i == k {
                    assert(n[j] == o[j]);
                } else {
                    assert(n[i] == o[i]);
                }
            }
            assert(n[k as int].tile == tile);
            assert(tile_index(n, tile) == k);
            assert forall|t: TileId| t != tile implies (has_tile(n, t) == has_tile(o, t) && (has_tile(
                o,
                t,
            ) ==> n[tile_index(n, t)] == o[tile_index(o, t)])) by {
                if has_tile(o, t) {
                    let ko = tile_index(o, t);
                    assert(n[ko] == o[ko]);
                    assert(tile_index(n, t) == ko);
                }
                if has_tile(n, t) {
                    let kn = tile_index(n, t);
                    assert(o[kn] == n[kn]);
                }
            }
        }
    } else {
        assert(!has_tile(o, tile));
        let a_local = to_local(a, origin)?;
        out.push(PendingTile { tile, origin, runs: vec![vec![a_local, c_local]], last_seg: seg });
        proof {
            let n = out@;
            let kk = o.len() as int;
            assert(n[kk].tile == tile);
            assert(tile_index(n, tile) == kk);
            assert(runs_view(n[kk].runs@) =~~= Seq::<Seq<V>>::empty().push(
                seq![loc(a, origin), loc(c, origin)],
            ));
            assert(pending_runs(o, tile) =~~= Seq::<Seq<V>>::empty());
            assert forall|t: TileId| t != tile implies (has_tile(n, t) == has_tile(o, t) && (has_tile(
                o,
                t,
            ) ==> n[tile_index(n, t)] == o[tile_index(o, t)])) by {
                if has_tile(o, t) {
                    let ko = tile_index(o, t);
                    assert(n[ko] == o[ko]);
                    assert(tile_index(n, t) == ko);
                }
                if has_tile(n, t) {
                    let kn = tile_index(n, t);
                    assert(kn != kk);
                    assert(o[kn] == n[kn]);
                }
            }
        }
    }
    Ok(())
}

/// A tile's candidate window: `t` lies in the closed tile range `[lo, hi]`.
pub open spec fn in_window(t: TileId, lo: TileId, hi: TileId) -> bool {
    lo.x <= t.x <= hi.x && lo.y <= t.y <= hi.y
}

/// Row-major scan progress over the window `[lo, hi]`: `t` comes before the cursor `(cx, cy)`.
pub open spec fn scanned(t: TileId, lo: TileId, hi: TileId, cx: int, cy: int) -> bool {
    &&& in_window(t, lo, hi)
    &&& (t.y < cy || (t.y == cy && t.x < cx))
}

/// If no segment before `n` touched the box, nothing was kept; a touching segment keeps a run.
pub proof fn lemma_runs_empty_no_hit<V: Vertex>(q: Seq<V>, min: Coord, max: Coord, n: int, j: int)
    requires
        0 <= j < n <= q.len() - 1,
        seg_hit(q, min, max, j),
    ensures
        runs_upto(q, min, max, n).len() >= 1,
    decreases n - j,
{
    if n == j + 1 {
        lemma_runs_upto_last(q, min, max, n);
    } else {
        lemma_runs_empty_no_hit(q, min, max, n - 1, j);
        assert(runs_upto(q, min, max, n).len() >= runs_upto(q, min, max, n - 1).len());
    }
}

impl Grid {
    /// Every tile whose box a segment touches lies in the segment's candidate window: the tiles
    /// owning its bounding box grown by the buffer.
    pub proof fn lemma_candidates_cover(self, a: Coord, c: Coord, t: TileId)
        requires
            self.wf(),
            self.box_of(t) is Some,
            touches(a, c, self.box_lo(t), self.box_hi(t)),
        ensures
            ({
                let e = self.extent as int;
                let b = self.buffer as int;
                let lx = if a.x <= c.x { a.x as int } else { c.x as int };
                let hx = if a.x <= c.x { c.x as int } else { a.x as int };
                let ly = if a.y <= c.y { a.y as int } else { c.y as int };
                let hy = if a.y <= c.y { c.y as int } else { a.y as int };
                &&& (lx - b) / e <= t.x <= (hx + b) / e
                &&& (ly - b) / e <= t.y <= (hy + b) / e
            }),
    {
        let e = self.extent as int;
        let b = self.buffer as int;
        let lx = if a.x <= c.x { a.x as int } else { c.x as int };
        let hx = if a.x <= c.x { c.x as int } else { a.x as int };
        let ly = if a.y <= c.y { a.y as int } else { c.y as int };
        let hy = if a.y <= c.y { c.y as int } else { a.y as int };
        lemma_div_between(lx - b, e, t.x as int);
        lemma_div_between(hx + b, e, t.x as int);
        lemma_div_between(ly - b, e, t.y as int);
        lemma_div_between(hy + b, e, t.y as int);
    }

    /// A coordinate inside the core cell of tile `l.owner` is owned by that tile.
    pub proof fn lemma_core_owner(self, l: Located, c: Coord, a: Coord)
        requires
            self.wf(),
            self.located_of(a) == Some(l),
            in_box(c, l.core_lo, l.core_hi),
        ensures
            self.located_of(c) == Some(l),
    {
        let e = self.extent as int;
        let t = l.owner;
        lemma_div_between(c.x as int, e, t.x as int);
        lemma_div_between(c.y as int, e, t.y as int);
        assert(tile_of_spec(c, e) == t);
    }

    /// A segment with both endpoints in its owner's inner box touches that tile's box and no other
    /// tile's.
    pub proof fn lemma_inner_exclusive(self, l: Located, a: Coord, c: Coord, t: TileId)
        requires
            self.wf(),
            self.located_of(a) == Some(l),
            in_box(a, l.inner_lo, l.inner_hi),
            in_box(c, l.inner_lo, l.inner_hi),
            self.box_of(t) is Some,
        ensures
            touches(a, c, self.box_lo(t), self.box_hi(t)) == (t == l.owner),
    {
        let e = self.extent as int;
        let b = self.buffer as int;
        let tt = l.owner;
        let (mn, mx) = self.box_of(t).unwrap();
        if t == tt {
            assert(in_box(a, mn, mx));
        } else if t.x != tt.x {
            if t.x > tt.x {
                lemma_mul_step(t.x as int, tt.x as int, e);
            } else {
                lemma_mul_step(tt.x as int, t.x as int, e);
            }
        } else {
            if t.y > tt.y {
                lemma_mul_step(t.y as int, tt.y as int, e);
            } else {
                lemma_mul_step(tt.y as int, t.y as int, e);
            }
        }
    }

    /// A tile the current segment does not touch keeps its state, which now also covers that
    /// segment.
    pub proof fn lemma_state_untouched<V: Vertex>(
        self,
        out: Seq<PendingTile<V>>,
        q: Seq<V>,
        t: TileId,
        n: int,
    )
        requires
            0 <= n,
            n + 1 <= q.len() - 1,
            self.tile_state_ok(out, q, t, n),
            self.box_of(t) is Some ==> !seg_hit(q, self.box_lo(t), self.box_hi(t), n),
        ensures
            self.tile_state_ok(out, q, t, n + 1),
    {
        if let Some((mn, mx)) = self.box_of(t) {
            assert(runs_upto(q, mn, mx, n + 1) == runs_upto(q, mn, mx, n));
            if has_tile(out, t) {
                let e = out[tile_index(out, t)];
                assert forall|j: int| e.last_seg < j < n + 1 implies !#[trigger] seg_hit(
                    q,
                    mn,
                    mx,
                    j,
                ) by {
                    if j < n {
                    }
                }
            }
        }
    }

    /// Emitting the current (touching) segment into tile `t` advances its state by that segment.
    pub proof fn lemma_state_touched<V: Vertex>(
        self,
        old_out: Seq<PendingTile<V>>,
        new_out: Seq<PendingTile<V>>,
        q: Seq<V>,
        t: TileId,
        n: int,
    )
        requires
            0 <= n,
            n + 1 <= q.len() - 1,
            self.box_of(t) is Some,
            self.tile_state_ok(old_out, q, t, n),
            seg_hit(q, self.box_lo(t), self.box_hi(t), n),
            ({
                let o = self.origin_of(self.box_lo(t));
                &&& local_of(q[n + 1].pos(), o) is Some
                &&& opens_run(old_out, t, n) ==> local_of(q[n].pos(), o) is Some
                &&& has_tile(new_out, t)
                &&& {
                    let e = new_out[tile_index(new_out, t)];
                    &&& e.origin == o
                    &&& e.last_seg == n
                    &&& runs_view(e.runs@) == emitted_runs(old_out, t, o, q[n], q[n + 1], n)
                }
            }),
        ensures
            self.tile_state_ok(new_out, q, t, n + 1),
    {
        let (mn, mx) = self.box_of(t).unwrap();
        let o = self.origin_of(mn);
        let r = runs_upto(q, mn, mx, n);
        let r2 = runs_upto(q, mn, mx, n + 1);
        let had = has_tile(old_out, t);
        if had && old_out[tile_index(old_out, t)].last_seg + 1 == n {
            // The previous segment also reached `t`: the open run continues.
            assert(seg_hit(q, mn, mx, n - 1));
            assert(r2 == r.update(r.len() - 1, r.last().push(q[n + 1])));
            lemma_localize_extend(r, q[n + 1], o);
        } else if had && old_out[tile_index(old_out, t)].last_seg + 2 == n {
            // The segment before missed `t` but the one before that reached it: the run goes on.
            assert(!seg_hit(q, mn, mx, n - 1));
            assert(seg_hit(q, mn, mx, n - 2));
            lemma_runs_upto_last(q, mn, mx, n - 1);
            assert(r == runs_upto(q, mn, mx, n - 1));
            assert(r2 == r.update(r.len() - 1, r.last().push(q[n]).push(q[n + 1])));
            lemma_localize_extend(r, q[n], o);
            let r1 = r.update(r.len() - 1, r.last().push(q[n]));
            lemma_localize_extend(r1, q[n + 1], o);
            assert(r1.update(r1.len() - 1, r1.last().push(q[n + 1])) =~= r2);
            let lr = localized_runs(r, o);
            let lr1 = localized_runs(r1, o);
            assert(lr1 == lr.update(lr.len() - 1, lr.last().push(loc(q[n], o))));
            assert(lr1.update(lr1.len() - 1, lr1.last().push(loc(q[n + 1], o))) =~~= lr.update(
                lr.len() - 1,
                lr.last().push(loc(q[n], o)).push(loc(q[n + 1], o)),
            ));
            assert(pending_runs(old_out, t) == lr);
        } else {
            if n >= 1 {
                if had {
                    let e = old_out[tile_index(old_out, t)];
                    assert(e.last_seg < n - 1);
                    assert(!seg_hit(q, mn, mx, n - 1));
                    if n >= 2 {
                        assert(e.last_seg < n - 2);
                        assert(!seg_hit(q, mn, mx, n - 2));
                    }
                } else {
                    if seg_hit(q, mn, mx, n - 1) {
                        lemma_runs_empty_no_hit(q, mn, mx, n, n - 1);
                    }
                    if n >= 2 && seg_hit(q, mn, mx, n - 2) {
                        lemma_runs_empty_no_hit(q, mn, mx, n, n - 2);
                    }
                }
            }
            assert(r2 == r.push(seq![q[n], q[n + 1]]));
            lemma_localize_new_run(r, q[n], q[n + 1], o);
            if !had {
                assert(r.len() == 0);
                assert(pending_runs(old_out, t) =~~= localized_runs(r, o));
            }
        }
        lemma_runs_upto_last(q, mn, mx, n + 1);
    }
}

impl Grid {
    /// The state of tile `t` partway through a segment's row-major candidate scan: tiles already
    /// scanned cover segment `n` too.
    pub open spec fn scan_state_ok<V: Vertex>(
        self,
        out: Seq<PendingTile<V>>,
        q: Seq<V>,
        t: TileId,
        lo: TileId,
        hi: TileId,
        cx: int,
        cy: int,
        n: int,
    ) -> bool {
        self.tile_state_ok(out, q, t, if scanned(t, lo, hi, cx, cy) { n + 1 } else { n })
    }

    /// A scanned candidate tile: its box fits, and when the segment `a`–`c` touches it both
    /// endpoints fit its local frame.
    pub open spec fn scan_good(self, t: TileId, a: Coord, c: Coord) -> bool {
        &&& self.box_of(t) is Some
        &&& touches(a, c, self.box_lo(t), self.box_hi(t)) ==> local_of(
            a,
            self.origin_of(self.box_lo(t)),
        ) is Some && local_of(c, self.origin_of(self.box_lo(t))) is Some
    }

    /// A tile's state depends only on its own entry.
    pub proof fn lemma_state_frame<V: Vertex>(
        self,
        old_out: Seq<PendingTile<V>>,
        new_out: Seq<PendingTile<V>>,
        q: Seq<V>,
        t: TileId,
        n: int,
    )
        requires
            self.tile_state_ok(old_out, q, t, n),
            has_tile(new_out, t) == has_tile(old_out, t),
            has_tile(old_out, t) ==> new_out[tile_index(new_out, t)] == old_out[tile_index(
                old_out,
                t,
            )],
        ensures
            self.tile_state_ok(new_out, q, t, n),
    {
    }

    /// Appending a vertex does not change the state of the segments already routed.
    pub proof fn lemma_state_extend<V: Vertex>(
        self,
        out: Seq<PendingTile<V>>,
        q: Seq<V>,
        c: V,
        t: TileId,
        n: int,
    )
        requires
            0 <= n <= q.len() - 1,
            self.tile_state_ok(out, q, t, n),
        ensures
            self.tile_state_ok(out, q.push(c), t, n),
    {
        if let Some((mn, mx)) = self.box_of(t) {
            lemma_runs_upto_push(q, c, mn, mx, n);
            let q2 = q.push(c);
            assert forall|j: int| 0 <= j < n implies #[trigger] seg_hit(q2, mn, mx, j) == seg_hit(
                q,
                mn,
                mx,
                j,
            ) by {
                assert(q2[j] == q[j]);
                assert(q2[j + 1] == q[j + 1]);
            }
            if has_tile(out, t) {
                let e = out[tile_index(out, t)];
                assert(seg_hit(q2, mn, mx, e.last_seg as int) == seg_hit(q, mn, mx, e.last_seg as int));
                assert forall|j: int| e.last_seg < j < n implies !#[trigger] seg_hit(q2, mn, mx, j) by {
                    assert(seg_hit(q2, mn, mx, j) == seg_hit(q, mn, mx, j));
                }
            }
        }
    }

    /// Segment `a`–`c` lies in the inner box of the tile owning `a`, so it reaches that tile alone.
    pub open spec fn seg_fast(self, a: Coord, c: Coord) -> bool {
        match self.located_of(a) {
            Some(l) => in_box(a, l.inner_lo, l.inner_hi) && in_box(c, l.inner_lo, l.inner_hi),
            None => false,
        }
    }

    /// The bounding box of segment `a`–`c` grown by the buffer, as `(lo_x, lo_y, hi_x, hi_y)`.
    pub open spec fn grown(self, a: Coord, c: Coord) -> (int, int, int, int) {
        let b = self.buffer as int;
        (
            (if a.x <= c.x {
                a.x as int
            } else {
                c.x as int
            }) - b,
            (if a.y <= c.y {
                a.y as int
            } else {
                c.y as int
            }) - b,
            (if a.x <= c.x {
                c.x as int
            } else {
                a.x as int
            }) + b,
            (if a.y <= c.y {
                c.y as int
            } else {
                a.y as int
            }) + b,
        )
    }

    /// The segment's candidate tiles, those owning its grown bounding box, as the tile range
    /// `(lo_x, lo_y, hi_x, hi_y)`.
    pub open spec fn window(self, a: Coord, c: Coord) -> (int, int, int, int) {
        let g = self.grown(a, c);
        let e = self.extent as int;
        (g.0 / e, g.1 / e, g.2 / e, g.3 / e)
    }

    /// The candidate tiles examined for the segment: its owner alone on the fast path, else its
    /// whole window.
    pub open spec fn seg_cost(self, a: Coord, c: Coord) -> int {
        if self.seg_fast(a, c) {
            1
        } else {
            let w = self.window(a, c);
            (w.2 - w.0 + 1) * (w.3 - w.1 + 1)
        }
    }

    /// Off the fast path, the segment's candidate tiles reach more than `i16` tiles from `r`.
    pub open spec fn seg_spread(self, a: Coord, c: Coord, r: TileId) -> bool {
        let w = self.window(a, c);
        &&& !self.seg_fast(a, c)
        &&& !(fits16(w.0 - r.x) && fits16(w.2 - r.x) && fits16(w.1 - r.y) && fits16(w.3 - r.y))
    }

    /// Some tile whose box the segment touches cannot express an endpoint in its local frame.
    pub open spec fn local_trouble(self, a: Coord, c: Coord) -> bool {
        exists|t: TileId|
            #[trigger] self.box_of(t) is Some && touches(a, c, self.box_lo(t), self.box_hi(t)) && (
            local_of(a, self.origin_of(self.box_lo(t))) is None || local_of(
                c,
                self.origin_of(self.box_lo(t)),
            ) is None)
    }

    /// Routing the segment leaves the `i32` range: a tile box of an endpoint's owner, a local
    /// coordinate in a touched tile, or, off the fast path, the grown bounding box or a
    /// candidate tile's box.
    pub open spec fn seg_overflows(self, a: Coord, c: Coord) -> bool {
        let g = self.grown(a, c);
        let w = self.window(a, c);
        ||| self.located_of(a) is None
        ||| self.local_trouble(a, c)
        ||| !self.seg_fast(a, c) && !(fits(g.0) && fits(g.1) && fits(g.2) && fits(g.3))
        ||| !self.seg_fast(a, c) && (exists|t: TileId|
            w.0 <= t.x <= w.2 && w.1 <= t.y <= w.3 && #[trigger] self.box_of(t) is None)
        ||| !self.seg_fast(a, c) && self.located_of(c) is None
    }

    /// Segment `j` of `q` routes cleanly: nothing overflows and its candidate tiles stay within
    /// `i16` tiles of the tile owning `q[0]`.
    pub open spec fn seg_clean<V: Vertex>(self, q: Seq<V>, j: int) -> bool {
        let a = q[j].pos();
        let c = q[j + 1].pos();
        !self.seg_overflows(a, c) && !self.seg_spread(
            a,
            c,
            tile_of_spec(q[0].pos(), self.extent as int),
        )
    }

    /// The candidate tiles examined for the first `n` segments of `q`.
    pub open spec fn cost_upto<V: Vertex>(self, q: Seq<V>, n: int) -> int
        decreases n,
    {
        if n <= 0 {
            0
        } else {
            self.cost_upto(q, n - 1) + self.seg_cost(q[n - 1].pos(), q[n].pos())
        }
    }

    /// Routing `polyline` reaches too many tiles: some segment's candidate tiles lie more than
    /// `i16` tiles from the first vertex's tile, or more than `MAX_TILE_VISITS` candidate tiles
    /// are examined in all (segments between consecutive duplicate positions skipped).
    pub open spec fn spreads<V: Vertex>(self, polyline: Seq<V>) -> bool {
        let q = dedup(polyline);
        ||| exists|j: int|
            0 <= j < q.len() - 1 && #[trigger] self.seg_spread(
                q[j].pos(),
                q[j + 1].pos(),
                tile_of_spec(q[0].pos(), self.extent as int),
            )
        ||| q.len() >= 2 && self.cost_upto(q, q.len() - 1) > MAX_TILE_VISITS
    }

    /// Routing some segment of `polyline` leaves the `i32` range.
    pub open spec fn overflows<V: Vertex>(self, polyline: Seq<V>) -> bool {
        let q = dedup(polyline);
        exists|j: int| 0 <= j < q.len() - 1 && #[trigger] self.seg_overflows(q[j].pos(), q[j + 1].pos())
    }

    /// What routing segment `a`–`c` reports first, with `budget` candidate tiles left and `r` the
    /// tile of the first vertex; `None` when it routes cleanly. An endpoint's owner box comes
    /// first, then the fast path's budget and local frames, or, off it, the grown bounding box,
    /// the tile spread, the budget, the candidate tiles' boxes and local frames, and last the far
    /// endpoint's owner box.
    pub open spec fn seg_failure(self, a: Coord, c: Coord, r: TileId, budget: int) -> Option<TileError> {
        let g = self.grown(a, c);
        let w = self.window(a, c);
        if self.located_of(a) is None {
            Some(TileError::Overflow)
        } else if self.seg_fast(a, c) {
            if budget < 1 {
                Some(TileError::TooManyTiles)
            } else if self.local_trouble(a, c) {
                Some(TileError::Overflow)
            } else {
                None
            }
        } else if !(fits(g.0) && fits(g.1) && fits(g.2) && fits(g.3)) {
            Some(TileError::Overflow)
        } else if self.seg_spread(a, c, r) {
            Some(TileError::TooManyTiles)
        } else if budget < self.seg_cost(a, c) {
            Some(TileError::TooManyTiles)
        } else if (exists|t: TileId|
            w.0 <= t.x <= w.2 && w.1 <= t.y <= w.3 && #[trigger] self.box_of(t) is None)
            || self.local_trouble(a, c) {
            Some(TileError::Overflow)
        } else if self.located_of(c) is None {
            Some(TileError::Overflow)
        } else {
            None
        }
    }

    /// The first failure among the first `n` segments of `q`, each met with what is left of the
    /// candidate-tile budget after the segments before it.
    pub open spec fn first_failure<V: Vertex>(self, q: Seq<V>, n: int) -> Option<TileError>
        decreases n,
    {
        if n <= 0 {
            None
        } else {
            match self.first_failure(q, n - 1) {
                Some(e) => Some(e),
                None => self.seg_failure(
                    q[n - 1].pos(),
                    q[n].pos(),
                    tile_of_spec(q[0].pos(), self.extent as int),
                    MAX_TILE_VISITS - self.cost_upto(q, n - 1),
                ),
            }
        }
    }

    /// The error routing `polyline` reports: the first failing segment's, walking its segments in
    /// order (consecutive duplicate positions skipped); `None` when it routes.
    pub open spec fn route_failure<V: Vertex>(self, polyline: Seq<V>) -> Option<TileError> {
        let q = dedup(polyline);
        self.first_failure(q, q.len() - 1)
    }

    /// A segment routes cleanly exactly when it neither overflows nor spreads and fits the budget.
    proof fn lemma_seg_failure_none(self, a: Coord, c: Coord, r: TileId, budget: int)
        ensures
            (self.seg_failure(a, c, r, budget) is None) == (!self.seg_overflows(a, c)
                && !self.seg_spread(a, c, r) && budget >= self.seg_cost(a, c)),
    {
    }

    /// The first failure reads only the vertices it covers.
    proof fn lemma_first_failure_agree<V: Vertex>(self, q1: Seq<V>, q2: Seq<V>, n: int)
        requires
            0 <= n,
            n + 1 <= q1.len(),
            n + 1 <= q2.len(),
            forall|j: int| 0 <= j <= n ==> q1[j] == q2[j],
        ensures
            self.first_failure(q1, n) == self.first_failure(q2, n),
        decreases n,
    {
        if n > 0 {
            self.lemma_first_failure_agree(q1, q2, n - 1);
            self.lemma_cost_prefix(q1, q2, n - 1);
            assert(q1[n - 1] == q2[n - 1] && q1[n] == q2[n] && q1[0] == q2[0]);
        }
    }

    /// Once a failure is found, later segments do not change it.
    proof fn lemma_first_failure_stable<V: Vertex>(self, q: Seq<V>, n: int, m: int)
        requires
            0 <= n <= m,
            self.first_failure(q, n) is Some,
        ensures
            self.first_failure(q, m) == self.first_failure(q, n),
        decreases m - n,
    {
        if n < m {
            self.lemma_first_failure_stable(q, n, m - 1);
        }
    }

    /// A failure found at segment `s` of the deduplicated prefix `q2`, after none before it, is
    /// the failure of the whole polyline.
    proof fn lemma_route_fails_at<V: Vertex>(self, p: Seq<V>, k: int, q2: Seq<V>, s: int, e: TileError)
        requires
            self.wf(),
            0 <= k <= p.len(),
            q2 == dedup(p.take(k)),
            0 <= s,
            q2.len() == s + 2,
            self.first_failure(q2, s) is None,
            self.seg_failure(
                q2[s].pos(),
                q2[s + 1].pos(),
                tile_of_spec(q2[0].pos(), self.extent as int),
                MAX_TILE_VISITS - self.cost_upto(q2, s),
            ) == Some(e),
        ensures
            self.route_failure(p) == Some(e),
    {
        lemma_dedup_prefix(p, k, p.len() as int);
        assert(p.take(p.len() as int) =~= p);
        let d = dedup(p);
        assert(d.take(q2.len() as int) == q2);
        assert(self.first_failure(q2, s + 1) == Some(e));
        assert forall|j: int| 0 <= j <= s + 1 implies q2[j] == d[j] by {
            assert(d.take(q2.len() as int)[j] == d[j]);
        }
        self.lemma_first_failure_agree(q2, d, s + 1);
        self.lemma_first_failure_stable(d, s + 1, d.len() - 1);
    }

    /// Every segment costs at least one candidate tile.
    pub proof fn lemma_seg_cost_pos(self, a: Coord, c: Coord)
        requires
            self.wf(),
        ensures
            self.seg_cost(a, c) >= 1,
    {
        let g = self.grown(a, c);
        let e = self.extent as int;
        let w = self.window(a, c);
        vstd::arithmetic::div_mod::lemma_div_is_ordered(g.0, g.2, e);
        vstd::arithmetic::div_mod::lemma_div_is_ordered(g.1, g.3, e);
        let dx = w.2 - w.0 + 1;
        let dy = w.3 - w.1 + 1;
        assert(dx * dy >= 1) by (nonlinear_arith)
            requires
                dx >= 1,
                dy >= 1,
        ;
    }

    /// Costs only grow with more segments.
    pub proof fn lemma_cost_monotone<V: Vertex>(self, q: Seq<V>, n: int, m: int)
        requires
            self.wf(),
            0 <= n <= m,
        ensures
            self.cost_upto(q, n) <= self.cost_upto(q, m),
        decreases m - n,
    {
        if n < m {
            self.lemma_cost_monotone(q, n, m - 1);
            self.lemma_seg_cost_pos(q[m - 1].pos(), q[m].pos());
        }
    }

    /// Costs read only the vertices they cover.
    pub proof fn lemma_cost_prefix<V: Vertex>(self, q1: Seq<V>, q2: Seq<V>, n: int)
        requires
            0 <= n,
            n + 1 <= q1.len(),
            n + 1 <= q2.len(),
            forall|j: int| 0 <= j <= n ==> q1[j] == q2[j],
        ensures
            self.cost_upto(q1, n) == self.cost_upto(q2, n),
        decreases n,
    {
        if n > 0 {
            self.lemma_cost_prefix(q1, q2, n - 1);
            assert(q1[n - 1] == q2[n - 1] && q1[n] == q2[n]);
        }
    }

    /// A failure found at segment `s` of the deduplicated prefix `q2` is a failure of the whole
    /// polyline.
    proof fn lemma_prefix_fail<V: Vertex>(self, p: Seq<V>, k: int, q2: Seq<V>, s: int)
        requires
            self.wf(),
            0 <= k <= p.len(),
            q2 == dedup(p.take(k)),
            0 <= s,
            q2.len() == s + 2,
        ensures
            self.seg_overflows(q2[s].pos(), q2[s + 1].pos()) ==> self.overflows(p),
            self.seg_spread(
                q2[s].pos(),
                q2[s + 1].pos(),
                tile_of_spec(q2[0].pos(), self.extent as int),
            ) ==> self.spreads(p),
            self.cost_upto(q2, s + 1) > MAX_TILE_VISITS ==> self.spreads(p),
    {
        lemma_dedup_prefix(p, k, p.len() as int);
        assert(p.take(p.len() as int) =~= p);
        let d = dedup(p);
        assert(d.take(q2.len() as int) == q2);
        assert(d[s] == q2[s] && d[s + 1] == q2[s + 1] && d[0] == q2[0]);
        if self.cost_upto(q2, s + 1) > MAX_TILE_VISITS {
            self.lemma_cost_prefix(q2, d, s + 1);
            self.lemma_cost_monotone(d, s + 1, d.len() - 1);
        }
    }

    /// The routing result for `polyline`: one entry per touched tile holding exactly the clip runs
    /// of that tile, in its local frame.
    pub open spec fn routed<V: Vertex>(self, out: Seq<PendingTile<V>>, polyline: Seq<V>) -> bool {
        let q = dedup(polyline);
        &&& distinct_tiles(out)
        &&& forall|t: TileId| #[trigger] self.tile_state_ok(out, q, t, q.len() - 1)
    }

    /// Walk one `polyline` once, routing every segment into every tile whose buffered box it
    /// touches and building each tile's runs as it goes.
    ///
    /// Consecutive duplicate positions are skipped. Fast path: a segment lying entirely within its
    /// owner tile's inner box goes straight to that tile; the owning tile is carried across the walk.
    /// Otherwise every candidate tile in the segment's buffered bounding box is tested.
    ///
    /// `PolylineTooLarge` — more than `u16::MAX + 1` vertices; `TooManyTiles` — a segment's tiles
    /// lie more than `i16::MAX` tiles from the first vertex's tile, or the candidate tiles examined
    /// exceed the working-set bound; `Overflow` — a coordinate `± buffer`, a tile box, or a local
    /// coordinate leaves the `i32` range.
    #[verifier::spinoff_prover]
    #[verifier::rlimit(60)]
    pub fn route<V: Vertex>(self, polyline: &[V]) -> (r: Result<Vec<PendingTile<V>>, TileError>)
        requires
            self.wf(),
        ensures
            polyline@.len() > MAX_INDEXED_LEN ==> r == Err::<Vec<PendingTile<V>>, TileError>(
                TileError::PolylineTooLarge,
            ),
            match r {
                Ok(out) => self.routed(out@, polyline@) && !self.spreads(polyline@)
                    && !self.overflows(polyline@),
                Err(e) => {
                    ||| e == TileError::TooManyTiles && polyline@.len() <= MAX_INDEXED_LEN
                        && self.spreads(polyline@)
                    ||| e == TileError::Overflow && polyline@.len() <= MAX_INDEXED_LEN
                        && self.overflows(polyline@)
                    ||| e == TileError::PolylineTooLarge && polyline@.len() > MAX_INDEXED_LEN
                },
            },
            polyline@.len() <= MAX_INDEXED_LEN ==> match self.route_failure(polyline@) {
                Some(e) => r == Err::<Vec<PendingTile<V>>, TileError>(e),
                None => r is Ok,
            },
    {
        let ghost p = polyline@;
        if polyline.len() > MAX_INDEXED_LEN {
            return Err(TileError::PolylineTooLarge);
        }
        let mut out: Vec<PendingTile<V>> = Vec::new();
        if polyline.len() == 0 {
            proof {
                assert(dedup(p) =~= Seq::<V>::empty());
                assert forall|t: TileId| #[trigger] self.tile_state_ok(out@, dedup(p), t, -1) by {
                    if let Some((mn, mx)) = self.box_of(t) {
                        assert(runs_upto(dedup(p), mn, mx, -1) =~= Seq::<Seq<V>>::empty());
                    }
                }
            }
            return Ok(out);
        }
        let first = polyline[0].position();
        let reference = tile_of(first, self.extent);
        let mut budget: i64 = MAX_TILE_VISITS;
        let mut prev: V = polyline[0];
        let mut prev_loc: Option<Located> = None;
        let mut seg: usize = 0;
        let ghost mut q: Seq<V> = seq![polyline[0]];
        proof {
            lemma_dedup_step(p, 0);
            assert forall|t: TileId| #[trigger] self.tile_state_ok(out@, q, t, 0) by {
                if let Some((mn, mx)) = self.box_of(t) {
                    assert(runs_upto(q, mn, mx, 0) =~= Seq::<Seq<V>>::empty());
                    assert(!has_tile(out@, t));
                }
            }
        }
        let mut i: usize = 1;
        while i < polyline.len()
            invariant
                self.wf(),
                p == polyline@,
                1 <= i <= p.len(),
                p.len() <= MAX_INDEXED_LEN,
                q == dedup(p.take(i as int)),
                1 <= q.len() <= i,
                seg == q.len() - 1,
                prev == q.last(),
                prev_loc matches Some(l) ==> self.located_of(prev.pos()) == Some(l),
                0 <= budget <= MAX_TILE_VISITS,
                reference == tile_of_spec(p[0].pos(), self.extent as int),
                distinct_tiles(out@),
                forall|t: TileId| #[trigger] self.tile_state_ok(out@, q, t, seg as int),
                q[0] == p[0],
                budget == MAX_TILE_VISITS - self.cost_upto(q, seg as int),
                forall|j: int| 0 <= j < seg ==> #[trigger] self.seg_clean(q, j),
                seg >= 1 ==> prev_loc is Some,
                self.first_failure(q, seg as int) is None,
            decreases p.len() - i,
        {
            let c = polyline[i];
            proof {
                lemma_dedup_step(p, i as int);
            }
            let a_pos = prev.position();
            let c_pos = c.position();
            if a_pos.x == c_pos.x && a_pos.y == c_pos.y {
                // A consecutive duplicate position: skip it, keeping `prev` and its tile.
                assert(a_pos == c_pos);
                i = i + 1;
                continue ;
            }
            let ghost q2 = q.push(c);
            let ghost s = seg as int;
            proof {
                assert forall|t: TileId| #[trigger] self.tile_state_ok(out@, q2, t, s) by {
                    self.lemma_state_extend(out@, q, c, t, s);
                }
                assert(q2[s] == prev);
                assert(q2[s + 1] == c);
            }
            proof {
                assert(q2 == dedup(p.take(i + 1)));
                assert(q2[0] == p[0]);
                self.lemma_cost_prefix(q, q2, s);
                self.lemma_first_failure_agree(q, q2, s);
                assert forall|t: TileId|
                    #[trigger] self.box_of(t) is Some && s >= 1 && seg_hit(
                        q2,
                        self.box_lo(t),
                        self.box_hi(t),
                        s - 1,
                    ) implies local_of(a_pos, self.origin_of(self.box_lo(t))) is Some by {
                    assert(self.seg_clean(q, s - 1));
                    assert(q2[s - 1] == q[s - 1] && q2[s] == q[s]);
                }
            }
            let la = match prev_loc {
                Some(l) => l,
                None => match self.locate(a_pos) {
                    Ok(l) => l,
                    Err(e) => {
                        proof {
                            self.lemma_prefix_fail(p, i + 1, q2, s);
                            self.lemma_route_fails_at(p, i + 1, q2, s, e);
                        }
                        return Err(e);
                    },
                },
            };
            assert(self.located_of(a_pos) == Some(la));
            if la.contains_inner(a_pos) && la.contains_inner(c_pos) {
                // Fast path: the whole segment lies in `la`'s inner box, so it touches only that tile.
                assert(self.seg_fast(a_pos, c_pos));
                if budget < 1 {
                    proof {
                        self.lemma_prefix_fail(p, i + 1, q2, s);
                        self.lemma_route_fails_at(p, i + 1, q2, s, TileError::TooManyTiles);
                    }
                    return Err(TileError::TooManyTiles);
                }
                budget = budget - 1;
                let ghost before = out@;
                proof {
                    let (mn, mx) = self.box_of(la.owner).unwrap();
                    assert(self.tile_state_ok(before, q2, la.owner, s));
                    self.lemma_inner_exclusive(la, a_pos, c_pos, la.owner);
                    assert(self.origin_of(mn) == la.core_lo);
                    if has_tile(before, la.owner) {
                        let r0 = runs_upto(q2, mn, mx, s);
                        assert(runs_view(before[tile_index(before, la.owner)].runs@).len() == r0.len());
                    }
                }
                match emit(&mut out, la.owner, la.core_lo, prev, c, seg) {
                    Ok(()) => {},
                    Err(e) => {
                        proof {
                            self.lemma_inner_exclusive(la, a_pos, c_pos, la.owner);
                            assert(self.box_of(la.owner) is Some && touches(
                                a_pos,
                                c_pos,
                                self.box_lo(la.owner),
                                self.box_hi(la.owner),
                            ));
                            self.lemma_prefix_fail(p, i + 1, q2, s);
                            self.lemma_route_fails_at(p, i + 1, q2, s, e);
                        }
                        return Err(e);
                    },
                }
                proof {
                    let (mn, mx) = self.box_of(la.owner).unwrap();
                    if !opens_run(before, la.owner, s) {
                        let e = before[tile_index(before, la.owner)];
                        assert(seg_hit(q2, mn, mx, e.last_seg as int));
                    }
                    assert(!self.local_trouble(a_pos, c_pos)) by {
                        assert forall|t: TileId|
                            #[trigger] self.box_of(t) is Some && touches(
                                a_pos,
                                c_pos,
                                self.box_lo(t),
                                self.box_hi(t),
                            ) implies local_of(a_pos, self.origin_of(self.box_lo(t))) is Some
                            && local_of(c_pos, self.origin_of(self.box_lo(t))) is Some by {
                            self.lemma_inner_exclusive(la, a_pos, c_pos, t);
                        }
                    }
                    assert(self.seg_clean(q2, s));
                }
                proof {
                    assert forall|t: TileId| #[trigger] self.tile_state_ok(out@, q2, t, s + 1) by {
                        if t == la.owner {
                            self.lemma_state_touched(before, out@, q2, t, s);
                        } else {
                            self.lemma_state_frame(before, out@, q2, t, s);
                            if self.box_of(t) is Some {
                                self.lemma_inner_exclusive(la, a_pos, c_pos, t);
                            }
                            self.lemma_state_untouched(out@, q2, t, s);
                        }
                    }
                    self.lemma_core_owner(la, c_pos, a_pos);
                }
                prev_loc = Some(la);
            } else {
                // Slow path: route the segment through every candidate tile it might touch: the
                // tiles owning its coordinate box grown by the buffer.
                let lx = if a_pos.x <= c_pos.x {
                    a_pos.x
                } else {
                    c_pos.x
                };
                let hx = if a_pos.x <= c_pos.x {
                    c_pos.x
                } else {
                    a_pos.x
                };
                let ly = if a_pos.y <= c_pos.y {
                    a_pos.y
                } else {
                    c_pos.y
                };
                let hy = if a_pos.y <= c_pos.y {
                    c_pos.y
                } else {
                    a_pos.y
                };
                let lo_x = match lx.checked_sub(self.buffer) {
                    Some(v) => v,
                    None => {
                        proof {
                            self.lemma_prefix_fail(p, i + 1, q2, s);
                            self.lemma_route_fails_at(p, i + 1, q2, s, TileError::Overflow);
                        }
                        return Err(TileError::Overflow);
                    },
                };
                let lo_y = match ly.checked_sub(self.buffer) {
                    Some(v) => v,
                    None => {
                        proof {
                            self.lemma_prefix_fail(p, i + 1, q2, s);
                            self.lemma_route_fails_at(p, i + 1, q2, s, TileError::Overflow);
                        }
                        return Err(TileError::Overflow);
                    },
                };
                let hi_x = match hx.checked_add(self.buffer) {
                    Some(v) => v,
                    None => {
                        proof {
                            self.lemma_prefix_fail(p, i + 1, q2, s);
                            self.lemma_route_fails_at(p, i + 1, q2, s, TileError::Overflow);
                        }
                        return Err(TileError::Overflow);
                    },
                };
                let hi_y = match hy.checked_add(self.buffer) {
                    Some(v) => v,
                    None => {
                        proof {
                            self.lemma_prefix_fail(p, i + 1, q2, s);
                            self.lemma_route_fails_at(p, i + 1, q2, s, TileError::Overflow);
                        }
                        return Err(TileError::Overflow);
                    },
                };
                let lo = tile_of(Coord { x: lo_x, y: lo_y }, self.extent);
                let hi = tile_of(Coord { x: hi_x, y: hi_y }, self.extent);
                proof {
                    vstd::arithmetic::div_mod::lemma_div_is_ordered(
                        lo_x as int,
                        hi_x as int,
                        self.extent as int,
                    );
                    vstd::arithmetic::div_mod::lemma_div_is_ordered(
                        lo_y as int,
                        hi_y as int,
                        self.extent as int,
                    );
                }
                // Each extreme must stay within `i16` of the first vertex's tile.
                if !fits_i16(lo.x as i64 - reference.x as i64) || !fits_i16(
                    hi.x as i64 - reference.x as i64,
                ) || !fits_i16(lo.y as i64 - reference.y as i64) || !fits_i16(
                    hi.y as i64 - reference.y as i64,
                ) {
                    proof {
                        self.lemma_prefix_fail(p, i + 1, q2, s);
                        self.lemma_route_fails_at(p, i + 1, q2, s, TileError::TooManyTiles);
                    }
                    return Err(TileError::TooManyTiles);
                }
                let w = hi.x as i64 - lo.x as i64 + 1;
                let h = hi.y as i64 - lo.y as i64 + 1;
                assert(0 <= w * h <= 0x1_0000 * 0x1_0000) by (nonlinear_arith)
                    requires
                        1 <= w <= 0x1_0000,
                        1 <= h <= 0x1_0000,
                ;
                let cost = w * h;
                assert(cost == self.seg_cost(a_pos, c_pos));
                if budget < cost {
                    proof {
                        self.lemma_prefix_fail(p, i + 1, q2, s);
                        self.lemma_route_fails_at(p, i + 1, q2, s, TileError::TooManyTiles);
                    }
                    return Err(TileError::TooManyTiles);
                }
                budget = budget - cost;
                proof {
                    assert forall|t: TileId|
                        self.box_of(t) is Some && touches(
                            a_pos,
                            c_pos,
                            self.box_lo(t),
                            self.box_hi(t),
                        ) implies #[trigger] in_window(t, lo, hi) by {
                        self.lemma_candidates_cover(a_pos, c_pos, t);
                    }
                }
                match self.route_window(&mut out, lo, hi, prev, c, seg, Ghost(q2)) {
                    Ok(()) => {},
                    Err(e) => {
                        proof {
                            self.lemma_prefix_fail(p, i + 1, q2, s);
                            self.lemma_route_fails_at(p, i + 1, q2, s, e);
                        }
                        return Err(e);
                    },
                }
                prev_loc = Some(
                    if la.contains_core(c_pos) {
                        proof {
                            self.lemma_core_owner(la, c_pos, a_pos);
                        }
                        la
                    } else {
                        match self.locate(c_pos) {
                            Ok(l) => l,
                            Err(e) => {
                                proof {
                                    self.lemma_prefix_fail(p, i + 1, q2, s);
                                    self.lemma_route_fails_at(p, i + 1, q2, s, e);
                                }
                                return Err(e);
                            },
                        }
                    },
                );
                proof {
                    assert(self.seg_clean(q2, s));
                }
            }
            proof {
                self.lemma_seg_failure_none(
                    q2[s].pos(),
                    q2[s + 1].pos(),
                    tile_of_spec(q2[0].pos(), self.extent as int),
                    MAX_TILE_VISITS - self.cost_upto(q2, s),
                );
                assert(self.first_failure(q2, s + 1) is None);
                assert forall|j: int| 0 <= j < s + 1 implies #[trigger] self.seg_clean(q2, j) by {
                    if j < s {
                        assert(self.seg_clean(q, j));
                        assert(q2[j] == q[j] && q2[j + 1] == q[j + 1] && q2[0] == q[0]);
                    }
                }
                q = q2;
            }
            prev = c;
            seg = seg + 1;
            i = i + 1;
        }
        proof {
            assert(p.take(p.len() as int) =~= p);
            assert(!self.spreads(p)) by {
                assert forall|j: int| 0 <= j < q.len() - 1 implies !#[trigger] self.seg_spread(
                    q[j].pos(),
                    q[j + 1].pos(),
                    tile_of_spec(q[0].pos(), self.extent as int),
                ) by {
                    assert(self.seg_clean(q, j));
                }
            }
            assert(!self.overflows(p)) by {
                assert forall|j: int| 0 <= j < q.len() - 1 implies !#[trigger] self.seg_overflows(
                    q[j].pos(),
                    q[j + 1].pos(),
                ) by {
                    assert(self.seg_clean(q, j));
                }
            }
        }
        Ok(out)
    }
}


impl Grid {
    /// Route segment `a`–`c` (ordinal `seg`) into every tile of the candidate window `[lo, hi]`
    /// (row-major) whose buffered box it touches. The window must hold every touched tile.
    fn route_window<V: Vertex>(
        self,
        out: &mut Vec<PendingTile<V>>,
        lo: TileId,
        hi: TileId,
        a: V,
        c: V,
        seg: usize,
        Ghost(q2): Ghost<Seq<V>>,
    ) -> (r: Result<(), TileError>)
        requires
            self.wf(),
            lo.x <= hi.x,
            lo.y <= hi.y,
            q2.len() == seg + 2,
            q2[seg as int] == a,
            q2[seg + 1] == c,
            distinct_tiles(old(out)@),
            forall|t: TileId| #[trigger] self.tile_state_ok(old(out)@, q2, t, seg as int),
            forall|t: TileId|
                self.box_of(t) is Some && touches(a.pos(), c.pos(), self.box_lo(t), self.box_hi(t))
                    ==> #[trigger] in_window(t, lo, hi),
            forall|t: TileId|
                #[trigger] self.box_of(t) is Some && seg >= 1 && seg_hit(
                    q2,
                    self.box_lo(t),
                    self.box_hi(t),
                    seg - 1,
                ) ==> local_of(a.pos(), self.origin_of(self.box_lo(t))) is Some,
        ensures
            match r {
                Ok(()) => {
                    &&& distinct_tiles(final(out)@)
                    &&& forall|t: TileId| #[trigger]
                        self.tile_state_ok(final(out)@, q2, t, seg + 1)
                    &&& forall|t: TileId| in_window(t, lo, hi) ==> #[trigger] self.box_of(t) is Some
                    &&& !self.local_trouble(a.pos(), c.pos())
                },
                Err(e) => {
                    &&& e == TileError::Overflow
                    &&& (exists|t: TileId| in_window(t, lo, hi) && #[trigger] self.box_of(t) is None)
                        || self.local_trouble(a.pos(), c.pos())
                },
            },
    {
        let ghost s = seg as int;
        let a_pos = a.position();
        let c_pos = c.position();
        let prev = a;
        proof {
            assert forall|t: TileId| #[trigger]
                self.scan_state_ok(out@, q2, t, lo, hi, lo.x as int, lo.y as int, s) by {
                assert(self.tile_state_ok(out@, q2, t, s));
            }
        }
        let mut ty: i64 = lo.y as i64;
        while ty <= hi.y as i64
            invariant
                self.wf(),
                lo.y <= ty <= hi.y + 1,
                lo.x <= hi.x,
                q2.len() == s + 2,
                0 <= s,
                q2[s] == a,
                q2[s + 1] == c,
                prev == a,
                a_pos == prev.pos(),
                c_pos == c.pos(),
                seg == s,
                distinct_tiles(out@),
                forall|t: TileId| #[trigger]
                    self.scan_state_ok(out@, q2, t, lo, hi, lo.x as int, ty as int, s),
                forall|t: TileId|
                    #[trigger] self.box_of(t) is Some && s >= 1 && seg_hit(
                        q2,
                        self.box_lo(t),
                        self.box_hi(t),
                        s - 1,
                    ) ==> local_of(a_pos, self.origin_of(self.box_lo(t))) is Some,
                forall|t: TileId|
                    scanned(t, lo, hi, lo.x as int, ty as int) ==> #[trigger] self.scan_good(
                        t,
                        a_pos,
                        c_pos,
                    ),
            decreases hi.y + 1 - ty,
        {
            let mut tx: i64 = lo.x as i64;
            while tx <= hi.x as i64
                invariant
                    self.wf(),
                    lo.x <= tx <= hi.x + 1,
                    lo.y <= ty <= hi.y,
                    q2.len() == s + 2,
                    0 <= s,
                    q2[s] == a,
                    q2[s + 1] == c,
                    prev == a,
                    a_pos == prev.pos(),
                    c_pos == c.pos(),
                    seg == s,
                    distinct_tiles(out@),
                    forall|t: TileId| #[trigger]
                        self.scan_state_ok(out@, q2, t, lo, hi, tx as int, ty as int, s),
                    forall|t: TileId|
                        #[trigger] self.box_of(t) is Some && s >= 1 && seg_hit(
                            q2,
                            self.box_lo(t),
                            self.box_hi(t),
                            s - 1,
                        ) ==> local_of(a_pos, self.origin_of(self.box_lo(t))) is Some,
                    forall|t: TileId|
                        scanned(t, lo, hi, tx as int, ty as int) ==> #[trigger] self.scan_good(
                            t,
                            a_pos,
                            c_pos,
                        ),
                decreases hi.x + 1 - tx,
            {
                let tile = TileId::new(tx as i32, ty as i32);
                let (mn, mx) = match self.tile_buffered_bounds(tile) {
                    Ok(bx) => bx,
                    Err(e) => {
                        assert(in_window(tile, lo, hi) && self.box_of(tile) is None);
                        return Err(e);
                    },
                };
                let ghost before = out@;
                proof {
                    assert(self.scan_state_ok(before, q2, tile, lo, hi, tx as int, ty as int, s));
                    assert(!scanned(tile, lo, hi, tx as int, ty as int));
                }
                if segment_intersects(a_pos, c_pos, mn, mx) {
                    proof {
                        if has_tile(before, tile) {
                            let r0 = runs_upto(q2, mn, mx, s);
                            assert(runs_view(before[tile_index(before, tile)].runs@).len()
                                == r0.len());
                        }
                    }
                    let origin = Coord { x: mn.x + self.buffer, y: mn.y + self.buffer };
                    assert(origin == self.origin_of(self.box_lo(tile)));
                    match emit(out, tile, origin, prev, c, seg) {
                        Ok(()) => {},
                        Err(e) => {
                            assert(self.box_of(tile) is Some && touches(
                                a_pos,
                                c_pos,
                                self.box_lo(tile),
                                self.box_hi(tile),
                            ));
                            return Err(e);
                        },
                    }
                    proof {
                        if !opens_run(before, tile, s) {
                            let e = before[tile_index(before, tile)];
                            assert(self.tile_state_ok(before, q2, tile, s));
                            assert(seg_hit(q2, mn, mx, e.last_seg as int));
                        }
                        assert(self.scan_good(tile, a_pos, c_pos));
                        self.lemma_state_touched(before, out@, q2, tile, s);
                        assert forall|t: TileId| t != tile implies #[trigger] self.scan_state_ok(
                            out@,
                            q2,
                            t,
                            lo,
                            hi,
                            tx as int,
                            ty as int,
                            s,
                        ) by {
                            assert(self.scan_state_ok(before, q2, t, lo, hi, tx as int, ty as int, s));
                            self.lemma_state_frame(
                                before,
                                out@,
                                q2,
                                t,
                                if scanned(t, lo, hi, tx as int, ty as int) {
                                    s + 1
                                } else {
                                    s
                                },
                            );
                        }
                    }
                } else {
                    proof {
                        self.lemma_state_untouched(out@, q2, tile, s);
                        assert(self.scan_good(tile, a_pos, c_pos));
                    }
                }
                proof {
                    assert forall|t: TileId|
                        scanned(t, lo, hi, tx + 1, ty as int) implies #[trigger] self.scan_good(
                        t,
                        a_pos,
                        c_pos,
                    ) by {
                        if t != tile {
                            assert(scanned(t, lo, hi, tx as int, ty as int));
                        }
                    }
                    assert forall|t: TileId| #[trigger]
                        self.scan_state_ok(out@, q2, t, lo, hi, tx + 1, ty as int, s) by {
                        if t == tile {
                            assert(scanned(t, lo, hi, tx + 1, ty as int));
                        } else {
                            assert(self.scan_state_ok(out@, q2, t, lo, hi, tx as int, ty as int, s));
                            assert(scanned(t, lo, hi, tx + 1, ty as int) == scanned(
                                t,
                                lo,
                                hi,
                                tx as int,
                                ty as int,
                            ));
                        }
                    }
                }
                tx = tx + 1;
            }
            proof {
                assert forall|t: TileId|
                    scanned(t, lo, hi, lo.x as int, ty + 1) implies #[trigger] self.scan_good(
                    t,
                    a_pos,
                    c_pos,
                ) by {
                    assert(scanned(t, lo, hi, tx as int, ty as int));
                }
                assert forall|t: TileId| #[trigger]
                    self.scan_state_ok(out@, q2, t, lo, hi, lo.x as int, ty + 1, s) by {
                    assert(self.scan_state_ok(out@, q2, t, lo, hi, tx as int, ty as int, s));
                    assert(scanned(t, lo, hi, lo.x as int, ty + 1) == scanned(
                        t,
                        lo,
                        hi,
                        tx as int,
                        ty as int,
                    ));
                }
            }
            ty = ty + 1;
        }
        proof {
            assert forall|t: TileId| #[trigger] self.tile_state_ok(out@, q2, t, s + 1) by {
                assert(self.scan_state_ok(out@, q2, t, lo, hi, lo.x as int, ty as int, s));
                if !scanned(t, lo, hi, lo.x as int, ty as int) {
                    if self.box_of(t) is Some && touches(
                        a_pos,
                        c_pos,
                        self.box_lo(t),
                        self.box_hi(t),
                    ) {
                        self.lemma_candidates_cover(a_pos, c_pos, t);
                        assert(in_window(t, lo, hi));
                    }
                    self.lemma_state_untouched(out@, q2, t, s);
                }
            }
            assert forall|t: TileId| in_window(t, lo, hi) implies #[trigger] self.box_of(t) is Some by {
                assert(scanned(t, lo, hi, lo.x as int, ty as int));
                assert(self.scan_good(t, a_pos, c_pos));
            }
            assert(!self.local_trouble(a_pos, c_pos)) by {
                assert forall|t: TileId|
                    #[trigger] self.box_of(t) is Some && touches(
                        a_pos,
                        c_pos,
                        self.box_lo(t),
                        self.box_hi(t),
                    ) implies local_of(a_pos, self.origin_of(self.box_lo(t))) is Some && local_of(
                    c_pos,
                    self.origin_of(self.box_lo(t)),
                ) is Some by {
                    self.lemma_candidates_cover(a_pos, c_pos, t);
                    assert(in_window(t, lo, hi));
                    assert(scanned(t, lo, hi, lo.x as int, ty as int));
                    assert(self.scan_good(t, a_pos, c_pos));
                }
            }
        }
        Ok(())
    }
}

/// `p` with every vertex repeated in place.
pub open spec fn doubled<V>(p: Seq<V>) -> Seq<V>
    decreases p.len(),
{
    if p.len() == 0 {
        Seq::empty()
    } else {
        doubled(p.drop_last()).push(p.last()).push(p.last())
    }
}

/// Deduplicating `s` followed by `x` depends only on `s`'s deduplication and `x`, and ends at
/// `x`'s position.
proof fn lemma_dedup_push<V: Vertex>(s: Seq<V>, x: V)
    ensures
        dedup(s.push(x)) == (if dedup(s).len() > 0 && dedup(s).last().pos() == x.pos() {
            dedup(s)
        } else {
            dedup(s).push(x)
        }),
        dedup(s.push(x)).len() > 0,
        dedup(s.push(x)).last().pos() == x.pos(),
{
    assert(s.push(x).drop_last() =~= s);
}

/// Repeating every vertex of a polyline changes nothing a slicer sees: the deduplicated polyline
/// is the same, so every tile's runs, the routing error and both failure tests agree.
pub proof fn law_doubled_vertices_ignored<V: Vertex>(grid: Grid, p: Seq<V>)
    ensures
        dedup(doubled(p)) == dedup(p),
        forall|t: TileId| #[trigger] grid.slice_one_spec(doubled(p), t) == grid.slice_one_spec(p, t),
        grid.spreads(doubled(p)) == grid.spreads(p),
        grid.overflows(doubled(p)) == grid.overflows(p),
        grid.route_failure(doubled(p)) == grid.route_failure(p),
    decreases p.len(),
{
    if p.len() > 0 {
        let x = p.last();
        let d = doubled(p.drop_last());
        law_doubled_vertices_ignored(grid, p.drop_last());
        lemma_dedup_push(d, x);
        lemma_dedup_push(d.push(x), x);
        lemma_dedup_push(p.drop_last(), x);
        assert(p.drop_last().push(x) =~= p);
        assert(dedup(doubled(p)) == dedup(p));
    }
}

/// A segment whose line leaves a tile's buffered box strictly on one side is clipped to nothing
/// in that tile, however its bounding box overlaps the box: the tile gets no run from it.
pub proof fn law_separated_segment_clipped_nowhere<V: Vertex>(grid: Grid, a: V, b: V, t: TileId)
    requires
        grid.box_of(t) is Some,
        corners_left(a.pos(), b.pos(), grid.box_lo(t), grid.box_hi(t)) || corners_left(
            b.pos(),
            a.pos(),
            grid.box_lo(t),
            grid.box_hi(t),
        ),
    ensures
        grid.slice_one_spec(seq![a, b], t) == Ok::<Seq<Seq<V>>, TileError>(Seq::empty()),
{
    let min = grid.box_lo(t);
    let max = grid.box_hi(t);
    law_touches_is_contact(a.pos(), b.pos(), min, max, 0, 1);
    let p = seq![a, b];
    assert(p.drop_last() =~= seq![a]);
    assert(seq![a].drop_last() =~= Seq::<V>::empty());
    assert(dedup(Seq::<V>::empty()) == Seq::<V>::empty());
    assert(dedup(seq![a]) =~= seq![a]);
    let q = dedup(p);
    if a.pos() == b.pos() {
        assert(q =~= seq![a]);
    } else {
        assert(q =~= seq![a, b]);
        assert(!seg_hit(q, min, max, 0));
        assert(runs_upto(q, min, max, 1) == runs_upto(q, min, max, 0));
    }
    assert(runs_upto(q, min, max, 0) =~= Seq::<Seq<V>>::empty());
    let o = Coord { x: (min.x + grid.buffer) as i32, y: (min.y + grid.buffer) as i32 };
    assert(clip_runs(q, min, max) =~= Seq::<Seq<V>>::empty());
    assert(localized_runs(Seq::<Seq<V>>::empty(), o) =~= Seq::<Seq<V>>::empty());
}

/// `v` fits `i16`.
pub open spec fn fits16(v: int) -> bool {
    -0x8000 <= v <= 0x7fff
}

/// Whether an `i64` value fits an `i16`.
fn fits_i16(v: i64) -> (r: bool)
    ensures
        r == (-0x8000 <= v <= 0x7fff),
{
    -0x8000 <= v && v <= 0x7fff
}

} // verus!
