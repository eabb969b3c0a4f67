//! A mosaic whose edges trace one simple path reassembles into exactly that path.

use vstd::prelude::*;

use crate::mosaic::{
    arriving, carried, chain_carried, ends_maximal, has_key, key_of, key_set, leaving,
    starts_maximal, step_carried,
};
use crate::stitch::{chain_keys, run_keys};
use crate::tile::TileId;
use crate::vertex::{Coord, Vertex};

verus! {

/// The directed edges of the path through the positions `ps`, one position after another.
pub open spec fn path_keys(ps: Seq<Coord>) -> Set<(Coord, Coord)> {
    Set::new(
        |k: (Coord, Coord)| exists|i: int| 0 <= i < ps.len() - 1 && k == (#[trigger] ps[i], ps[i + 1]),
    )
}

/// Consecutive positions of a feature form a present edge.
proof fn lemma_step_key<V: Vertex>(m: Map<TileId, Map<(Coord, Coord), (V, V)>>, f: Seq<V>, j: int)
    requires
        chain_carried(m, f),
        1 <= j < f.len(),
    ensures
        has_key(m, (f[j - 1].pos(), f[j].pos())),
{
    assert(step_carried(m, f, j));
    let e = choose|e: (V, V)|
        #[trigger] carried(m, e) && key_of(e) == (f[j - 1].pos(), f[j].pos()) && e.1 == f[j] && (j
            == 1 ==> e.0 == f[0]);
    let u = choose|u: TileId| #[trigger] m.contains_key(u) && m[u].contains_key(key_of(e)) && m[u][key_of(e)] == e;
    assert(m.contains_key(u) && m[u].contains_key(key_of(e)));
}

/// A feature over the edges of a simple path walks the path's positions one after another,
/// from some position `i0` on.
proof fn lemma_walks_path<V: Vertex>(
    m: Map<TileId, Map<(Coord, Coord), (V, V)>>,
    ps: Seq<Coord>,
    f: Seq<V>,
) -> (i0: int)
    requires
        ps.no_duplicates(),
        key_set(m) == path_keys(ps),
        chain_carried(m, f),
        f.len() >= 2,
    ensures
        0 <= i0,
        i0 + f.len() <= ps.len(),
        forall|j: int| 0 <= j < f.len() ==> (#[trigger] f[j]).pos() == ps[i0 + j],
    decreases f.len(),
{
    let n = f.len() as int;
    lemma_step_key(m, f, n - 1);
    let k = (f[n - 2].pos(), f[n - 1].pos());
    assert(key_set(m).contains(k));
    assert(path_keys(ps).contains(k));
    let i = choose|i: int| 0 <= i < ps.len() - 1 && k == (#[trigger] ps[i], ps[i + 1]);
    if n == 2 {
        assert forall|j: int| 0 <= j < f.len() implies (#[trigger] f[j]).pos() == ps[i + j] by {}
        i
    } else {
        let g = f.drop_last();
        assert forall|j: int| 1 <= j < g.len() implies #[trigger] step_carried(m, g, j) by {
            assert(step_carried(m, f, j));
            assert(g[j - 1] == f[j - 1] && g[j] == f[j] && g[0] == f[0]);
        }
        let i0 = lemma_walks_path(m, ps, g);
        assert(g[n - 2] == f[n - 2]);
        assert(ps[i0 + n - 2] == ps[i]);
        assert(i0 + n - 2 == i);
        assert forall|j: int| 0 <= j < f.len() implies (#[trigger] f[j]).pos() == ps[i0 + j] by {
            if j < n - 1 {
                assert(g[j] == f[j]);
            }
        }
        i0
    }
}

/// Along a simple path, one edge leaves every position but the last, and one arrives at every
/// position but the first.
proof fn lemma_path_degrees(ps: Seq<Coord>, i: int)
    requires
        ps.no_duplicates(),
        0 <= i < ps.len(),
    ensures
        leaving(path_keys(ps), ps[i]).len() == (if i < ps.len() - 1 {
            1int
        } else {
            0int
        }),
        arriving(path_keys(ps), ps[i]).len() == (if i > 0 {
            1int
        } else {
            0int
        }),
{
    let ks = path_keys(ps);
    if i < ps.len() - 1 {
        assert(leaving(ks, ps[i]) =~= set![(ps[i], ps[i + 1])]) by {
            assert(ks.contains((ps[i], ps[i + 1])));
            assert forall|k: (Coord, Coord)| leaving(ks, ps[i]).contains(k) implies k == (
                ps[i],
                ps[i + 1],
            ) by {
                let j = choose|j: int| 0 <= j < ps.len() - 1 && k == (#[trigger] ps[j], ps[j + 1]);
                assert(ps[j] == ps[i]);
            }
        }
    } else {
        assert(leaving(ks, ps[i]) =~= Set::<(Coord, Coord)>::empty()) by {
            assert forall|k: (Coord, Coord)| !leaving(ks, ps[i]).contains(k) by {
                if leaving(ks, ps[i]).contains(k) {
                    let j = choose|j: int| 0 <= j < ps.len() - 1 && k == (#[trigger] ps[j], ps[j + 1]);
                    assert(ps[j] == ps[i]);
                }
            }
        }
    }
    if i > 0 {
        assert(arriving(ks, ps[i]) =~= set![(ps[i - 1], ps[i])]) by {
            assert(ks.contains((ps[i - 1], ps[i])));
            assert forall|k: (Coord, Coord)| arriving(ks, ps[i]).contains(k) implies k == (
                ps[i - 1],
                ps[i],
            ) by {
                let j = choose|j: int| 0 <= j < ps.len() - 1 && k == (#[trigger] ps[j], ps[j + 1]);
                assert(ps[j + 1] == ps[i]);
            }
        }
    } else {
        assert(arriving(ks, ps[i]) =~= Set::<(Coord, Coord)>::empty()) by {
            assert forall|k: (Coord, Coord)| !arriving(ks, ps[i]).contains(k) by {
                if arriving(ks, ps[i]).contains(k) {
                    let j = choose|j: int| 0 <= j < ps.len() - 1 && k == (#[trigger] ps[j], ps[j + 1]);
                    assert(ps[j + 1] == ps[i]);
                }
            }
        }
    }
}

/// The keys of the first `c` features lead the keys of them all.
proof fn lemma_keys_prefix<V: Vertex>(fs: Seq<Seq<V>>, c: int)
    requires
        0 <= c <= fs.len(),
    ensures
        chain_keys(fs.take(c)).len() <= chain_keys(fs).len(),
        chain_keys(fs).take(chain_keys(fs.take(c)).len() as int) == chain_keys(fs.take(c)),
    decreases fs.len(),
{
    if c == fs.len() {
        assert(fs.take(c) =~= fs);
        assert(chain_keys(fs).take(chain_keys(fs).len() as int) =~= chain_keys(fs));
    } else {
        let g = fs.drop_last();
        lemma_keys_prefix(g, c);
        assert(g.take(c) =~= fs.take(c));
        let a = chain_keys(g);
        let b = chain_keys(fs.take(c));
        assert(chain_keys(fs) == a + run_keys(fs.last()));
        assert((a + run_keys(fs.last())).take(b.len() as int) =~= a.take(b.len() as int));
    }
}

/// Feature `c`'s keys sit in the keys of all features right after those of the features before
/// it.
proof fn lemma_keys_at<V: Vertex>(fs: Seq<Seq<V>>, c: int, j: int)
    requires
        0 <= c < fs.len(),
        0 <= j < run_keys(fs[c]).len(),
    ensures
        chain_keys(fs.take(c)).len() + j < chain_keys(fs.take(c + 1)).len(),
        chain_keys(fs.take(c + 1)).len() <= chain_keys(fs).len(),
        chain_keys(fs)[chain_keys(fs.take(c)).len() + j] == run_keys(fs[c])[j],
{
    let t1 = fs.take(c + 1);
    assert(t1.drop_last() =~= fs.take(c));
    assert(t1.last() == fs[c]);
    assert(chain_keys(t1) == chain_keys(fs.take(c)) + run_keys(fs[c]));
    lemma_keys_prefix(fs, c + 1);
    let x = chain_keys(fs.take(c)).len() + j;
    assert(chain_keys(fs).take(chain_keys(t1).len() as int)[x] == chain_keys(t1)[x]);
}

/// A mosaic whose edges are exactly those of one simple path (distinct positions, at least two)
/// reassembles into that path alone: the features `iter_features` states, whole and maximal and
/// walking each edge once, are then a single feature through the path's positions in order.
pub proof fn law_simple_path_reassembles_whole<V: Vertex>(
    m: Map<TileId, Map<(Coord, Coord), (V, V)>>,
    ps: Seq<Coord>,
    fs: Seq<Seq<V>>,
)
    requires
        ps.len() >= 2,
        ps.no_duplicates(),
        key_set(m) == path_keys(ps),
        forall|c: int| 0 <= c < fs.len() ==> #[trigger] fs[c].len() >= 2,
        forall|c: int| 0 <= c < fs.len() ==> chain_carried(m, #[trigger] fs[c]),
        chain_keys(fs).no_duplicates(),
        forall|k: (Coord, Coord)| chain_keys(fs).contains(k) <==> has_key(m, k),
        forall|c: int| 0 <= c < fs.len() ==> #[trigger] starts_maximal(m, fs[c]),
        forall|c: int| 0 <= c < fs.len() ==> #[trigger] ends_maximal(m, fs, c),
    ensures
        fs.len() == 1,
        fs[0].len() == ps.len(),
        forall|j: int| 0 <= j < ps.len() ==> (#[trigger] fs[0][j]).pos() == ps[j],
{
    let k0 = (ps[0], ps[1]);
    assert(path_keys(ps).contains(k0));
    assert(has_key(m, k0)) by {
        assert(key_set(m).contains(k0));
    }
    // Every feature starts at the path's first position.
    assert forall|c: int| 0 <= c < fs.len() implies (#[trigger] fs[c])[0].pos() == ps[0] by {
        let f = fs[c];
        let i0 = lemma_walks_path(m, ps, f);
        assert(f.last() == f[f.len() - 1]);
        assert(f[0].pos() == ps[i0] && f.last().pos() == ps[i0 + f.len() - 1]);
        assert(ps[i0] != ps[i0 + f.len() - 1]);
        lemma_path_degrees(ps, i0);
        assert(starts_maximal(m, f));
        assert(i0 == 0);
    }
    // Hence every feature's first key is the path's first edge, which occurs once.
    assert(fs.len() >= 1) by {
        assert(chain_keys(fs).contains(k0));
        if fs.len() == 0 {
            assert(chain_keys(fs) =~= Seq::<(Coord, Coord)>::empty());
        }
    }
    assert forall|c: int| 0 <= c < fs.len() implies run_keys(#[trigger] fs[c])[0] == k0 by {
        let i0 = lemma_walks_path(m, ps, fs[c]);
        assert(fs[c][0].pos() == ps[0]);
        assert(ps[i0] == ps[0]);
        assert(i0 == 0);
    }
    if fs.len() >= 2 {
        lemma_keys_at(fs, 0, 0);
        lemma_keys_at(fs, 1, 0);
        assert(fs.take(0) =~= Seq::<Seq<V>>::empty());
        assert(chain_keys(fs.take(0)) =~= Seq::<(Coord, Coord)>::empty());
        let x1 = chain_keys(fs.take(1)).len() as int;
        assert(chain_keys(fs)[0] == k0);
        assert(chain_keys(fs)[x1] == k0);
        assert(x1 > 0);
        assert(false);
    }
    // The single feature walks the path from its start and stops only at its end.
    let f = fs[0];
    let i0 = lemma_walks_path(m, ps, f);
    assert(f[0].pos() == ps[0]);
    assert(ps[i0] == ps[0]);
    assert(i0 == 0);
    let n = f.len() as int;
    if n < ps.len() {
        let k = (ps[n - 1], ps[n]);
        assert(path_keys(ps).contains(k));
        assert(key_set(m).contains(k));
        assert(f.last() == f[n - 1]);
        assert(ends_maximal(m, fs, 0));
        assert(fs.take(1) =~= seq![f]);
        assert(seq![f].drop_last() =~= Seq::<Seq<V>>::empty());
        assert(chain_keys(seq![f]) == chain_keys(Seq::<Seq<V>>::empty()) + run_keys(f));
        assert(chain_keys(Seq::<Seq<V>>::empty()) =~= Seq::<(Coord, Coord)>::empty());
        assert(chain_keys(fs.take(1)).contains(k));
        assert(run_keys(f).contains(k));
        let j = choose|j: int| 0 <= j < run_keys(f).len() && run_keys(f)[j] == k;
        assert(f[j].pos() == ps[j]);
        assert(ps[j] == ps[n - 1]);
    }
}

} // verus!
