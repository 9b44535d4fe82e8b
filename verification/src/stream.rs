//! Chunk streaming around the player: which chunks to generate and which
//! to re-mesh this frame, nearest first, within per-frame budgets.
use vstd::prelude::*;
use crate::world::{World, key_u64};

verus! {

/// Which chunks of the square around the player a listing picks.
#[derive(Clone, Copy, PartialEq, Eq, Debug, Structural)]
pub enum ChunkFilter {
    /// Chunks that are not loaded.
    Missing,
    /// Loaded chunks whose mesh is out of date.
    Dirty,
}

pub open spec fn dist2(dx: int, dz: int) -> int {
    dx * dx + dz * dz
}

/// Lexicographic order on (distance, x, z) keys.
pub open spec fn key_lt(a: (int, int, int), b: (int, int, int)) -> bool {
    a.0 < b.0 || (a.0 == b.0 && (a.1 < b.1 || (a.1 == b.1 && a.2 < b.2)))
}

/// Chunks are visited by squared distance from (pcx, pcz), then by x, then by z.
pub open spec fn order_key(pcx: int, pcz: int, c: (i32, i32)) -> (int, int, int) {
    (dist2(c.0 - pcx, c.1 - pcz), c.0 as int, c.1 as int)
}

/// Chunk `c` lies within `reach` chunks of (pcx, pcz) on both axes.
pub open spec fn in_square(pcx: int, pcz: int, reach: int, c: (i32, i32)) -> bool {
    -reach <= c.0 - pcx <= reach && -reach <= c.1 - pcz <= reach
}

pub open spec fn selected(w: World, f: ChunkFilter, c: (i32, i32)) -> bool {
    match f {
        ChunkFilter::Missing => !w.loaded(c.0 as int, c.1 as int),
        ChunkFilter::Dirty => w.loaded(c.0 as int, c.1 as int) && w.chunks@[key_u64(c.0 as int, c.1 as int)].dirty,
    }
}

/// `l` lists exactly the chunks of the square that the filter picks, each
/// once, nearest first.
pub open spec fn is_listing(w: World, pcx: int, pcz: int, reach: int, f: ChunkFilter, l: Seq<(i32, i32)>) -> bool {
    &&& forall|j: int, k: int| 0 <= j < k < l.len() ==> key_lt(order_key(pcx, pcz, #[trigger] l[j]), order_key(pcx, pcz, #[trigger] l[k]))
    &&& forall|j: int| 0 <= j < l.len() ==> in_square(pcx, pcz, reach, #[trigger] l[j]) && selected(w, f, l[j])
    &&& forall|c: (i32, i32)| in_square(pcx, pcz, reach, c) && selected(w, f, c) ==> exists|j: int| 0 <= j < l.len() && #[trigger] l[j] == c
}

/// Whether the filter picks chunk `c`.
fn picks(w: &World, f: ChunkFilter, c: (i32, i32)) -> (r: bool)
    ensures
        r == selected(*w, f, c),
{
    match f {
        ChunkFilter::Missing => !w.is_loaded(c.0, c.1),
        ChunkFilter::Dirty => match w.chunk(c.0, c.1) {
            Some(ch) => ch.dirty,
            None => false,
        },
    }
}

/// Chunk `c`'s key comes before position (d, x, z) of the scan.
pub open spec fn before(pcx: int, pcz: int, c: (i32, i32), d: int, x: int, z: int) -> bool {
    key_lt(order_key(pcx, pcz, c), (d, x, z))
}

/// The chunks within `reach` of (pcx, pcz) that the filter picks, nearest
/// first (ties by x, then z). `reach` is at most 32767, so that squared
/// chunk distances fit in an `i32`.
pub fn chunks_by_distance(w: &World, pcx: i32, pcz: i32, reach: i32, f: ChunkFilter) -> (r: Vec<(i32, i32)>)
    requires
        -0x4000_0000 <= pcx <= 0x4000_0000,
        -0x4000_0000 <= pcz <= 0x4000_0000,
        0 <= reach <= 32767,
    ensures
        is_listing(*w, pcx as int, pcz as int, reach as int, f, r@),
{
    let mut r: Vec<(i32, i32)> = Vec::new();
    assert(reach * reach <= 1073676289) by (nonlinear_arith)
        requires
            0 <= reach <= 32767,
    ;
    let maxd: i32 = 2 * (reach * reach);
    let mut d: i32 = 0;
    proof {
        assert forall|c: (i32, i32)| in_square(pcx as int, pcz as int, reach as int, c) implies order_key(pcx as int, pcz as int, c).0 >= 0 by {
            let dx = c.0 - pcx;
            let dz = c.1 - pcz;
            assert(dx * dx >= 0 && dz * dz >= 0) by (nonlinear_arith);
        }
    }
    while d <= maxd
        invariant
            -0x4000_0000 <= pcx <= 0x4000_0000,
            -0x4000_0000 <= pcz <= 0x4000_0000,
            0 <= reach <= 32767,
            maxd == 2 * (reach * reach),
            maxd <= 2147352578,
            0 <= d <= maxd + 1,
            forall|j: int, k: int| 0 <= j < k < r@.len() ==> key_lt(order_key(pcx as int, pcz as int, #[trigger] r@[j]), order_key(pcx as int, pcz as int, #[trigger] r@[k])),
            forall|j: int| 0 <= j < r@.len() ==> in_square(pcx as int, pcz as int, reach as int, #[trigger] r@[j]) && selected(*w, f, r@[j]) && order_key(pcx as int, pcz as int, r@[j]).0 < d,
            forall|c: (i32, i32)| in_square(pcx as int, pcz as int, reach as int, c) && selected(*w, f, c) && order_key(pcx as int, pcz as int, c).0 < d ==> exists|j: int| 0 <= j < r@.len() && #[trigger] r@[j] == c,
        decreases maxd + 1 - d,
    {
        let mut dx: i32 = -reach;
        proof {
            assert forall|c: (i32, i32)| in_square(pcx as int, pcz as int, reach as int, c) implies before(pcx as int, pcz as int, c, d as int, pcx - reach, pcz - reach) == (order_key(pcx as int, pcz as int, c).0 < d) by {}
        }
        while dx <= reach
            invariant
                -0x4000_0000 <= pcx <= 0x4000_0000,
                -0x4000_0000 <= pcz <= 0x4000_0000,
                0 <= reach <= 32767,
                0 <= d <= maxd,
                -reach <= dx <= reach + 1,
                forall|j: int, k: int| 0 <= j < k < r@.len() ==> key_lt(order_key(pcx as int, pcz as int, #[trigger] r@[j]), order_key(pcx as int, pcz as int, #[trigger] r@[k])),
                forall|j: int| 0 <= j < r@.len() ==> in_square(pcx as int, pcz as int, reach as int, #[trigger] r@[j]) && selected(*w, f, r@[j]) && before(pcx as int, pcz as int, r@[j], d as int, pcx + dx, pcz - reach),
                forall|c: (i32, i32)| in_square(pcx as int, pcz as int, reach as int, c) && selected(*w, f, c) && before(pcx as int, pcz as int, c, d as int, pcx + dx, pcz - reach) ==> exists|j: int| 0 <= j < r@.len() && #[trigger] r@[j] == c,
            decreases reach + 1 - dx,
        {
            let mut dz: i32 = -reach;
            while dz <= reach
                invariant
                    -0x4000_0000 <= pcx <= 0x4000_0000,
                    -0x4000_0000 <= pcz <= 0x4000_0000,
                    0 <= reach <= 32767,
                    0 <= d <= maxd,
                    -reach <= dx <= reach,
                    -reach <= dz <= reach + 1,
                    forall|j: int, k: int| 0 <= j < k < r@.len() ==> key_lt(order_key(pcx as int, pcz as int, #[trigger] r@[j]), order_key(pcx as int, pcz as int, #[trigger] r@[k])),
                    forall|j: int| 0 <= j < r@.len() ==> in_square(pcx as int, pcz as int, reach as int, #[trigger] r@[j]) && selected(*w, f, r@[j]) && before(pcx as int, pcz as int, r@[j], d as int, pcx + dx, pcz + dz),
                    forall|c: (i32, i32)| in_square(pcx as int, pcz as int, reach as int, c) && selected(*w, f, c) && before(pcx as int, pcz as int, c, d as int, pcx + dx, pcz + dz) ==> exists|j: int| 0 <= j < r@.len() && #[trigger] r@[j] == c,
                decreases reach + 1 - dz,
            {
                let ghost r0 = r@;
                assert(dx * dx <= 1073676289 && dz * dz <= 1073676289) by (nonlinear_arith)
                    requires
                        -32767 <= dx <= 32767,
                        -32767 <= dz <= 32767,
                ;
                assert(dx * dx >= 0 && dz * dz >= 0) by (nonlinear_arith);
                if dx * dx + dz * dz == d {
                    let c = (pcx + dx, pcz + dz);
                    if picks(w, f, c) {
                        r.push(c);
                        proof {
                            assert forall|j: int, k: int| 0 <= j < k < r@.len() implies key_lt(order_key(pcx as int, pcz as int, #[trigger] r@[j]), order_key(pcx as int, pcz as int, #[trigger] r@[k])) by {
                                if k == r@.len() - 1 {
                                    assert(before(pcx as int, pcz as int, r0[j], d as int, pcx + dx, pcz + dz));
                                } else {
                                    assert(r@[j] == r0[j] && r@[k] == r0[k]);
                                }
                            }
                        }
                    }
                }
                proof {
                    assert forall|j: int| 0 <= j < r@.len() implies in_square(pcx as int, pcz as int, reach as int, #[trigger] r@[j]) && selected(*w, f, r@[j]) && before(pcx as int, pcz as int, r@[j], d as int, pcx + dx, pcz + dz + 1) by {
                        if j < r0.len() {
                            assert(r@[j] == r0[j]);
                        }
                    }
                    assert forall|c: (i32, i32)| in_square(pcx as int, pcz as int, reach as int, c) && selected(*w, f, c) && before(pcx as int, pcz as int, c, d as int, pcx + dx, pcz + dz + 1) implies exists|j: int| 0 <= j < r@.len() && #[trigger] r@[j] == c by {
                        if before(pcx as int, pcz as int, c, d as int, pcx + dx, pcz + dz) {
                            let j = choose|j: int| 0 <= j < r0.len() && #[trigger] r0[j] == c;
                            assert(r@[j] == c);
                        } else {
                            assert(c.0 == pcx + dx && c.1 == pcz + dz);
                            assert(r@[r@.len() - 1] == c);
                        }
                    }
                }
                dz += 1;
            }
            proof {
                assert forall|c: (i32, i32)| in_square(pcx as int, pcz as int, reach as int, c) implies before(pcx as int, pcz as int, c, d as int, pcx + dx, pcz + reach + 1) == before(pcx as int, pcz as int, c, d as int, pcx + dx + 1, pcz - reach) by {}
            }
            dx += 1;
        }
        proof {
            assert forall|c: (i32, i32)| in_square(pcx as int, pcz as int, reach as int, c) implies before(pcx as int, pcz as int, c, d as int, pcx + reach + 1, pcz - reach) == (order_key(pcx as int, pcz as int, c).0 < d + 1) by {}
        }
        d += 1;
    }
    proof {
        assert forall|c: (i32, i32)| in_square(pcx as int, pcz as int, reach as int, c) implies order_key(pcx as int, pcz as int, c).0 < maxd + 1 by {
            let dx = c.0 - pcx;
            let dz = c.1 - pcz;
            assert(dx * dx <= reach * reach) by (nonlinear_arith)
                requires
                    -reach <= dx <= reach,
            ;
            assert(dz * dz <= reach * reach) by (nonlinear_arith)
                requires
                    -reach <= dz <= reach,
            ;
        }
    }
    r
}

/// How many of `n` listed chunks a budget covers.
pub open spec fn budget_take(budget: int, n: int) -> int {
    if budget <= 0 {
        0
    } else if budget >= n {
        n
    } else {
        budget
    }
}

/// Chunks to generate this frame: the missing chunks within `reach` of the
/// player's chunk, nearest first, as many as the budget allows; and how many
/// missing chunks are left for later frames.
pub fn generation_plan(w: &World, pcx: i32, pcz: i32, reach: i32, gen_budget: i32) -> (r: (Vec<(i32, i32)>, usize))
    requires
        -0x4000_0000 <= pcx <= 0x4000_0000,
        -0x4000_0000 <= pcz <= 0x4000_0000,
        0 <= reach <= 32767,
    ensures
        exists|l: Seq<(i32, i32)>|
            #![trigger is_listing(*w, pcx as int, pcz as int, reach as int, ChunkFilter::Missing, l)]
            is_listing(*w, pcx as int, pcz as int, reach as int, ChunkFilter::Missing, l) && r.0@ == l.take(
                budget_take(gen_budget as int, l.len() as int),
            ) && r.1 == l.len() - budget_take(gen_budget as int, l.len() as int),
{
    let all = chunks_by_distance(w, pcx, pcz, reach, ChunkFilter::Missing);
    let n = all.len();
    let k: usize = if gen_budget <= 0 {
        0
    } else if gen_budget as usize >= n {
        n
    } else {
        gen_budget as usize
    };
    let mut r: Vec<(i32, i32)> = Vec::new();
    let mut i: usize = 0;
    while i < k
        invariant
            k <= n,
            n == all@.len(),
            i <= k,
            r@ == all@.take(i as int),
        decreases k - i,
    {
        r.push(all[i]);
        i += 1;
        assert(r@ =~= all@.take(i as int));
    }
    (r, n - k)
}

/// The nine chunks around and including `c` are loaded, so that a mesh of
/// `c` sees all its neighbouring blocks.
pub open spec fn neighbours_ready(w: World, c: (i32, i32)) -> bool {
    forall|dx: int, dz: int| -1 <= dx <= 1 && -1 <= dz <= 1 ==> #[trigger] w.loaded(c.0 + dx, c.1 + dz)
}

/// The ready chunks among the first `n` of `l`, at most `budget` of them, in
/// list order.
pub open spec fn ready_prefix(w: World, l: Seq<(i32, i32)>, budget: int, n: int) -> Seq<(i32, i32)>
    decreases n,
{
    if n <= 0 {
        seq![]
    } else {
        let p = ready_prefix(w, l, budget, n - 1);
        if neighbours_ready(w, l[n - 1]) && p.len() < budget {
            p.push(l[n - 1])
        } else {
            p
        }
    }
}

/// A chunk picked for meshing has its whole ring of eight neighbours loaded,
/// the diagonal ones included, so its mesh never sees a missing neighbour;
/// and it comes from the list it was picked from.
pub proof fn lemma_ready_prefix_surrounded(w: World, l: Seq<(i32, i32)>, budget: int, n: int, j: int)
    requires
        0 <= n <= l.len(),
        0 <= j < ready_prefix(w, l, budget, n).len(),
    ensures
        forall|dx: int, dz: int|
            -1 <= dx <= 1 && -1 <= dz <= 1 ==> #[trigger] w.loaded(ready_prefix(w, l, budget, n)[j].0 + dx, ready_prefix(w, l, budget, n)[j].1 + dz),
        l.contains(ready_prefix(w, l, budget, n)[j]),
    decreases n,
{
    if n > 0 {
        let p = ready_prefix(w, l, budget, n - 1);
        if neighbours_ready(w, l[n - 1]) && p.len() < budget {
            if j < p.len() {
                lemma_ready_prefix_surrounded(w, l, budget, n - 1, j);
            } else {
                assert(ready_prefix(w, l, budget, n)[j] == l[n - 1]);
                assert(l[n - 1] == l[n - 1]);
            }
        } else {
            lemma_ready_prefix_surrounded(w, l, budget, n - 1, j);
        }
    }
}

fn is_ready(w: &World, c: (i32, i32)) -> (r: bool)
    requires
        -0x4000_8000 <= c.0 <= 0x4000_8000,
        -0x4000_8000 <= c.1 <= 0x4000_8000,
    ensures
        r == neighbours_ready(*w, c),
{
    let mut dz: i32 = -1;
    while dz <= 1
        invariant
            -1 <= dz <= 2,
            -0x4000_8000 <= c.0 <= 0x4000_8000,
            -0x4000_8000 <= c.1 <= 0x4000_8000,
            forall|a: int, b: int| -1 <= a <= 1 && -1 <= b < dz ==> #[trigger] w.loaded(c.0 + a, c.1 + b),
        decreases 2 - dz,
    {
        let mut dx: i32 = -1;
        while dx <= 1
            invariant
                -1 <= dx <= 2,
                -1 <= dz <= 1,
                -0x4000_8000 <= c.0 <= 0x4000_8000,
                -0x4000_8000 <= c.1 <= 0x4000_8000,
                forall|a: int, b: int| -1 <= a <= 1 && -1 <= b < dz ==> #[trigger] w.loaded(c.0 + a, c.1 + b),
                forall|a: int| -1 <= a < dx ==> #[trigger] w.loaded(c.0 + a, c.1 + dz),
            decreases 2 - dx,
        {
            if !w.is_loaded(c.0 + dx, c.1 + dz) {
                return false;
            }
            dx += 1;
        }
        dz += 1;
    }
    true
}

/// Chunks to re-mesh this frame: the dirty loaded chunks within `radius` of
/// the player's chunk, nearest first, whose eight neighbours are loaded, as
/// many as the budget allows; the number of chunks of the square that are
/// missing; and the number of dirty chunks left for later frames (waiting
/// for neighbours or over budget).
pub fn mesh_plan(w: &World, pcx: i32, pcz: i32, radius: i32, mesh_budget: i32) -> (r: (Vec<(i32, i32)>, usize, usize))
    requires
        -0x4000_0000 <= pcx <= 0x4000_0000,
        -0x4000_0000 <= pcz <= 0x4000_0000,
        0 <= radius <= 32767,
    ensures
        exists|lm: Seq<(i32, i32)>, ld: Seq<(i32, i32)>|
            #![trigger is_listing(*w, pcx as int, pcz as int, radius as int, ChunkFilter::Missing, lm), is_listing(*w, pcx as int, pcz as int, radius as int, ChunkFilter::Dirty, ld)]
            is_listing(*w, pcx as int, pcz as int, radius as int, ChunkFilter::Missing, lm) && is_listing(
                *w,
                pcx as int,
                pcz as int,
                radius as int,
                ChunkFilter::Dirty,
                ld,
            ) && r.0@ == ready_prefix(*w, ld, mesh_budget as int, ld.len() as int) && r.1 == lm.len() && r.2
                == ld.len() - r.0@.len(),
        forall|j: int, dx: int, dz: int|
            0 <= j < r.0@.len() && -1 <= dx <= 1 && -1 <= dz <= 1 ==> #[trigger] w.loaded(r.0@[j].0 + dx, r.0@[j].1 + dz),
{
    let missing = chunks_by_distance(w, pcx, pcz, radius, ChunkFilter::Missing);
    let dirty = chunks_by_distance(w, pcx, pcz, radius, ChunkFilter::Dirty);
    let mut picked: Vec<(i32, i32)> = Vec::new();
    let mut i: usize = 0;
    while i < dirty.len()
        invariant
            -0x4000_0000 <= pcx <= 0x4000_0000,
            -0x4000_0000 <= pcz <= 0x4000_0000,
            0 <= radius <= 32767,
            is_listing(*w, pcx as int, pcz as int, radius as int, ChunkFilter::Dirty, dirty@),
            i <= dirty@.len(),
            picked@ == ready_prefix(*w, dirty@, mesh_budget as int, i as int),
            picked@.len() <= i,
        decreases dirty@.len() - i,
    {
        let c = dirty[i];
        assert(in_square(pcx as int, pcz as int, radius as int, dirty@[i as int]));
        let budget_left = mesh_budget > 0 && (picked.len() as u64) < (mesh_budget as u64);
        if is_ready(w, c) && budget_left {
            picked.push(c);
        }
        i += 1;
    }
    proof {
        assert forall|j: int, dx: int, dz: int|
            0 <= j < picked@.len() && -1 <= dx <= 1 && -1 <= dz <= 1 implies #[trigger] w.loaded(picked@[j].0 + dx, picked@[j].1 + dz) by {
            lemma_ready_prefix_surrounded(*w, dirty@, mesh_budget as int, dirty@.len() as int, j);
        }
    }
    let waiting = dirty.len() - picked.len();
    (picked, missing.len(), waiting)
}

} // verus!
