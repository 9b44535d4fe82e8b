//! The world: loaded chunks, block editing, light propagation (torch light
//! and sky light) and water flow.
use vstd::prelude::*;
use std::collections::HashMap;
use std::collections::VecDeque;
use vstd::std_specs::hash::spec_hash_map_iter;
use vstd::std_specs::iter::IteratorSpec;
use crate::blocks::{
    Block, SKY_LIGHT_MAX, TORCH_LIGHT, WATER_MAX, block_of, block_id, spec_is_opaque, spec_is_solid,
    spec_emission, spec_is_cross, spec_replaceable, lemma_block_property_relations,
};
use crate::chunk::{
    Chunk, CS, CH, SEA, VOL, COLS, idx, col_idx, in_chunk, cell_index, col_index, block_in,
    top_opaque, top_opaque_from, lemma_cell_index, lemma_cell_index_injective,
};
use crate::measure::{deficit, total, map_sum, lemma_map_sum_insert, lemma_map_sum_remove};

verus! {

broadcast use vstd::std_specs::hash::group_hash_axioms;

/// Largest absolute chunk coordinate a loaded chunk may have (2^27 - 16).
/// Block coordinates of `i32` reach chunk ±2^27; the outermost chunks on each
/// side are left out so that every neighbour step and every offset that
/// terrain assembly adds to a block coordinate (tree leaves hash positions up
/// to a few dozen blocks further) stays inside an `i32`.
pub const CHUNK_LIMIT: i32 = 134217712;

/// The two light channels, which share the propagation logic.
#[derive(Clone, Copy, PartialEq, Eq, Debug, Structural)]
pub enum LightChannel {
    Torch,
    Sky,
}

pub open spec fn in_i32(v: int) -> bool {
    i32::MIN <= v <= i32::MAX
}

/// Map key of chunk (cx, cz): the pair shifted into `0..2^32` each and packed.
pub open spec fn key_of(cx: int, cz: int) -> int {
    (cx + 0x8000_0000) * 0x1_0000_0000 + (cz + 0x8000_0000)
}

pub open spec fn key_u64(cx: int, cz: int) -> u64 {
    key_of(cx, cz) as u64
}

/// The map key of chunk (cx, cz).
pub fn chunk_key(cx: i32, cz: i32) -> (k: u64)
    ensures
        k as int == key_of(cx as int, cz as int),
        k == key_u64(cx as int, cz as int),
{
    let a = (cx as i64 + 0x8000_0000) as u64;
    let b = (cz as i64 + 0x8000_0000) as u64;
    a * 0x1_0000_0000 + b
}

/// The chunk coordinates packed into map key `k`.
pub fn key_coords(k: u64) -> (r: (i32, i32))
    ensures
        key_u64(r.0 as int, r.1 as int) == k,
        key_of(r.0 as int, r.1 as int) == k as int,
{
    let a: u64 = k / 0x1_0000_0000;
    let b: u64 = k % 0x1_0000_0000;
    assert(a < 0x1_0000_0000);
    let cx = (a as i64 - 0x8000_0000) as i32;
    let cz = (b as i64 - 0x8000_0000) as i32;
    assert(key_of(cx as int, cz as int) == a * 0x1_0000_0000 + b);
    (cx, cz)
}

/// Different chunks have different keys.
pub proof fn lemma_key_injective(a: int, b: int, c: int, d: int)
    requires
        in_i32(a),
        in_i32(b),
        in_i32(c),
        in_i32(d),
        key_u64(a, b) == key_u64(c, d),
    ensures
        a == c,
        b == d,
{
    assert(0 <= key_of(a, b) < 0x1_0000_0000_0000_0000);
    assert(0 <= key_of(c, d) < 0x1_0000_0000_0000_0000);
}

/// Chunk coordinate and local coordinate of a block coordinate.
pub fn split(v: i32) -> (r: (i32, i32))
    ensures
        r.0 as int == v as int / 16,
        r.1 as int == v as int % 16,
        0 <= r.1 < 16,
        -0x800_0000 <= r.0 < 0x800_0000,
{
    let q = v.checked_div_euclid(16);
    let m = v.checked_rem_euclid(16);
    match (q, m) {
        (Some(a), Some(b)) => (a, b),
        _ => (0, 0),
    }
}

/// The light values of one channel of a chunk.
pub open spec fn chan_seq(c: Chunk, ch: LightChannel) -> Seq<u8> {
    match ch {
        LightChannel::Torch => c.light@,
        LightChannel::Sky => c.skylight@,
    }
}

/// How far the channel's values are below their maximum, summed over a chunk.
pub open spec fn deficit_fn(ch: LightChannel) -> spec_fn(Chunk) -> int {
    |c: Chunk| deficit(chan_seq(c, ch))
}

/// The channel's values summed over a chunk.
pub open spec fn total_fn(ch: LightChannel) -> spec_fn(Chunk) -> int {
    |c: Chunk| total(chan_seq(c, ch))
}

/// A chunk with proper array sizes and bounded light.
pub open spec fn chunk_ok(c: Chunk) -> bool {
    c.wf() && c.light_bounded()
}

/// Chunk (cx, cz) is present in the map.
pub open spec fn m_loaded(m: Map<u64, Chunk>, cx: int, cz: int) -> bool {
    in_i32(cx) && in_i32(cz) && m.contains_key(key_u64(cx, cz))
}

/// The chunk that holds column (x, z) is present.
pub open spec fn m_col_loaded(m: Map<u64, Chunk>, x: int, z: int) -> bool {
    m_loaded(m, x / 16, z / 16)
}

/// The chunk that holds column (x, z).
pub open spec fn m_chunk(m: Map<u64, Chunk>, x: int, z: int) -> Chunk {
    m[key_u64(x / 16, z / 16)]
}

/// Index of block (x, y, z) inside its chunk.
pub open spec fn local_index(x: int, y: int, z: int) -> int {
    cell_index(x % 16, y, z % 16)
}

/// The block at (x, y, z): stone below the world, air above it and in chunks
/// that are not loaded.
pub open spec fn m_block(m: Map<u64, Chunk>, x: int, y: int, z: int) -> Block {
    if y < 0 {
        Block::Stone
    } else if y >= CH {
        Block::Air
    } else if m_col_loaded(m, x, z) {
        block_of(m_chunk(m, x, z).blocks@[local_index(x, y, z)])
    } else {
        Block::Air
    }
}

/// The light of a channel at (x, y, z); 0 outside the world and in chunks that
/// are not loaded.
pub open spec fn m_chan(m: Map<u64, Chunk>, ch: LightChannel, x: int, y: int, z: int) -> u8 {
    if 0 <= y < CH && m_col_loaded(m, x, z) {
        chan_seq(m_chunk(m, x, z), ch)[local_index(x, y, z)]
    } else {
        0
    }
}

/// The water level at (x, y, z); 0 outside the world and in chunks that are
/// not loaded.
pub open spec fn m_water(m: Map<u64, Chunk>, x: int, y: int, z: int) -> u8 {
    if 0 <= y < CH && m_col_loaded(m, x, z) {
        m_chunk(m, x, z).water_level@[local_index(x, y, z)]
    } else {
        0
    }
}

/// The two chunks hold the same blocks, light, water and heights.
pub open spec fn content_eq(a: Chunk, b: Chunk) -> bool {
    &&& a.blocks@ == b.blocks@
    &&& a.light@ == b.light@
    &&& a.skylight@ == b.skylight@
    &&& a.water_level@ == b.water_level@
    &&& a.heights@ == b.heights@
}

/// The two maps hold the same chunks up to their `dirty` flags.
pub open spec fn same_content(a: Map<u64, Chunk>, b: Map<u64, Chunk>) -> bool {
    &&& a.dom() == b.dom()
    &&& forall|k: u64| a.contains_key(k) ==> #[trigger] content_eq(a[k], b[k])
}

/// `b` is `a` with value `i` of channel `ch` of chunk `k` set to `v`, up to
/// `dirty` flags.
pub open spec fn light_updated(
    a: Map<u64, Chunk>,
    b: Map<u64, Chunk>,
    ch: LightChannel,
    k: u64,
    i: int,
    v: u8,
) -> bool {
    &&& a.dom() == b.dom()
    &&& forall|k2: u64|
        a.contains_key(k2) ==> {
            &&& (#[trigger] b[k2]).blocks@ == a[k2].blocks@
            &&& b[k2].water_level@ == a[k2].water_level@
            &&& b[k2].heights@ == a[k2].heights@
            &&& (ch == LightChannel::Torch ==> b[k2].skylight@ == a[k2].skylight@)
            &&& (ch == LightChannel::Sky ==> b[k2].light@ == a[k2].light@)
            &&& chan_seq(b[k2], ch) == if k2 == k {
                chan_seq(a[k2], ch).update(i, v)
            } else {
                chan_seq(a[k2], ch)
            }
        }
}

/// Maps with the same content have the same light sums.
pub proof fn lemma_same_content_sums(a: Map<u64, Chunk>, b: Map<u64, Chunk>, ch: LightChannel)
    requires
        a.dom().finite(),
        same_content(a, b),
    ensures
        map_sum(a, deficit_fn(ch)) == map_sum(b, deficit_fn(ch)),
        map_sum(a, total_fn(ch)) == map_sum(b, total_fn(ch)),
    decreases a.dom().len(),
{
    if a.dom().len() > 0 {
        let k = a.dom().choose();
        assert(content_eq(a[k], b[k]));
        assert(same_content(a.remove(k), b.remove(k)));
        lemma_same_content_sums(a.remove(k), b.remove(k), ch);
    }
}

/// Column (x, z) of a loaded chunk has block coordinates that leave room
/// for neighbours in an `i32`.
pub open spec fn coords_bounded(m: Map<u64, Chunk>) -> bool {
    forall|cx: int, cz: int|
        #[trigger] m_loaded(m, cx, cz) ==> -CHUNK_LIMIT <= cx <= CHUNK_LIMIT && -CHUNK_LIMIT <= cz
            <= CHUNK_LIMIT
}

/// Every chunk in the map is well formed with bounded light, and all loaded
/// chunks lie within the coordinate limit.
pub open spec fn map_ok(m: Map<u64, Chunk>) -> bool {
    &&& forall|k: u64| m.contains_key(k) ==> #[trigger] chunk_ok(m[k])
    &&& coords_bounded(m)
}

/// The world.
pub struct World {
    /// Loaded chunks, keyed by [`chunk_key`].
    pub chunks: HashMap<u64, Chunk>,
    pub seed: u32,
    /// Blocks changed by the player (saved, and re-applied to regenerated
    /// chunks), keyed by [`edit_key`], each entry holding its position and block id.
    pub edits: HashMap<u128, (i32, i32, i32, u8)>,
    /// Cells waiting for water-flow re-evaluation.
    pub water_queue: VecDeque<(i32, i32, i32)>,
}

/// Map key of an edit at (x, y, z).
pub open spec fn edit_key_of(x: int, y: int, z: int) -> int {
    (x + 0x8000_0000) * 0x1_0000_0000_0000_0000 + (y + 0x8000_0000) * 0x1_0000_0000 + (z
        + 0x8000_0000)
}

/// The map key of an edit at (x, y, z).
pub fn edit_key(x: i32, y: i32, z: i32) -> (k: u128)
    ensures
        k as int == edit_key_of(x as int, y as int, z as int),
{
    let a = (x as i64 + 0x8000_0000) as u128;
    let b = (y as i64 + 0x8000_0000) as u128;
    let c = (z as i64 + 0x8000_0000) as u128;
    a * 0x1_0000_0000_0000_0000 + b * 0x1_0000_0000 + c
}

/// Different positions have different edit keys.
pub proof fn lemma_edit_key_injective(a: (i32, i32, i32), b: (i32, i32, i32))
    requires
        edit_key_of(a.0 as int, a.1 as int, a.2 as int) == edit_key_of(b.0 as int, b.1 as int, b.2 as int),
    ensures
        a == b,
{
}

/// The six axis directions: +x, -x, +y, -y, +z, -z.
pub open spec fn spec_dir(d: int) -> (i32, i32, i32) {
    if d == 0 {
        (1, 0, 0)
    } else if d == 1 {
        (-1i32, 0i32, 0i32)
    } else if d == 2 {
        (0, 1, 0)
    } else if d == 3 {
        (0i32, -1i32, 0i32)
    } else if d == 4 {
        (0, 0, 1)
    } else {
        (0i32, 0i32, -1i32)
    }
}

/// Direction number `d` (0..6) of the six axis directions.
pub fn dir(d: usize) -> (r: (i32, i32, i32))
    requires
        d < 6,
    ensures
        r == spec_dir(d as int),
{
    match d {
        0 => (1, 0, 0),
        1 => (-1, 0, 0),
        2 => (0, 1, 0),
        3 => (0, -1, 0),
        4 => (0, 0, 1),
        _ => (0, 0, -1),
    }
}

/// The lit neighbours among the first `d` directions of (x, y, z), in
/// direction order: each neighbour whose light in channel `ch` is above 1,
/// with that light as its level.
pub open spec fn lit_neighbours(m: Map<u64, Chunk>, ch: LightChannel, x: int, y: int, z: int, d: int) -> Seq<
    (i32, i32, i32, u8),
>
    decreases d,
{
    if d <= 0 {
        Seq::empty()
    } else {
        let v = spec_dir(d - 1);
        let l = m_chan(m, ch, x + v.0, y + v.1, z + v.2);
        lit_neighbours(m, ch, x, y, z, d - 1) + if l > 1 {
            seq![((x + v.0) as i32, (y + v.1) as i32, (z + v.2) as i32, l)]
        } else {
            Seq::empty()
        }
    }
}

/// Chunk (cx2, cz2) is one that a change in column (x, z) shows in: the
/// column's own chunk, or a chunk next to it (sideways or diagonally) when
/// the column lies on the border facing that chunk.
pub open spec fn dirty_reach(x: int, z: int, cx2: int, cz2: int) -> bool {
    let dx = cx2 - x / 16;
    let dz = cz2 - z / 16;
    &&& -1 <= dx <= 1
    &&& -1 <= dz <= 1
    &&& (dx == 0 || (dx == -1 && x % 16 == 0) || (dx == 1 && x % 16 == 15))
    &&& (dz == 0 || (dz == -1 && z % 16 == 0) || (dz == 1 && z % 16 == 15))
}

/// Chunks reached from column (x, z) whose offset comes before (`dx`, `dz`)
/// in row order (`dz` first).
pub open spec fn dirty_reach_before(x: int, z: int, cx2: int, cz2: int, dx: int, dz: int) -> bool {
    dirty_reach(x, z, cx2, cz2) && (cz2 - z / 16 < dz || (cz2 - z / 16 == dz && cx2 - x / 16 < dx))
}

/// Cell (x, y, z) followed by its six neighbours in direction order.
pub open spec fn cell_and_neighbours(x: i32, y: i32, z: i32) -> Seq<(i32, i32, i32)> {
    seq![(x, y, z)] + Seq::new(
        6,
        |j: int| ((x + spec_dir(j).0) as i32, (y + spec_dir(j).1) as i32, (z + spec_dir(j).2) as i32),
    )
}

/// The light channel other than `ch`.
pub open spec fn other_chan(ch: LightChannel) -> LightChannel {
    match ch {
        LightChannel::Torch => LightChannel::Sky,
        LightChannel::Sky => LightChannel::Torch,
    }
}

/// Weight of a flood-fill queue entry in the termination measure: entries in
/// loaded chunks may expand into six more entries.
pub open spec fn entry_weight(dom: Set<u64>, x: i32, y: i32, z: i32) -> int {
    if 0 <= y < CH && dom.contains(key_u64(x as int / 16, z as int / 16)) {
        7
    } else {
        1
    }
}

/// Total weight of the entries of a flood-fill queue.
pub open spec fn queue_weight(dom: Set<u64>, q: Seq<(i32, i32, i32, u8)>) -> int
    decreases q.len(),
{
    if q.len() == 0 {
        0
    } else {
        queue_weight(dom, q.drop_last()) + entry_weight(dom, q.last().0, q.last().1, q.last().2)
    }
}

pub proof fn lemma_queue_weight_push(dom: Set<u64>, q: Seq<(i32, i32, i32, u8)>, e: (i32, i32, i32, u8))
    ensures
        queue_weight(dom, q.push(e)) == queue_weight(dom, q) + entry_weight(dom, e.0, e.1, e.2),
{
    assert(q.push(e).drop_last() =~= q);
}

pub proof fn lemma_queue_weight_pop(dom: Set<u64>, q: Seq<(i32, i32, i32, u8)>)
    requires
        q.len() > 0,
    ensures
        queue_weight(dom, q) == entry_weight(dom, q[0].0, q[0].1, q[0].2) + queue_weight(
            dom,
            q.drop_first(),
        ),
    decreases q.len(),
{
    if q.len() > 1 {
        lemma_queue_weight_pop(dom, q.drop_last());
        assert(q.drop_last().drop_first() =~= q.drop_first().drop_last());
        assert(q.drop_first().last() == q.last());
        assert(q.drop_last()[0] == q[0]);
        assert(queue_weight(dom, q) == queue_weight(dom, q.drop_last()) + entry_weight(dom, q.last().0, q.last().1, q.last().2));
        assert(queue_weight(dom, q.drop_first()) == queue_weight(dom, q.drop_first().drop_last())
            + entry_weight(dom, q.last().0, q.last().1, q.last().2));
    } else {
        assert(q.drop_first().len() == 0);
        assert(q.drop_last().len() == 0);
        assert(q.last() == q[0]);
        assert(queue_weight(dom, q.drop_first()) == 0);
        assert(queue_weight(dom, q.drop_last()) == 0);
        assert(queue_weight(dom, q) == queue_weight(dom, q.drop_last()) + entry_weight(dom, q.last().0, q.last().1, q.last().2));
    }
}

pub proof fn lemma_queue_weight_nonneg(dom: Set<u64>, q: Seq<(i32, i32, i32, u8)>)
    ensures
        queue_weight(dom, q) >= 0,
    decreases q.len(),
{
    if q.len() > 0 {
        lemma_queue_weight_nonneg(dom, q.drop_last());
    }
}

/// `b` holds the blocks, water and other light channel of `a`, with every
/// value of channel `ch` at least as high as in `a`.
pub open spec fn light_grown(a: Map<u64, Chunk>, b: Map<u64, Chunk>, ch: LightChannel) -> bool {
    &&& a.dom() == b.dom()
    &&& forall|k: u64|
        a.contains_key(k) ==> {
            &&& (#[trigger] b[k]).blocks@ == a[k].blocks@
            &&& b[k].water_level@ == a[k].water_level@
            &&& b[k].heights@ == a[k].heights@
            &&& chan_seq(b[k], other_chan(ch)) == chan_seq(a[k], other_chan(ch))
            &&& chan_seq(b[k], ch).len() == chan_seq(a[k], ch).len()
            &&& forall|i: int|
                0 <= i < chan_seq(a[k], ch).len() ==> #[trigger] chan_seq(b[k], ch)[i] >= chan_seq(
                    a[k],
                    ch,
                )[i]
        }
}

/// `b` holds the blocks, water and other light channel of `a`; only channel
/// `ch` may differ.
pub open spec fn only_chan_changed(a: Map<u64, Chunk>, b: Map<u64, Chunk>, ch: LightChannel) -> bool {
    &&& a.dom() == b.dom()
    &&& forall|k: u64|
        a.contains_key(k) ==> {
            &&& (#[trigger] b[k]).blocks@ == a[k].blocks@
            &&& b[k].water_level@ == a[k].water_level@
            &&& b[k].heights@ == a[k].heights@
            &&& chan_seq(b[k], other_chan(ch)) == chan_seq(a[k], other_chan(ch))
            &&& chan_seq(b[k], ch).len() == chan_seq(a[k], ch).len()
        }
}

/// A single light update changes only its channel.
pub proof fn lemma_changed_step(
    a: Map<u64, Chunk>,
    b: Map<u64, Chunk>,
    c: Map<u64, Chunk>,
    ch: LightChannel,
    k: u64,
    i: int,
    v: u8,
)
    requires
        only_chan_changed(a, b, ch),
        light_updated(b, c, ch, k, i, v),
        b.contains_key(k) ==> 0 <= i < chan_seq(b[k], ch).len(),
    ensures
        only_chan_changed(a, c, ch),
{
    assert forall|k2: u64| a.contains_key(k2) implies {
        &&& (#[trigger] c[k2]).blocks@ == a[k2].blocks@
        &&& c[k2].water_level@ == a[k2].water_level@
        &&& c[k2].heights@ == a[k2].heights@
        &&& chan_seq(c[k2], other_chan(ch)) == chan_seq(a[k2], other_chan(ch))
        &&& chan_seq(c[k2], ch).len() == chan_seq(a[k2], ch).len()
    } by {
        assert(b.contains_key(k2));
        assert(chan_seq(c[k2], other_chan(ch)) == chan_seq(b[k2], other_chan(ch))) by {
            match ch {
                LightChannel::Torch => {},
                LightChannel::Sky => {},
            }
        }
    }
}

/// Growth of one channel is in particular a change of that channel only.
pub proof fn lemma_grown_is_changed(a: Map<u64, Chunk>, b: Map<u64, Chunk>, c: Map<u64, Chunk>, ch: LightChannel)
    requires
        only_chan_changed(a, b, ch),
        light_grown(b, c, ch),
    ensures
        only_chan_changed(a, c, ch),
{
    assert forall|k2: u64| a.contains_key(k2) implies {
        &&& (#[trigger] c[k2]).blocks@ == a[k2].blocks@
        &&& c[k2].water_level@ == a[k2].water_level@
        &&& c[k2].heights@ == a[k2].heights@
        &&& chan_seq(c[k2], other_chan(ch)) == chan_seq(a[k2], other_chan(ch))
        &&& chan_seq(c[k2], ch).len() == chan_seq(a[k2], ch).len()
    } by {
        assert(b.contains_key(k2));
    }
}

/// `b` holds the chunks of `a` with the same blocks, water levels and
/// heights; only light and `dirty` flags may differ.
pub open spec fn frame_ok(a: Map<u64, Chunk>, b: Map<u64, Chunk>) -> bool {
    &&& a.dom() == b.dom()
    &&& forall|k: u64|
        a.contains_key(k) ==> {
            &&& (#[trigger] b[k]).blocks@ == a[k].blocks@
            &&& b[k].water_level@ == a[k].water_level@
            &&& b[k].heights@ == a[k].heights@
        }
}

/// Loaded chunks, blocks and water levels agree cell by cell.
pub open spec fn cells_same(a: Map<u64, Chunk>, b: Map<u64, Chunk>) -> bool {
    &&& forall|cx: int, cz: int| #[trigger] m_loaded(b, cx, cz) == m_loaded(a, cx, cz)
    &&& forall|x2: int, y2: int, z2: int| #[trigger] m_block(b, x2, y2, z2) == m_block(a, x2, y2, z2)
    &&& forall|x2: int, y2: int, z2: int| #[trigger] m_water(b, x2, y2, z2) == m_water(a, x2, y2, z2)
}

pub proof fn lemma_frame_trans(a: Map<u64, Chunk>, b: Map<u64, Chunk>, c: Map<u64, Chunk>)
    requires
        frame_ok(a, b),
        frame_ok(b, c),
    ensures
        frame_ok(a, c),
{
    assert forall|k: u64| a.contains_key(k) implies {
        &&& (#[trigger] c[k]).blocks@ == a[k].blocks@
        &&& c[k].water_level@ == a[k].water_level@
        &&& c[k].heights@ == a[k].heights@
    } by {
        assert(b.contains_key(k));
    }
}

pub proof fn lemma_changed_frame(a: Map<u64, Chunk>, b: Map<u64, Chunk>, ch: LightChannel)
    requires
        only_chan_changed(a, b, ch),
    ensures
        frame_ok(a, b),
{
    assert forall|k: u64| a.contains_key(k) implies {
        &&& (#[trigger] b[k]).blocks@ == a[k].blocks@
        &&& b[k].water_level@ == a[k].water_level@
        &&& b[k].heights@ == a[k].heights@
    } by {
        assert(a.contains_key(k));
    }
}

pub proof fn lemma_grown_frame(a: Map<u64, Chunk>, b: Map<u64, Chunk>, ch: LightChannel)
    requires
        light_grown(a, b, ch),
    ensures
        frame_ok(a, b),
        only_chan_changed(a, b, ch),
{
    assert forall|k: u64| a.contains_key(k) implies {
        &&& (#[trigger] b[k]).blocks@ == a[k].blocks@
        &&& b[k].water_level@ == a[k].water_level@
        &&& b[k].heights@ == a[k].heights@
        &&& chan_seq(b[k], other_chan(ch)) == chan_seq(a[k], other_chan(ch))
        &&& chan_seq(b[k], ch).len() == chan_seq(a[k], ch).len()
    } by {
        assert(a.contains_key(k));
    }
}

pub proof fn lemma_same_content_frame(a: Map<u64, Chunk>, b: Map<u64, Chunk>)
    requires
        same_content(a, b),
    ensures
        frame_ok(a, b),
{
    assert forall|k: u64| a.contains_key(k) implies {
        &&& (#[trigger] b[k]).blocks@ == a[k].blocks@
        &&& b[k].water_level@ == a[k].water_level@
        &&& b[k].heights@ == a[k].heights@
    } by {
        assert(content_eq(a[k], b[k]));
    }
}

/// Cell-level reading of an unchanged frame.
pub proof fn lemma_frame_cells(a: Map<u64, Chunk>, b: Map<u64, Chunk>)
    requires
        frame_ok(a, b),
    ensures
        cells_same(a, b),
{
    assert forall|x2: int, y2: int, z2: int| #[trigger] m_block(b, x2, y2, z2) == m_block(a, x2, y2, z2) by {
        if 0 <= y2 < CH && m_col_loaded(a, x2, z2) {
            assert(b[key_u64(x2 / 16, z2 / 16)].blocks@ == a[key_u64(x2 / 16, z2 / 16)].blocks@);
        }
    }
    assert forall|x2: int, y2: int, z2: int| #[trigger] m_water(b, x2, y2, z2) == m_water(a, x2, y2, z2) by {
        if 0 <= y2 < CH && m_col_loaded(a, x2, z2) {
            assert(b[key_u64(x2 / 16, z2 / 16)].water_level@ == a[key_u64(x2 / 16, z2 / 16)].water_level@);
        }
    }
}

/// The other channel is untouched when only `ch` changes.
pub proof fn lemma_changed_other_cells(a: Map<u64, Chunk>, b: Map<u64, Chunk>, ch: LightChannel)
    requires
        only_chan_changed(a, b, ch),
    ensures
        forall|x2: int, y2: int, z2: int| #[trigger]
            m_chan(b, other_chan(ch), x2, y2, z2) == m_chan(a, other_chan(ch), x2, y2, z2),
{
    assert forall|x2: int, y2: int, z2: int| #[trigger]
        m_chan(b, other_chan(ch), x2, y2, z2) == m_chan(a, other_chan(ch), x2, y2, z2) by {
        if 0 <= y2 < CH && m_col_loaded(a, x2, z2) {
            let k2 = key_u64(x2 / 16, z2 / 16);
            assert(chan_seq(b[k2], other_chan(ch)) == chan_seq(a[k2], other_chan(ch)));
        }
    }
}

/// Every chunk's stored heights match its blocks.
pub open spec fn map_heights_ok(m: Map<u64, Chunk>) -> bool {
    forall|k: u64| m.contains_key(k) ==> (#[trigger] m[k]).heights_ok()
}

/// Every chunk's stored heights are exactly its topmost opaque blocks.
pub open spec fn map_heights_exact(m: Map<u64, Chunk>) -> bool {
    forall|k: u64| m.contains_key(k) ==> (#[trigger] m[k]).heights_exact()
}

pub proof fn lemma_frame_heights_exact(a: Map<u64, Chunk>, b: Map<u64, Chunk>)
    requires
        frame_ok(a, b),
        map_heights_exact(a),
    ensures
        map_heights_exact(b),
{
    assert forall|k: u64| b.contains_key(k) implies (#[trigger] b[k]).heights_exact() by {
        assert(a[k].heights_exact());
        assert(b[k].blocks@ == a[k].blocks@);
    }
}

/// Every chunk whose column heights were exact in `a` is still loaded in `b`
/// with exact column heights.
pub open spec fn exact_heights_kept(a: Map<u64, Chunk>, b: Map<u64, Chunk>) -> bool {
    forall|k: u64| a.contains_key(k) && (#[trigger] a[k]).heights_exact() ==> b.contains_key(k) && b[k].heights_exact()
}

pub proof fn lemma_frame_exact_kept(a: Map<u64, Chunk>, b: Map<u64, Chunk>)
    requires
        frame_ok(a, b),
    ensures
        exact_heights_kept(a, b),
{
    assert forall|k: u64| a.contains_key(k) && (#[trigger] a[k]).heights_exact() implies b.contains_key(k) && b[k].heights_exact() by {
        assert(b[k].blocks@ == a[k].blocks@);
    }
}

pub proof fn lemma_exact_kept_trans(a: Map<u64, Chunk>, b: Map<u64, Chunk>, c: Map<u64, Chunk>)
    requires
        exact_heights_kept(a, b),
        exact_heights_kept(b, c),
    ensures
        exact_heights_kept(a, c),
{
    assert forall|k: u64| a.contains_key(k) && (#[trigger] a[k]).heights_exact() implies c.contains_key(k) && c[k].heights_exact() by {
        assert(b[k].heights_exact());
    }
}

pub proof fn lemma_frame_heights(a: Map<u64, Chunk>, b: Map<u64, Chunk>)
    requires
        frame_ok(a, b),
        map_heights_ok(a),
    ensures
        map_heights_ok(b),
{
    assert forall|k: u64| b.contains_key(k) implies (#[trigger] b[k]).heights_ok() by {
        assert(a[k].heights_ok());
        assert(b[k].blocks@ == a[k].blocks@);
    }
}

/// Cell-level reading of storing chunk `c` under the key of chunk (cx, cz).
pub proof fn lemma_insert_chunk_cells(m0: Map<u64, Chunk>, m1: Map<u64, Chunk>, cx: int, cz: int, c: Chunk)
    requires
        in_i32(cx),
        in_i32(cz),
        m1 == m0.insert(key_u64(cx, cz), c),
    ensures
        forall|cx2: int, cz2: int| #[trigger] m_loaded(m1, cx2, cz2) == (m_loaded(m0, cx2, cz2) || (cx2 == cx
            && cz2 == cz)),
        forall|x2: int, y2: int, z2: int| #[trigger]
            m_block(m1, x2, y2, z2) == if 0 <= y2 < CH && x2 / 16 == cx && z2 / 16 == cz {
                block_of(c.blocks@[local_index(x2, y2, z2)])
            } else {
                m_block(m0, x2, y2, z2)
            },
        forall|x2: int, y2: int, z2: int| #[trigger]
            m_water(m1, x2, y2, z2) == if 0 <= y2 < CH && x2 / 16 == cx && z2 / 16 == cz {
                c.water_level@[local_index(x2, y2, z2)]
            } else {
                m_water(m0, x2, y2, z2)
            },
{
    let k = key_u64(cx, cz);
    assert forall|cx2: int, cz2: int| #[trigger] m_loaded(m1, cx2, cz2) == (m_loaded(m0, cx2, cz2) || (cx2
        == cx && cz2 == cz)) by {
        if in_i32(cx2) && in_i32(cz2) && key_u64(cx2, cz2) == k {
            lemma_key_injective(cx, cz, cx2, cz2);
        }
    }
    assert forall|x2: int, y2: int, z2: int| #[trigger]
        m_block(m1, x2, y2, z2) == if 0 <= y2 < CH && x2 / 16 == cx && z2 / 16 == cz {
            block_of(c.blocks@[local_index(x2, y2, z2)])
        } else {
            m_block(m0, x2, y2, z2)
        } by {
        if in_i32(x2 / 16) && in_i32(z2 / 16) && key_u64(x2 / 16, z2 / 16) == k {
            lemma_key_injective(cx, cz, x2 / 16, z2 / 16);
        }
    }
    assert forall|x2: int, y2: int, z2: int| #[trigger]
        m_water(m1, x2, y2, z2) == if 0 <= y2 < CH && x2 / 16 == cx && z2 / 16 == cz {
            c.water_level@[local_index(x2, y2, z2)]
        } else {
            m_water(m0, x2, y2, z2)
        } by {
        if in_i32(x2 / 16) && in_i32(z2 / 16) && key_u64(x2 / 16, z2 / 16) == k {
            lemma_key_injective(cx, cz, x2 / 16, z2 / 16);
        }
    }
}

/// Cell-level reading of replacing the chunk that holds column (x, z).
pub proof fn lemma_replace_chunk_cells(m0: Map<u64, Chunk>, m1: Map<u64, Chunk>, x: int, z: int, c: Chunk)
    requires
        m_col_loaded(m0, x, z),
        m1 == m0.insert(key_u64(x / 16, z / 16), c),
    ensures
        forall|cx: int, cz: int| #[trigger] m_loaded(m1, cx, cz) == m_loaded(m0, cx, cz),
        forall|x2: int, y2: int, z2: int| #[trigger]
            m_block(m1, x2, y2, z2) == if 0 <= y2 < CH && x2 / 16 == x / 16 && z2 / 16 == z / 16 {
                block_of(c.blocks@[local_index(x2, y2, z2)])
            } else {
                m_block(m0, x2, y2, z2)
            },
        forall|x2: int, y2: int, z2: int| #[trigger]
            m_water(m1, x2, y2, z2) == if 0 <= y2 < CH && x2 / 16 == x / 16 && z2 / 16 == z / 16 {
                c.water_level@[local_index(x2, y2, z2)]
            } else {
                m_water(m0, x2, y2, z2)
            },
{
    let k = key_u64(x / 16, z / 16);
    assert forall|cx: int, cz: int| #[trigger] m_loaded(m1, cx, cz) == m_loaded(m0, cx, cz) by {}
    assert forall|x2: int, y2: int, z2: int| #[trigger]
        m_block(m1, x2, y2, z2) == if 0 <= y2 < CH && x2 / 16 == x / 16 && z2 / 16 == z / 16 {
            block_of(c.blocks@[local_index(x2, y2, z2)])
        } else {
            m_block(m0, x2, y2, z2)
        } by {
        if 0 <= y2 < CH && m_col_loaded(m0, x2, z2) && key_u64(x2 / 16, z2 / 16) == k {
            lemma_key_injective(x / 16, z / 16, x2 / 16, z2 / 16);
        }
    }
    assert forall|x2: int, y2: int, z2: int| #[trigger]
        m_water(m1, x2, y2, z2) == if 0 <= y2 < CH && x2 / 16 == x / 16 && z2 / 16 == z / 16 {
            c.water_level@[local_index(x2, y2, z2)]
        } else {
            m_water(m0, x2, y2, z2)
        } by {
        if 0 <= y2 < CH && m_col_loaded(m0, x2, z2) && key_u64(x2 / 16, z2 / 16) == k {
            lemma_key_injective(x / 16, z / 16, x2 / 16, z2 / 16);
        }
    }
}

/// A cell of the same chunk with the same local index is the same cell.
pub proof fn lemma_same_local_cell(x: int, y: int, z: int, x2: int, y2: int, z2: int)
    requires
        0 <= y < CH,
        0 <= y2 < CH,
        x2 / 16 == x / 16,
        z2 / 16 == z / 16,
        local_index(x2, y2, z2) == local_index(x, y, z),
    ensures
        x2 == x && y2 == y && z2 == z,
{
    lemma_cell_index_injective((x % 16, y, z % 16), (x2 % 16, y2, z2 % 16));
    vstd::arithmetic::div_mod::lemma_fundamental_div_mod(x, 16);
    vstd::arithmetic::div_mod::lemma_fundamental_div_mod(x2, 16);
    vstd::arithmetic::div_mod::lemma_fundamental_div_mod(z, 16);
    vstd::arithmetic::div_mod::lemma_fundamental_div_mod(z2, 16);
}

/// Cell-level reading of a single light update.
pub proof fn lemma_light_updated_cells(
    a: Map<u64, Chunk>,
    b: Map<u64, Chunk>,
    ch: LightChannel,
    x: int,
    y: int,
    z: int,
    v: u8,
)
    requires
        0 <= y < CH,
        m_col_loaded(a, x, z),
        forall|k: u64| a.contains_key(k) ==> #[trigger] chunk_ok(a[k]),
        light_updated(a, b, ch, key_u64(x / 16, z / 16), local_index(x, y, z), v),
    ensures
        forall|cx: int, cz: int| #[trigger] m_loaded(b, cx, cz) == m_loaded(a, cx, cz),
        forall|x2: int, y2: int, z2: int| #[trigger]
            m_block(b, x2, y2, z2) == m_block(a, x2, y2, z2),
        forall|x2: int, y2: int, z2: int| #[trigger]
            m_water(b, x2, y2, z2) == m_water(a, x2, y2, z2),
        forall|x2: int, y2: int, z2: int| #[trigger]
            m_chan(b, other_chan(ch), x2, y2, z2) == m_chan(a, other_chan(ch), x2, y2, z2),
        forall|x2: int, y2: int, z2: int| #[trigger]
            m_chan(b, ch, x2, y2, z2) == if x2 == x && y2 == y && z2 == z {
                v
            } else {
                m_chan(a, ch, x2, y2, z2)
            },
{
    let k = key_u64(x / 16, z / 16);
    let i = local_index(x, y, z);
    lemma_cell_index(x % 16, y, z % 16);
    assert(chunk_ok(a[k]));
    assert forall|x2: int, y2: int, z2: int| #[trigger]
        m_chan(b, ch, x2, y2, z2) == if x2 == x && y2 == y && z2 == z {
            v
        } else {
            m_chan(a, ch, x2, y2, z2)
        } by {
        if 0 <= y2 < CH && m_col_loaded(a, x2, z2) {
            let k2 = key_u64(x2 / 16, z2 / 16);
            let i2 = local_index(x2, y2, z2);
            assert(m_col_loaded(b, x2, z2));
            if x2 == x && y2 == y && z2 == z {
                assert(k2 == k && i2 == i);
            } else if k2 == k {
                lemma_key_injective(x / 16, z / 16, x2 / 16, z2 / 16);
                if i2 == i {
                    lemma_cell_index_injective((x % 16, y, z % 16), (x2 % 16, y2, z2 % 16));
                    vstd::arithmetic::div_mod::lemma_fundamental_div_mod(x, 16);
                    vstd::arithmetic::div_mod::lemma_fundamental_div_mod(x2, 16);
                    vstd::arithmetic::div_mod::lemma_fundamental_div_mod(z, 16);
                    vstd::arithmetic::div_mod::lemma_fundamental_div_mod(z2, 16);
                }
                assert(chan_seq(b[k2], ch) == chan_seq(a[k2], ch).update(i, v));
            }
        } else {
            assert(!(0 <= y2 < CH && m_col_loaded(b, x2, z2)));
        }
    }
    assert forall|x2: int, y2: int, z2: int| #[trigger]
        m_chan(b, other_chan(ch), x2, y2, z2) == m_chan(a, other_chan(ch), x2, y2, z2) by {
        if 0 <= y2 < CH && m_col_loaded(a, x2, z2) {
            let k2 = key_u64(x2 / 16, z2 / 16);
            assert(chan_seq(b[k2], other_chan(ch)) == chan_seq(a[k2], other_chan(ch)));
        }
    }
}

/// Cell-level reading of grown light.
pub proof fn lemma_light_grown_cells(a: Map<u64, Chunk>, b: Map<u64, Chunk>, ch: LightChannel)
    requires
        light_grown(a, b, ch),
        forall|k: u64| a.contains_key(k) ==> #[trigger] chunk_ok(a[k]),
    ensures
        forall|cx: int, cz: int| #[trigger] m_loaded(b, cx, cz) == m_loaded(a, cx, cz),
        forall|x2: int, y2: int, z2: int| #[trigger]
            m_block(b, x2, y2, z2) == m_block(a, x2, y2, z2),
        forall|x2: int, y2: int, z2: int| #[trigger]
            m_water(b, x2, y2, z2) == m_water(a, x2, y2, z2),
        forall|x2: int, y2: int, z2: int| #[trigger]
            m_chan(b, other_chan(ch), x2, y2, z2) == m_chan(a, other_chan(ch), x2, y2, z2),
        forall|x2: int, y2: int, z2: int| #[trigger]
            m_chan(b, ch, x2, y2, z2) >= m_chan(a, ch, x2, y2, z2),
{
    assert forall|x2: int, y2: int, z2: int| #[trigger]
        m_chan(b, ch, x2, y2, z2) >= m_chan(a, ch, x2, y2, z2) by {
        if 0 <= y2 < CH && m_col_loaded(a, x2, z2) {
            let k2 = key_u64(x2 / 16, z2 / 16);
            assert(chunk_ok(a[k2]));
            lemma_cell_index(x2 % 16, y2, z2 % 16);
            assert(chan_seq(b[k2], ch)[local_index(x2, y2, z2)] >= chan_seq(a[k2], ch)[local_index(
                x2,
                y2,
                z2,
            )]);
        }
    }
    assert forall|x2: int, y2: int, z2: int| #[trigger]
        m_chan(b, other_chan(ch), x2, y2, z2) == m_chan(a, other_chan(ch), x2, y2, z2) by {
        if 0 <= y2 < CH && m_col_loaded(a, x2, z2) {
            let k2 = key_u64(x2 / 16, z2 / 16);
            assert(chan_seq(b[k2], other_chan(ch)) == chan_seq(a[k2], other_chan(ch)));
        }
    }
}

/// A block in a loaded chunk has coordinates whose neighbours fit in an `i32`.
pub proof fn lemma_loaded_coords(m: Map<u64, Chunk>, x: int, z: int)
    requires
        coords_bounded(m),
        m_col_loaded(m, x, z),
    ensures
        -0x7fff_fff0 < x < 0x7fff_fff0,
        -0x7fff_fff0 < z < 0x7fff_fff0,
{
    assert(m_loaded(m, x / 16, z / 16));
}

/// The light measures of a map of well-formed chunks are not negative.
pub proof fn lemma_measures_nonneg(m: Map<u64, Chunk>, ch: LightChannel)
    requires
        m.dom().finite(),
        forall|k: u64| m.contains_key(k) ==> #[trigger] chunk_ok(m[k]),
    ensures
        map_sum(m, deficit_fn(ch)) >= 0,
        map_sum(m, total_fn(ch)) >= 0,
{
    assert forall|k: u64| m.dom().contains(k) implies (deficit_fn(ch))(#[trigger] m[k]) >= 0 by {
        assert(chunk_ok(m[k]));
        crate::measure::lemma_deficit_nonneg(chan_seq(m[k], ch));
    }
    assert forall|k: u64| m.dom().contains(k) implies (total_fn(ch))(#[trigger] m[k]) >= 0 by {
        crate::measure::lemma_total_nonneg(chan_seq(m[k], ch));
    }
    crate::measure::lemma_map_sum_nonneg(m, deficit_fn(ch));
    crate::measure::lemma_map_sum_nonneg(m, total_fn(ch));
}

/// Growth composes with a single update that does not lower the value.
pub proof fn lemma_grown_step(
    a: Map<u64, Chunk>,
    b: Map<u64, Chunk>,
    c: Map<u64, Chunk>,
    ch: LightChannel,
    k: u64,
    i: int,
    v: u8,
)
    requires
        light_grown(a, b, ch),
        light_updated(b, c, ch, k, i, v),
        b.contains_key(k) ==> 0 <= i < chan_seq(b[k], ch).len() && v >= chan_seq(b[k], ch)[i],
    ensures
        light_grown(a, c, ch),
{
    assert forall|k2: u64| a.contains_key(k2) implies {
        &&& (#[trigger] c[k2]).blocks@ == a[k2].blocks@
        &&& c[k2].water_level@ == a[k2].water_level@
        &&& c[k2].heights@ == a[k2].heights@
        &&& chan_seq(c[k2], other_chan(ch)) == chan_seq(a[k2], other_chan(ch))
        &&& chan_seq(c[k2], ch).len() == chan_seq(a[k2], ch).len()
        &&& forall|j: int|
            0 <= j < chan_seq(a[k2], ch).len() ==> #[trigger] chan_seq(c[k2], ch)[j] >= chan_seq(
                a[k2],
                ch,
            )[j]
    } by {
        assert(b.contains_key(k2));
        assert(chan_seq(c[k2], other_chan(ch)) == chan_seq(b[k2], other_chan(ch))) by {
            match ch {
                LightChannel::Torch => {},
                LightChannel::Sky => {},
            }
        }
        assert forall|j: int| 0 <= j < chan_seq(a[k2], ch).len() implies #[trigger] chan_seq(
            c[k2],
            ch,
        )[j] >= chan_seq(a[k2], ch)[j] by {
            assert(chan_seq(b[k2], ch)[j] >= chan_seq(a[k2], ch)[j]);
        }
    }
}

/// The light passed one step on from a cell at level `lv` in a direction
/// with vertical component `dy`: one less, except full sky light going
/// straight down, which passes undiminished.
pub open spec fn passed_level(ch: LightChannel, lv: int, dy: int) -> int {
    if ch == LightChannel::Sky && dy == -1 && lv == SKY_LIGHT_MAX {
        lv
    } else {
        lv - 1
    }
}

/// Neighbour `d` of cell (x, y, z) can hold light: it lies inside the
/// world's height, in a loaded chunk, and is not opaque.
pub open spec fn open_side(m: Map<u64, Chunk>, x: int, y: int, z: int, d: int) -> bool {
    let v = spec_dir(d);
    &&& 0 <= y + v.1 < CH
    &&& m_col_loaded(m, x + v.0, z + v.2)
    &&& !spec_is_opaque(m_block(m, x + v.0, y + v.1, z + v.2))
}

/// Cell (x, y, z) has passed its light of channel `ch` on to neighbour `d`.
pub open spec fn passes_to(m: Map<u64, Chunk>, ch: LightChannel, x: int, y: int, z: int, d: int) -> bool {
    let lv = m_chan(m, ch, x, y, z) as int;
    let v = spec_dir(d);
    lv <= 1 || !open_side(m, x, y, z, d) || m_chan(m, ch, x + v.0, y + v.1, z + v.2) >= passed_level(
        ch,
        lv,
        v.1 as int,
    )
}

/// Cell (x, y, z) has passed its light on to all six neighbours.
pub open spec fn passes_on(m: Map<u64, Chunk>, ch: LightChannel, x: int, y: int, z: int) -> bool {
    forall|d: int| 0 <= d < 6 ==> #[trigger] passes_to(m, ch, x, y, z, d)
}

/// Cell (x, y, z) waits in queue `q` with its current level.
pub open spec fn queued(q: Seq<(i32, i32, i32, u8)>, m: Map<u64, Chunk>, ch: LightChannel, x: int, y: int, z: int) -> bool {
    exists|j: int|
        0 <= j < q.len() && (#[trigger] q[j]).0 == x && q[j].1 == y && q[j].2 == z && q[j].3 == m_chan(
            m,
            ch,
            x,
            y,
            z,
        )
}

/// One of the first `n` seeds names cell (x, y, z) at its current level.
pub open spec fn seed_hit(q0: Seq<(i32, i32, i32, u8)>, n: int, m: Map<u64, Chunk>, ch: LightChannel, x: int, y: int, z: int) -> bool {
    exists|k: int|
        0 <= k < n && k < q0.len() && (#[trigger] q0[k]).0 == x && q0[k].1 == y && q0[k].2 == z && q0[k].3
            == m_chan(m, ch, x, y, z)
}

/// The flood fill's promise for cell (x, y, z): a cell it brightened, or a
/// handled seed that holds its level, has passed its light on or still
/// waits in the queue.
pub open spec fn flood_ok(
    init: Map<u64, Chunk>,
    m: Map<u64, Chunk>,
    ch: LightChannel,
    q: Seq<(i32, i32, i32, u8)>,
    q0: Seq<(i32, i32, i32, u8)>,
    n: int,
    x: int,
    y: int,
    z: int,
) -> bool {
    0 <= y < CH && m_col_loaded(m, x, z) && (m_chan(m, ch, x, y, z) > m_chan(init, ch, x, y, z) || seed_hit(
        q0,
        n,
        m,
        ch,
        x,
        y,
        z,
    )) ==> passes_on(m, ch, x, y, z) || queued(q, m, ch, x, y, z)
}

pub proof fn lemma_grown_refl(m: Map<u64, Chunk>, ch: LightChannel)
    ensures
        light_grown(m, m, ch),
{
    assert forall|k: u64| m.contains_key(k) implies {
        &&& (#[trigger] m[k]).blocks@ == m[k].blocks@
        &&& m[k].water_level@ == m[k].water_level@
        &&& m[k].heights@ == m[k].heights@
        &&& chan_seq(m[k], other_chan(ch)) == chan_seq(m[k], other_chan(ch))
        &&& chan_seq(m[k], ch).len() == chan_seq(m[k], ch).len()
        &&& forall|i: int| 0 <= i < chan_seq(m[k], ch).len() ==> #[trigger] chan_seq(m[k], ch)[i] >= chan_seq(m[k], ch)[i]
    } by {}
}

/// Passing light on survives brighter neighbours.
pub proof fn lemma_passes_to_mono(a: Map<u64, Chunk>, b: Map<u64, Chunk>, ch: LightChannel, x: int, y: int, z: int, d: int)
    requires
        passes_to(a, ch, x, y, z, d),
        m_chan(b, ch, x, y, z) == m_chan(a, ch, x, y, z),
        forall|cx: int, cz: int| #[trigger] m_loaded(b, cx, cz) == m_loaded(a, cx, cz),
        forall|x2: int, y2: int, z2: int| #[trigger] m_block(b, x2, y2, z2) == m_block(a, x2, y2, z2),
        forall|x2: int, y2: int, z2: int| #[trigger] m_chan(b, ch, x2, y2, z2) >= m_chan(a, ch, x2, y2, z2),
    ensures
        passes_to(b, ch, x, y, z, d),
{
    let v = spec_dir(d);
    assert(m_col_loaded(b, x + v.0, z + v.2) == m_col_loaded(a, x + v.0, z + v.2));
    assert(m_block(b, x + v.0, y + v.1, z + v.2) == m_block(a, x + v.0, y + v.1, z + v.2));
    assert(m_chan(b, ch, x + v.0, y + v.1, z + v.2) >= m_chan(a, ch, x + v.0, y + v.1, z + v.2));
}

pub proof fn lemma_passes_on_mono(a: Map<u64, Chunk>, b: Map<u64, Chunk>, ch: LightChannel, x: int, y: int, z: int)
    requires
        passes_on(a, ch, x, y, z),
        m_chan(b, ch, x, y, z) == m_chan(a, ch, x, y, z),
        forall|cx: int, cz: int| #[trigger] m_loaded(b, cx, cz) == m_loaded(a, cx, cz),
        forall|x2: int, y2: int, z2: int| #[trigger] m_block(b, x2, y2, z2) == m_block(a, x2, y2, z2),
        forall|x2: int, y2: int, z2: int| #[trigger] m_chan(b, ch, x2, y2, z2) >= m_chan(a, ch, x2, y2, z2),
    ensures
        passes_on(b, ch, x, y, z),
{
    assert forall|d: int| 0 <= d < 6 implies #[trigger] passes_to(b, ch, x, y, z, d) by {
        assert(passes_to(a, ch, x, y, z, d));
        lemma_passes_to_mono(a, b, ch, x, y, z, d);
    }
}

/// Neighbour `d` of cell (x, y, z).
pub open spec fn nb(x: int, y: int, z: int, d: int) -> (int, int, int) {
    (x + spec_dir(d).0, y + spec_dir(d).1, z + spec_dir(d).2)
}

/// In a light removal, a neighbour at level `nl` in direction `d` of a cell
/// at level `lv` draws its light from that cell: it is darker, or it lies
/// straight below a full sky-light cell at the same level.
pub open spec fn depends_on(ch: LightChannel, nl: int, lv: int, d: int) -> bool {
    nl < lv || (ch == LightChannel::Sky && spec_dir(d).1 == -1 && nl == lv && lv == SKY_LIGHT_MAX)
}

/// `b` is `a` with some values of channel `ch` cleared to 0 and nothing
/// else changed.
pub open spec fn cleared_only(a: Map<u64, Chunk>, b: Map<u64, Chunk>, ch: LightChannel) -> bool {
    &&& only_chan_changed(a, b, ch)
    &&& forall|x: int, y: int, z: int|
        #[trigger] m_chan(b, ch, x, y, z) == m_chan(a, ch, x, y, z) || m_chan(b, ch, x, y, z) == 0
}

/// Cell (x, y, z) was lit in `a` and is dark in `b`.
pub open spec fn was_cleared(a: Map<u64, Chunk>, b: Map<u64, Chunk>, ch: LightChannel, x: int, y: int, z: int) -> bool {
    m_chan(a, ch, x, y, z) > 0 && m_chan(b, ch, x, y, z) == 0
}

/// The neighbour of cleared cell (x, y, z) in direction `d` is cleared too
/// when its light depended on the cell.
pub open spec fn dependent_cleared(
    a: Map<u64, Chunk>,
    b: Map<u64, Chunk>,
    ch: LightChannel,
    x: int,
    y: int,
    z: int,
    d: int,
) -> bool {
    let n = nb(x, y, z, d);
    let nl = m_chan(a, ch, n.0, n.1, n.2);
    nl > 0 && depends_on(ch, nl as int, m_chan(a, ch, x, y, z) as int, d) ==> m_chan(b, ch, n.0, n.1, n.2) == 0
}

/// Every light of `a` that depended on a cell cleared in `b` is cleared in
/// `b` as well.
pub open spec fn removal_closed(a: Map<u64, Chunk>, b: Map<u64, Chunk>, ch: LightChannel) -> bool {
    forall|x: int, y: int, z: int, d: int|
        0 <= d < 6 && was_cleared(a, b, ch, x, y, z) ==> #[trigger] dependent_cleared(a, b, ch, x, y, z, d)
}

/// Cell `p` was cleared and its neighbour in direction `d` drew its light
/// from it.
pub open spec fn removal_link(a: Map<u64, Chunk>, b: Map<u64, Chunk>, ch: LightChannel, px: int, py: int, pz: int, d: int) -> bool {
    let n = nb(px, py, pz, d);
    was_cleared(a, b, ch, px, py, pz) && depends_on(ch, m_chan(a, ch, n.0, n.1, n.2) as int, m_chan(a, ch, px, py, pz) as int, d)
}

/// Cell (x, y, z) drew its light from a neighbour that was cleared.
pub open spec fn cleared_from(a: Map<u64, Chunk>, b: Map<u64, Chunk>, ch: LightChannel, x: int, y: int, z: int) -> bool {
    exists|px: int, py: int, pz: int, d: int|
        0 <= d < 6 && nb(px, py, pz, d) == (x, y, z) && #[trigger] removal_link(a, b, ch, px, py, pz, d)
}

/// Every light cleared from `a` in `b`, but for the one at the start cell
/// (sx, sy, sz), drew its light from a cleared neighbour.
pub open spec fn removal_sound(a: Map<u64, Chunk>, b: Map<u64, Chunk>, ch: LightChannel, sx: int, sy: int, sz: int) -> bool {
    forall|x: int, y: int, z: int|
        #[trigger] was_cleared(a, b, ch, x, y, z) && !(x == sx && y == sy && z == sz) ==> cleared_from(a, b, ch, x, y, z)
}

/// Queue `q` holds an entry for cell (x, y, z) at level `l`.
pub open spec fn holds_entry(q: Seq<(i32, i32, i32, u8)>, x: int, y: int, z: int, l: int) -> bool {
    exists|j: int| 0 <= j < q.len() && (#[trigger] q[j]).0 == x && q[j].1 == y && q[j].2 == z && q[j].3 == l
}

/// Queue `q` holds an entry for cell (x, y, z).
pub open spec fn holds_cell(q: Seq<(i32, i32, i32, u8)>, x: int, y: int, z: int) -> bool {
    exists|j: int| 0 <= j < q.len() && (#[trigger] q[j]).0 == x && q[j].1 == y && q[j].2 == z
}

/// The removal has dealt with neighbour `d` of cleared cell (x, y, z): a lit
/// neighbour that depended on it is cleared; any other lit neighbour is
/// cleared or waits in `seeds` with its light.
pub open spec fn handled_dir(
    a: Map<u64, Chunk>,
    b: Map<u64, Chunk>,
    ch: LightChannel,
    seeds: Seq<(i32, i32, i32, u8)>,
    x: int,
    y: int,
    z: int,
    d: int,
) -> bool {
    let n = nb(x, y, z, d);
    let nl = m_chan(a, ch, n.0, n.1, n.2);
    nl > 0 ==> if depends_on(ch, nl as int, m_chan(a, ch, x, y, z) as int, d) {
        m_chan(b, ch, n.0, n.1, n.2) == 0
    } else {
        m_chan(b, ch, n.0, n.1, n.2) == 0 || holds_entry(seeds, n.0, n.1, n.2, nl as int)
    }
}

pub open spec fn all_handled(
    a: Map<u64, Chunk>,
    b: Map<u64, Chunk>,
    ch: LightChannel,
    seeds: Seq<(i32, i32, i32, u8)>,
    x: int,
    y: int,
    z: int,
) -> bool {
    forall|d: int| 0 <= d < 6 ==> #[trigger] handled_dir(a, b, ch, seeds, x, y, z, d)
}

/// A removal queue entry names a cleared cell with the light it had.
pub open spec fn entry_cleared(a: Map<u64, Chunk>, b: Map<u64, Chunk>, ch: LightChannel, e: (i32, i32, i32, u8)) -> bool {
    was_cleared(a, b, ch, e.0 as int, e.1 as int, e.2 as int) && e.3 == m_chan(a, ch, e.0 as int, e.1 as int, e.2 as int)
}

/// The state of a light removal between two queue entries: lights were only
/// cleared, the queue holds cleared cells, and every cleared cell waits in
/// the queue or has had its neighbours dealt with.
pub open spec fn removal_state(
    a: Map<u64, Chunk>,
    b: Map<u64, Chunk>,
    ch: LightChannel,
    rq: Seq<(i32, i32, i32, u8)>,
    seeds: Seq<(i32, i32, i32, u8)>,
) -> bool {
    &&& cleared_only(a, b, ch)
    &&& forall|j: int| 0 <= j < rq.len() ==> #[trigger] entry_cleared(a, b, ch, rq[j])
    &&& forall|x: int, y: int, z: int|
        #[trigger] was_cleared(a, b, ch, x, y, z) ==> holds_cell(rq, x, y, z) || all_handled(a, b, ch, seeds, x, y, z)
}

/// The state while the neighbours of cleared cell `p` are visited: those in
/// the directions before `d` are dealt with.
pub open spec fn removal_partial(
    a: Map<u64, Chunk>,
    b: Map<u64, Chunk>,
    ch: LightChannel,
    rq: Seq<(i32, i32, i32, u8)>,
    seeds: Seq<(i32, i32, i32, u8)>,
    px: int,
    py: int,
    pz: int,
    d: int,
) -> bool {
    &&& cleared_only(a, b, ch)
    &&& forall|j: int| 0 <= j < rq.len() ==> #[trigger] entry_cleared(a, b, ch, rq[j])
    &&& was_cleared(a, b, ch, px, py, pz)
    &&& forall|x: int, y: int, z: int|
        #[trigger] was_cleared(a, b, ch, x, y, z) ==> (x == px && y == py && z == pz) || holds_cell(rq, x, y, z)
            || all_handled(a, b, ch, seeds, x, y, z)
    &&& forall|d2: int| 0 <= d2 < d ==> #[trigger] handled_dir(a, b, ch, seeds, px, py, pz, d2)
}

/// Every cell the flood fill ended up brighter than before passes its light on.
pub open spec fn reseeded(mc: Map<u64, Chunk>, mf: Map<u64, Chunk>, ch: LightChannel, x: int, y: int, z: int, d: int) -> bool {
    let n = nb(x, y, z, d);
    m_chan(mc, ch, n.0, n.1, n.2) > 0 ==> passes_on(mf, ch, n.0, n.1, n.2)
}

/// Each light left next to a cell cleared from `a` in `mc` has been passed
/// on again in `mf`.
pub open spec fn removal_reseeded(a: Map<u64, Chunk>, mc: Map<u64, Chunk>, mf: Map<u64, Chunk>, ch: LightChannel) -> bool {
    forall|x: int, y: int, z: int, d: int|
        0 <= d < 6 && was_cleared(a, mc, ch, x, y, z) ==> #[trigger] reseeded(mc, mf, ch, x, y, z, d)
}

/// A removal starts with the cleared start cell in its queue.
pub proof fn lemma_removal_start(a: Map<u64, Chunk>, b: Map<u64, Chunk>, ch: LightChannel, x: i32, y: i32, z: i32, lv: u8)
    requires
        only_chan_changed(a, b, ch),
        lv > 0,
        m_chan(a, ch, x as int, y as int, z as int) == lv,
        forall|x2: int, y2: int, z2: int| #[trigger]
            m_chan(b, ch, x2, y2, z2) == if x2 == x && y2 == y && z2 == z {
                0
            } else {
                m_chan(a, ch, x2, y2, z2)
            },
    ensures
        removal_state(a, b, ch, seq![(x, y, z, lv)], Seq::empty()),
        removal_sound(a, b, ch, x as int, y as int, z as int),
{
    let rq = seq![(x, y, z, lv)];
    assert(entry_cleared(a, b, ch, rq[0]));
    assert forall|x2: int, y2: int, z2: int| #[trigger] was_cleared(a, b, ch, x2, y2, z2) implies holds_cell(
        rq,
        x2,
        y2,
        z2,
    ) || all_handled(a, b, ch, Seq::empty(), x2, y2, z2) by {
        assert(m_chan(b, ch, x2, y2, z2) == 0);
        assert(x2 == x && y2 == y && z2 == z);
        assert(rq[0].0 == x2);
    }
}

/// Taking the front entry off the removal queue starts visiting its cell.
pub proof fn lemma_removal_pop(
    a: Map<u64, Chunk>,
    b: Map<u64, Chunk>,
    ch: LightChannel,
    rq: Seq<(i32, i32, i32, u8)>,
    seeds: Seq<(i32, i32, i32, u8)>,
)
    requires
        removal_state(a, b, ch, rq, seeds),
        rq.len() > 0,
    ensures
        removal_partial(a, b, ch, rq.drop_first(), seeds, rq[0].0 as int, rq[0].1 as int, rq[0].2 as int, 0),
        rq[0].3 == m_chan(a, ch, rq[0].0 as int, rq[0].1 as int, rq[0].2 as int),
{
    let r1 = rq.drop_first();
    assert(entry_cleared(a, b, ch, rq[0]));
    assert forall|j: int| 0 <= j < r1.len() implies #[trigger] entry_cleared(a, b, ch, r1[j]) by {
        assert(r1[j] == rq[j + 1]);
        assert(entry_cleared(a, b, ch, rq[j + 1]));
    }
    assert forall|x2: int, y2: int, z2: int| #[trigger] was_cleared(a, b, ch, x2, y2, z2) implies (x2 == rq[0].0
        && y2 == rq[0].1 && z2 == rq[0].2) || holds_cell(r1, x2, y2, z2) || all_handled(a, b, ch, seeds, x2, y2, z2) by {
        if holds_cell(rq, x2, y2, z2) {
            let j = choose|j: int| 0 <= j < rq.len() && (#[trigger] rq[j]).0 == x2 && rq[j].1 == y2 && rq[j].2 == z2;
            if j > 0 {
                assert(r1[j - 1] == rq[j]);
            }
        }
    }
}

/// Visiting a neighbour that needs nothing done.
pub proof fn lemma_removal_keep(
    a: Map<u64, Chunk>,
    b: Map<u64, Chunk>,
    ch: LightChannel,
    rq: Seq<(i32, i32, i32, u8)>,
    seeds: Seq<(i32, i32, i32, u8)>,
    px: int,
    py: int,
    pz: int,
    d: int,
)
    requires
        removal_partial(a, b, ch, rq, seeds, px, py, pz, d),
        0 <= d < 6,
        handled_dir(a, b, ch, seeds, px, py, pz, d),
    ensures
        removal_partial(a, b, ch, rq, seeds, px, py, pz, d + 1),
{
}

/// Visiting a lit neighbour that depends on the cell: it is cleared and
/// queued.
pub proof fn lemma_removal_clear(
    a: Map<u64, Chunk>,
    b: Map<u64, Chunk>,
    b2: Map<u64, Chunk>,
    ch: LightChannel,
    rq: Seq<(i32, i32, i32, u8)>,
    seeds: Seq<(i32, i32, i32, u8)>,
    px: int,
    py: int,
    pz: int,
    d: int,
    e: (i32, i32, i32, u8),
    sx: int,
    sy: int,
    sz: int,
)
    requires
        removal_partial(a, b, ch, rq, seeds, px, py, pz, d),
        0 <= d < 6,
        nb(px, py, pz, d) == (e.0 as int, e.1 as int, e.2 as int),
        m_chan(b, ch, e.0 as int, e.1 as int, e.2 as int) == e.3,
        e.3 > 0,
        depends_on(ch, e.3 as int, m_chan(a, ch, px, py, pz) as int, d),
        only_chan_changed(a, b2, ch),
        forall|x2: int, y2: int, z2: int| #[trigger]
            m_chan(b2, ch, x2, y2, z2) == if x2 == e.0 && y2 == e.1 && z2 == e.2 {
                0
            } else {
                m_chan(b, ch, x2, y2, z2)
            },
        removal_sound(a, b, ch, sx, sy, sz),
    ensures
        removal_partial(a, b2, ch, rq.push(e), seeds, px, py, pz, d + 1),
        removal_sound(a, b2, ch, sx, sy, sz),
{
    let r2 = rq.push(e);
    assert(m_chan(a, ch, e.0 as int, e.1 as int, e.2 as int) == e.3);
    assert forall|x2: int, y2: int, z2: int| #[trigger]
        m_chan(b2, ch, x2, y2, z2) == m_chan(a, ch, x2, y2, z2) || m_chan(b2, ch, x2, y2, z2) == 0 by {
        assert(m_chan(b, ch, x2, y2, z2) == m_chan(a, ch, x2, y2, z2) || m_chan(b, ch, x2, y2, z2) == 0);
    }
    assert forall|j: int| 0 <= j < r2.len() implies #[trigger] entry_cleared(a, b2, ch, r2[j]) by {
        if j < rq.len() {
            assert(r2[j] == rq[j]);
            assert(entry_cleared(a, b, ch, rq[j]));
            assert(m_chan(b, ch, rq[j].0 as int, rq[j].1 as int, rq[j].2 as int) == 0);
        } else {
            assert(r2[j] == e);
        }
    }
    assert forall|x2: int, y2: int, z2: int| #[trigger] all_handled(a, b, ch, seeds, x2, y2, z2) implies all_handled(
        a,
        b2,
        ch,
        seeds,
        x2,
        y2,
        z2,
    ) by {
        assert forall|d2: int| 0 <= d2 < 6 implies #[trigger] handled_dir(a, b2, ch, seeds, x2, y2, z2, d2) by {
            assert(handled_dir(a, b, ch, seeds, x2, y2, z2, d2));
            let n = nb(x2, y2, z2, d2);
            assert(m_chan(b, ch, n.0, n.1, n.2) == 0 ==> m_chan(b2, ch, n.0, n.1, n.2) == 0);
        }
    }
    assert forall|x2: int, y2: int, z2: int| #[trigger] was_cleared(a, b2, ch, x2, y2, z2) implies (x2 == px && y2
        == py && z2 == pz) || holds_cell(r2, x2, y2, z2) || all_handled(a, b2, ch, seeds, x2, y2, z2) by {
        if x2 == e.0 && y2 == e.1 && z2 == e.2 {
            assert(r2[rq.len() as int] == e);
        } else {
            assert(was_cleared(a, b, ch, x2, y2, z2));
            if holds_cell(rq, x2, y2, z2) {
                let j = choose|j: int| 0 <= j < rq.len() && (#[trigger] rq[j]).0 == x2 && rq[j].1 == y2 && rq[j].2 == z2;
                assert(r2[j] == rq[j]);
            }
            if all_handled(a, b, ch, seeds, x2, y2, z2) {
            }
        }
    }
    assert forall|d2: int| 0 <= d2 < d + 1 implies #[trigger] handled_dir(a, b2, ch, seeds, px, py, pz, d2) by {
        let n = nb(px, py, pz, d2);
        if d2 < d {
            assert(handled_dir(a, b, ch, seeds, px, py, pz, d2));
            assert(m_chan(b, ch, n.0, n.1, n.2) == 0 ==> m_chan(b2, ch, n.0, n.1, n.2) == 0);
        } else {
            assert(m_chan(b2, ch, n.0, n.1, n.2) == 0);
        }
    }
    assert(was_cleared(a, b2, ch, px, py, pz));
    assert forall|x2: int, y2: int, z2: int|
        #[trigger] was_cleared(a, b2, ch, x2, y2, z2) && !(x2 == sx && y2 == sy && z2 == sz) implies cleared_from(
        a,
        b2,
        ch,
        x2,
        y2,
        z2,
    ) by {
        if x2 == e.0 && y2 == e.1 && z2 == e.2 {
            assert(removal_link(a, b2, ch, px, py, pz, d));
        } else {
            assert(was_cleared(a, b, ch, x2, y2, z2));
            assert(cleared_from(a, b, ch, x2, y2, z2));
            let (qx, qy, qz, qd) = choose|qx: int, qy: int, qz: int, qd: int|
                0 <= qd < 6 && nb(qx, qy, qz, qd) == (x2, y2, z2) && #[trigger] removal_link(a, b, ch, qx, qy, qz, qd);
            assert(m_chan(b2, ch, qx, qy, qz) == 0);
            assert(removal_link(a, b2, ch, qx, qy, qz, qd));
        }
    }
}

/// Visiting a lit neighbour that does not depend on the cell: it is kept as
/// a seed for spreading light again.
pub proof fn lemma_removal_seed(
    a: Map<u64, Chunk>,
    b: Map<u64, Chunk>,
    ch: LightChannel,
    rq: Seq<(i32, i32, i32, u8)>,
    seeds: Seq<(i32, i32, i32, u8)>,
    px: int,
    py: int,
    pz: int,
    d: int,
    e: (i32, i32, i32, u8),
)
    requires
        removal_partial(a, b, ch, rq, seeds, px, py, pz, d),
        0 <= d < 6,
        nb(px, py, pz, d) == (e.0 as int, e.1 as int, e.2 as int),
        m_chan(b, ch, e.0 as int, e.1 as int, e.2 as int) == e.3,
        e.3 > 0,
        !depends_on(ch, e.3 as int, m_chan(a, ch, px, py, pz) as int, d),
    ensures
        removal_partial(a, b, ch, rq, seeds.push(e), px, py, pz, d + 1),
{
    let s2 = seeds.push(e);
    assert(m_chan(b, ch, e.0 as int, e.1 as int, e.2 as int) == m_chan(a, ch, e.0 as int, e.1 as int, e.2 as int)
        || m_chan(b, ch, e.0 as int, e.1 as int, e.2 as int) == 0);
    assert forall|d2: int, x2: int, y2: int, z2: int|
        0 <= d2 < 6 && #[trigger] handled_dir(a, b, ch, seeds, x2, y2, z2, d2) implies handled_dir(
        a,
        b,
        ch,
        s2,
        x2,
        y2,
        z2,
        d2,
    ) by {
        let n = nb(x2, y2, z2, d2);
        let nl = m_chan(a, ch, n.0, n.1, n.2);
        if holds_entry(seeds, n.0, n.1, n.2, nl as int) {
            let j = choose|j: int| 0 <= j < seeds.len() && (#[trigger] seeds[j]).0 == n.0 && seeds[j].1 == n.1 && seeds[j].2 == n.2 && seeds[j].3 == nl;
            assert(s2[j] == seeds[j]);
        }
    }
    assert forall|x2: int, y2: int, z2: int| #[trigger] all_handled(a, b, ch, seeds, x2, y2, z2) implies all_handled(
        a,
        b,
        ch,
        s2,
        x2,
        y2,
        z2,
    ) by {
        assert forall|d2: int| 0 <= d2 < 6 implies #[trigger] handled_dir(a, b, ch, s2, x2, y2, z2, d2) by {
            assert(handled_dir(a, b, ch, seeds, x2, y2, z2, d2));
        }
    }
    assert forall|x2: int, y2: int, z2: int| #[trigger] was_cleared(a, b, ch, x2, y2, z2) implies (x2 == px && y2
        == py && z2 == pz) || holds_cell(rq, x2, y2, z2) || all_handled(a, b, ch, s2, x2, y2, z2) by {
        if all_handled(a, b, ch, seeds, x2, y2, z2) {
        }
    }
    assert forall|d2: int| 0 <= d2 < d + 1 implies #[trigger] handled_dir(a, b, ch, s2, px, py, pz, d2) by {
        if d2 < d {
            assert(handled_dir(a, b, ch, seeds, px, py, pz, d2));
        } else {
            assert(s2[seeds.len() as int] == e);
            assert(m_chan(a, ch, e.0 as int, e.1 as int, e.2 as int) == e.3);
            assert(holds_entry(s2, e.0 as int, e.1 as int, e.2 as int, e.3 as int));
        }
    }
}

/// All six neighbours visited: the cell is dealt with.
pub proof fn lemma_removal_finish(
    a: Map<u64, Chunk>,
    b: Map<u64, Chunk>,
    ch: LightChannel,
    rq: Seq<(i32, i32, i32, u8)>,
    seeds: Seq<(i32, i32, i32, u8)>,
    px: int,
    py: int,
    pz: int,
)
    requires
        removal_partial(a, b, ch, rq, seeds, px, py, pz, 6),
    ensures
        removal_state(a, b, ch, rq, seeds),
{
    assert(all_handled(a, b, ch, seeds, px, py, pz));
    assert forall|x2: int, y2: int, z2: int| #[trigger] was_cleared(a, b, ch, x2, y2, z2) implies holds_cell(
        rq,
        x2,
        y2,
        z2,
    ) || all_handled(a, b, ch, seeds, x2, y2, z2) by {
        if x2 == px && y2 == py && z2 == pz {
        }
    }
}

/// What a finished removal and the final flood fill give together.
pub proof fn lemma_removal_done(
    a: Map<u64, Chunk>,
    mc: Map<u64, Chunk>,
    mf: Map<u64, Chunk>,
    ch: LightChannel,
    found: Seq<(i32, i32, i32, u8)>,
    seeds: Seq<(i32, i32, i32, u8)>,
)
    requires
        removal_state(a, mc, ch, Seq::empty(), found),
        map_ok(mc),
        forall|j: int|
            0 <= j < found.len() && m_chan(mc, ch, found[j].0 as int, found[j].1 as int, found[j].2 as int)
                == found[j].3 ==> holds_entry(seeds, found[j].0 as int, found[j].1 as int, found[j].2 as int, found[j].3 as int),
        light_grown(mc, mf, ch),
        forall|x2: int, y2: int, z2: int|
            0 <= y2 < CH && m_col_loaded(mf, x2, z2) && (m_chan(mf, ch, x2, y2, z2) > m_chan(mc, ch, x2, y2, z2)
                || exists|k: int|
                0 <= k < seeds.len() && #[trigger] seeds[k] == (x2 as i32, y2 as i32, z2 as i32, m_chan(
                    mf,
                    ch,
                    x2,
                    y2,
                    z2,
                ))) ==> #[trigger] passes_on(mf, ch, x2, y2, z2),
    ensures
        removal_closed(a, mc, ch),
        removal_reseeded(a, mc, mf, ch),
{
    assert forall|x: int, y: int, z: int, d: int|
        0 <= d < 6 && was_cleared(a, mc, ch, x, y, z) implies #[trigger] dependent_cleared(a, mc, ch, x, y, z, d) by {
        assert(all_handled(a, mc, ch, found, x, y, z));
        assert(handled_dir(a, mc, ch, found, x, y, z, d));
    }
    assert forall|x: int, y: int, z: int, d: int|
        0 <= d < 6 && was_cleared(a, mc, ch, x, y, z) implies #[trigger] reseeded(mc, mf, ch, x, y, z, d) by {
        assert(all_handled(a, mc, ch, found, x, y, z));
        assert(handled_dir(a, mc, ch, found, x, y, z, d));
        let n = nb(x, y, z, d);
        let l = m_chan(mc, ch, n.0, n.1, n.2);
        if l > 0 {
            assert(m_chan(mc, ch, n.0, n.1, n.2) == m_chan(a, ch, n.0, n.1, n.2) || l == 0);
            assert(holds_entry(found, n.0, n.1, n.2, l as int));
            let j = choose|j: int| 0 <= j < found.len() && (#[trigger] found[j]).0 == n.0 && found[j].1 == n.1 && found[j].2 == n.2 && found[j].3 == l;
            assert(holds_entry(seeds, n.0, n.1, n.2, l as int));
            let k = choose|k: int| 0 <= k < seeds.len() && (#[trigger] seeds[k]).0 == n.0 && seeds[k].1 == n.1 && seeds[k].2 == n.2 && seeds[k].3 == l;
            lemma_loaded_coords(mc, n.0, n.2);
            assert(mf.dom() == mc.dom());
            assert(m_loaded(mf, n.0 / 16, n.2 / 16) == m_loaded(mc, n.0 / 16, n.2 / 16));
            assert(m_chan(mf, ch, n.0, n.1, n.2) >= l) by {
                lemma_light_grown_cells(mc, mf, ch);
            }
            if m_chan(mf, ch, n.0, n.1, n.2) == l {
                assert(seeds[k] == (n.0 as i32, n.1 as i32, n.2 as i32, m_chan(mf, ch, n.0, n.1, n.2)));
            }
            assert(passes_on(mf, ch, n.0, n.1, n.2));
        }
    }
}

/// Seed `e` names no cell of a loaded chunk inside the world's height.
pub open spec fn seed_dead(m: Map<u64, Chunk>, e: (i32, i32, i32, u8)) -> bool {
    !(0 <= e.1 < CH && m_col_loaded(m, e.0 as int, e.2 as int))
}

/// Seed `e` names a cell of chunk (cx, cz).
pub open spec fn seed_in_chunk(cx: int, cz: int, e: (i32, i32, i32, u8)) -> bool {
    e.0 as int / 16 == cx && e.2 as int / 16 == cz
}

/// No seed of `q` names a cell of a loaded chunk.
pub open spec fn all_dead(m: Map<u64, Chunk>, q: Seq<(i32, i32, i32, u8)>) -> bool {
    forall|j: int| 0 <= j < q.len() ==> seed_dead(m, #[trigger] q[j])
}

/// Direction opposite to direction `d`.
pub open spec fn opp_dir(d: int) -> int {
    if d % 2 == 0 {
        d + 1
    } else {
        d - 1
    }
}

/// Cell (x, y, z) holds no more light than its neighbour in direction `d`
/// passes on to it.
pub open spec fn lit_from(m: Map<u64, Chunk>, ch: LightChannel, x: int, y: int, z: int, d: int) -> bool {
    let n = nb(x, y, z, d);
    &&& 0 <= n.1 < CH
    &&& m_col_loaded(m, n.0, n.2)
    &&& m_chan(m, ch, x, y, z) as int <= passed_level(ch, m_chan(m, ch, n.0, n.1, n.2) as int, -(spec_dir(d).1 as int))
}

/// The light of cell (x, y, z) is accounted for by one of its neighbours.
pub open spec fn lit_by_nb(m: Map<u64, Chunk>, ch: LightChannel, x: int, y: int, z: int) -> bool {
    exists|d: int| 0 <= d < 6 && #[trigger] lit_from(m, ch, x, y, z, d)
}

/// Seed list `q0` names cell (x, y, z) at level `l`.
pub open spec fn at_seed_level(q0: Seq<(i32, i32, i32, u8)>, x: int, y: int, z: int, l: int) -> bool {
    exists|k: int| 0 <= k < q0.len() && (#[trigger] q0[k]).0 == x && q0[k].1 == y && q0[k].2 == z && q0[k].3 == l
}

/// A flood fill from `init` seeded with `q0` raised cell (x, y, z) only if
/// the cell is not opaque and holds no more light than a neighbour passes
/// on, or if the cell holds a seed's level.
pub open spec fn justified(
    init: Map<u64, Chunk>,
    m: Map<u64, Chunk>,
    ch: LightChannel,
    q0: Seq<(i32, i32, i32, u8)>,
    x: int,
    y: int,
    z: int,
) -> bool {
    0 <= y < CH && m_col_loaded(m, x, z) && m_chan(m, ch, x, y, z) > m_chan(init, ch, x, y, z) ==> (lit_by_nb(m, ch, x, y, z)
        && !spec_is_opaque(m_block(m, x, y, z))) || at_seed_level(q0, x, y, z, m_chan(m, ch, x, y, z) as int)
}

/// A queued entry whose cell already holds at least the entry's level (or
/// lies outside the loaded world).
pub open spec fn entry_settled(m: Map<u64, Chunk>, ch: LightChannel, e: (i32, i32, i32, u8)) -> bool {
    !(0 <= e.1 < CH && m_col_loaded(m, e.0 as int, e.2 as int)) || m_chan(m, ch, e.0 as int, e.1 as int, e.2 as int) >= e.3
}

pub proof fn lemma_passed_level_mono(ch: LightChannel, a: int, b: int, dy: int)
    requires
        a <= b,
    ensures
        passed_level(ch, a, dy) <= passed_level(ch, b, dy),
{
}

/// Brighter neighbours keep a cell accounted for.
pub proof fn lemma_lit_by_nb_mono(m1: Map<u64, Chunk>, m2: Map<u64, Chunk>, ch: LightChannel, x: int, y: int, z: int)
    requires
        lit_by_nb(m1, ch, x, y, z),
        m_chan(m2, ch, x, y, z) == m_chan(m1, ch, x, y, z),
        forall|cx: int, cz: int| #[trigger] m_loaded(m2, cx, cz) == m_loaded(m1, cx, cz),
        forall|a: int, b: int, c: int| #[trigger] m_chan(m2, ch, a, b, c) >= m_chan(m1, ch, a, b, c),
    ensures
        lit_by_nb(m2, ch, x, y, z),
{
    let d = choose|d: int| 0 <= d < 6 && #[trigger] lit_from(m1, ch, x, y, z, d);
    let n = nb(x, y, z, d);
    assert(m_loaded(m2, n.0 / 16, n.2 / 16) == m_loaded(m1, n.0 / 16, n.2 / 16));
    assert(m_chan(m2, ch, n.0, n.1, n.2) >= m_chan(m1, ch, n.0, n.1, n.2));
    lemma_passed_level_mono(ch, m_chan(m1, ch, n.0, n.1, n.2) as int, m_chan(m2, ch, n.0, n.1, n.2) as int, -(spec_dir(d).1 as int));
    assert(lit_from(m2, ch, x, y, z, d));
}

/// Raising a single cell `u` keeps every other cell justified and every
/// queued entry settled.
pub proof fn lemma_justified_step(
    init: Map<u64, Chunk>,
    m1: Map<u64, Chunk>,
    m2: Map<u64, Chunk>,
    ch: LightChannel,
    q0: Seq<(i32, i32, i32, u8)>,
    ux: int,
    uy: int,
    uz: int,
)
    requires
        forall|a: int, b: int, c: int| #[trigger] justified(init, m1, ch, q0, a, b, c),
        forall|cx: int, cz: int| #[trigger] m_loaded(m2, cx, cz) == m_loaded(m1, cx, cz),
        forall|a: int, b: int, c: int| #[trigger] m_block(m2, a, b, c) == m_block(m1, a, b, c),
        forall|a: int, b: int, c: int| #[trigger] m_chan(m2, ch, a, b, c) >= m_chan(m1, ch, a, b, c),
        forall|a: int, b: int, c: int|
            !(a == ux && b == uy && c == uz) ==> #[trigger] m_chan(m2, ch, a, b, c) == m_chan(m1, ch, a, b, c),
        justified(init, m2, ch, q0, ux, uy, uz),
    ensures
        forall|a: int, b: int, c: int| #[trigger] justified(init, m2, ch, q0, a, b, c),
        forall|e: (i32, i32, i32, u8)| entry_settled(m1, ch, e) ==> #[trigger] entry_settled(m2, ch, e),
{
    assert forall|a: int, b: int, c: int| #[trigger] justified(init, m2, ch, q0, a, b, c) by {
        if !(a == ux && b == uy && c == uz) {
            assert(justified(init, m1, ch, q0, a, b, c));
            assert(m_loaded(m2, a / 16, c / 16) == m_loaded(m1, a / 16, c / 16));
            if 0 <= b < CH && m_col_loaded(m2, a, c) && m_chan(m2, ch, a, b, c) > m_chan(init, ch, a, b, c) {
                if lit_by_nb(m1, ch, a, b, c) {
                    lemma_lit_by_nb_mono(m1, m2, ch, a, b, c);
                }
                assert(m_block(m2, a, b, c) == m_block(m1, a, b, c));
            }
        }
    }
    assert forall|e: (i32, i32, i32, u8)| entry_settled(m1, ch, e) implies #[trigger] entry_settled(m2, ch, e) by {
        assert(m_loaded(m2, e.0 as int / 16, e.2 as int / 16) == m_loaded(m1, e.0 as int / 16, e.2 as int / 16));
        assert(m_chan(m2, ch, e.0 as int, e.1 as int, e.2 as int) >= m_chan(m1, ch, e.0 as int, e.1 as int, e.2 as int));
    }
}

/// Torch light accounted for by a neighbour stays so when only sky light
/// changes.
pub proof fn lemma_lit_by_nb_sky_changed(a: Map<u64, Chunk>, b: Map<u64, Chunk>, x: int, y: int, z: int)
    requires
        only_chan_changed(a, b, LightChannel::Sky),
    ensures
        lit_by_nb(a, LightChannel::Torch, x, y, z) ==> lit_by_nb(b, LightChannel::Torch, x, y, z),
        m_chan(b, LightChannel::Torch, x, y, z) == m_chan(a, LightChannel::Torch, x, y, z),
{
    lemma_changed_frame(a, b, LightChannel::Sky);
    lemma_frame_cells(a, b);
    lemma_changed_other_cells(a, b, LightChannel::Sky);
    assert(other_chan(LightChannel::Sky) == LightChannel::Torch);
    assert forall|cx: int, cz: int| #[trigger] m_loaded(b, cx, cz) == m_loaded(a, cx, cz) by {}
    assert forall|p: int, q: int, r: int| #[trigger] m_chan(b, LightChannel::Torch, p, q, r) >= m_chan(a, LightChannel::Torch, p, q, r) by {}
    if lit_by_nb(a, LightChannel::Torch, x, y, z) {
        lemma_lit_by_nb_mono(a, b, LightChannel::Torch, x, y, z);
    }
}

/// Seed `e` is a torch of chunk (cx, cz) at exactly its emission.
pub open spec fn torch_seed_ok(m: Map<u64, Chunk>, cx: int, cz: int, e: (i32, i32, i32, u8)) -> bool {
    let lx = e.0 - cx * 16;
    let lz = e.2 - cz * 16;
    &&& in_chunk(lx, e.1 as int, lz)
    &&& e.3 == spec_emission(m[key_u64(cx, cz)].block_at(lx, e.1 as int, lz))
    &&& e.3 > 0
}

/// Seed `e` is a cell of chunk (cx, cz) at or above its column's sky floor,
/// at full sky light.
pub open spec fn sky_seed_ok(m: Map<u64, Chunk>, cx: int, cz: int, e: (i32, i32, i32, u8)) -> bool {
    &&& e.0 as int / 16 == cx
    &&& e.2 as int / 16 == cz
    &&& 0 <= e.1 < CH
    &&& e.1 >= m_sky_floor(m, e.0 as int, e.2 as int)
    &&& e.3 == SKY_LIGHT_MAX
}

/// The neighbour of (x, y, z) in direction `d` is loaded, inside the
/// world's height, and holds light `l + 1`.
pub open spec fn lit_from_level(m: Map<u64, Chunk>, ch: LightChannel, x: int, y: int, z: int, d: int, l: int) -> bool {
    let n = nb(x, y, z, d);
    &&& 0 <= n.1 < CH
    &&& m_col_loaded(m, n.0, n.2)
    &&& m_chan(m, ch, n.0, n.1, n.2) == l + 1
}

/// Seed `e` names a cell that is not opaque and carries one less than the
/// light of a loaded neighbour on the same height.
pub open spec fn border_seed_ok(m: Map<u64, Chunk>, ch: LightChannel, e: (i32, i32, i32, u8)) -> bool {
    !spec_is_opaque(m_block(m, e.0 as int, e.1 as int, e.2 as int)) && exists|d: int|
        0 <= d < 6 && spec_dir(d).1 == 0 && #[trigger] lit_from_level(m, ch, e.0 as int, e.1 as int, e.2 as int, d, e.3 as int)
}

/// Light level `l` at (x, y, z) comes straight from a source that relighting
/// chunk (cx, cz) of world `w` lights: a torch of the chunk at its emission,
/// or full sky light at or above the column's sky floor.
pub open spec fn relight_source(w: World, ch: LightChannel, cx: int, cz: int, x: int, y: int, z: int, l: int) -> bool {
    &&& x / 16 == cx
    &&& z / 16 == cz
    &&& match ch {
        LightChannel::Torch => l == spec_emission(w.block(x, y, z)),
        LightChannel::Sky => y >= m_sky_floor(w.chunks@, x, z) && l == SKY_LIGHT_MAX,
    }
}

/// After relighting chunk (cx, cz) of world `w`, raised light level of
/// channel `ch` at (x, y, z) in `m` either stands in a non-opaque cell and
/// is no more than a neighbour passes on, or comes straight from a source
/// of the chunk.
pub open spec fn relight_ok(w: World, m: Map<u64, Chunk>, ch: LightChannel, cx: int, cz: int, x: int, y: int, z: int) -> bool {
    (lit_by_nb(m, ch, x, y, z) && !spec_is_opaque(m_block(m, x, y, z))) || relight_source(
        w,
        ch,
        cx,
        cz,
        x,
        y,
        z,
        m_chan(m, ch, x, y, z) as int,
    )
}

/// Torch light that relighting chunk (cx, cz) raised comes from a torch of
/// the chunk or from a neighbour.
#[verifier::spinoff_prover]
#[verifier::rlimit(40)]
pub proof fn lemma_relight_torch_sources(
    s0: World,
    m0: Map<u64, Chunk>,
    m1: Map<u64, Chunk>,
    m2: Map<u64, Chunk>,
    mf: Map<u64, Chunk>,
    cx: i32,
    cz: i32,
    loaded: bool,
    tq0: Seq<(i32, i32, i32, u8)>,
    tq1: Seq<(i32, i32, i32, u8)>,
)
    requires
        s0.chunks@ == m0,
        map_ok(m0),
        map_ok(m1),
        map_ok(m2),
        map_ok(mf),
        loaded == m_loaded(m0, cx as int, cz as int),
        frame_ok(m0, m1),
        torch_same(m0, m1),
        light_grown(m1, m2, LightChannel::Torch),
        light_grown(m2, mf, LightChannel::Sky),
        forall|a: int, b: int, c: int| #[trigger] justified(m1, m2, LightChannel::Torch, tq1, a, b, c),
        tq1.len() >= tq0.len(),
        forall|j: int| 0 <= j < tq0.len() ==> tq1[j] == tq0[j],
        forall|j: int| 0 <= j < tq0.len() ==> torch_seed_ok(m0, cx as int, cz as int, #[trigger] tq0[j]),
        forall|j: int| tq0.len() <= j < tq1.len() ==> border_seed_ok(m1, LightChannel::Torch, #[trigger] tq1[j]),
    ensures
        forall|x: int, y: int, z: int|
            0 <= y < CH && m_col_loaded(mf, x, z) && m_chan(mf, LightChannel::Torch, x, y, z) > m_chan(m0, LightChannel::Torch, x, y, z)
            ==> #[trigger] relight_ok(s0, mf, LightChannel::Torch, cx as int, cz as int, x, y, z),
{
    lemma_light_grown_cells(m1, m2, LightChannel::Torch);
    lemma_light_grown_cells(m2, mf, LightChannel::Sky);
    lemma_grown_frame(m2, mf, LightChannel::Sky);
    lemma_grown_frame(m1, m2, LightChannel::Torch);
    lemma_changed_other_cells(m1, m2, LightChannel::Torch);
    lemma_changed_other_cells(m2, mf, LightChannel::Sky);
    assert(other_chan(LightChannel::Sky) == LightChannel::Torch);
    assert(other_chan(LightChannel::Torch) == LightChannel::Sky);
    assert forall|x: int, y: int, z: int|
        0 <= y < CH && m_col_loaded(mf, x, z) && m_chan(mf, LightChannel::Torch, x, y, z) > m_chan(m0, 
            LightChannel::Torch,
            x,
            y,
            z,
        ) implies #[trigger] relight_ok(s0, mf, LightChannel::Torch, cx as int, cz as int, x, y, z) by {
        assert(m_chan(m1, LightChannel::Torch, x, y, z) == m_chan(m0, LightChannel::Torch, x, y, z)) by {
            if 0 <= y < CH && m_col_loaded(m0, x, z) {
                let k = key_u64(x / 16, z / 16);
                assert(m1[k].light@ == m0[k].light@);
            }
        }
        let l = m_chan(m2, LightChannel::Torch, x, y, z);
        assert(m_chan(mf, LightChannel::Torch, x, y, z) == l);
        assert(m_col_loaded(m2, x, z));
        assert(justified(m1, m2, LightChannel::Torch, tq1, x, y, z));
        lemma_frame_cells(m2, mf);
        lemma_frame_cells(m1, m2);
        if !(lit_by_nb(m2, LightChannel::Torch, x, y, z) && !spec_is_opaque(m_block(m2, x, y, z))) {
            assert(at_seed_level(tq1, x, y, z, l as int));
            let k = choose|k: int| 0 <= k < tq1.len() && (#[trigger] tq1[k]).0 == x && tq1[k].1 == y && tq1[k].2 == z && tq1[k].3 == l;
            if k < tq0.len() {
                assert(tq1[k] == tq0[k]);
                assert(torch_seed_ok(m0, cx as int, cz as int, tq0[k]));
                let lx = x - cx * 16;
                let lz = z - cz * 16;
                assert(x / 16 == cx as int && x % 16 == lx);
                assert(z / 16 == cz as int && z % 16 == lz);
                assert(m_loaded(m0, cx as int, cz as int));
                assert(s0.block(x, y, z) == m0[key_u64(cx as int, cz as int)].block_at(lx, y, lz));
            } else {
                assert(border_seed_ok(m1, LightChannel::Torch, tq1[k]));
                let d = choose|d: int| 0 <= d < 6 && spec_dir(d).1 == 0 && #[trigger] lit_from_level(m1, LightChannel::Torch, tq1[k].0 as int, tq1[k].1 as int, tq1[k].2 as int, d, tq1[k].3 as int);
                let n = nb(x, y, z, d);
                assert(m_chan(m2, LightChannel::Torch, n.0, n.1, n.2) >= m_chan(m1, LightChannel::Torch, n.0, n.1, n.2));
                assert(m_loaded(m2, n.0 / 16, n.2 / 16) == m_loaded(m1, n.0 / 16, n.2 / 16));
                assert(lit_from(m2, LightChannel::Torch, x, y, z, d));
                assert(!spec_is_opaque(m_block(m1, x, y, z)));
            }
        }
        if lit_by_nb(m2, LightChannel::Torch, x, y, z) {
            lemma_lit_by_nb_sky_changed(m2, mf, x, y, z);
        }
    }
}

/// Relighting a chunk keeps every cell at or below a torch's light: its
/// seeds are torches and cells one below a neighbour's light.
proof fn lemma_relight_torch_capped(
    m0: Map<u64, Chunk>,
    m1: Map<u64, Chunk>,
    m2: Map<u64, Chunk>,
    mf: Map<u64, Chunk>,
    cx: i32,
    cz: i32,
    tq0: Seq<(i32, i32, i32, u8)>,
    tq1: Seq<(i32, i32, i32, u8)>,
)
    requires
        map_ok(m0),
        map_ok(m2),
        torch_same(m0, m1),
        m1.dom() == m0.dom(),
        light_grown(m2, mf, LightChannel::Sky),
        forall|a: int, b: int, c: int| #[trigger] justified(m1, m2, LightChannel::Torch, tq1, a, b, c),
        tq1.len() >= tq0.len(),
        forall|j: int| 0 <= j < tq0.len() ==> tq1[j] == tq0[j],
        forall|j: int| 0 <= j < tq0.len() ==> torch_seed_ok(m0, cx as int, cz as int, #[trigger] tq0[j]),
        forall|j: int| tq0.len() <= j < tq1.len() ==> border_seed_ok(m1, LightChannel::Torch, #[trigger] tq1[j]),
        torch_bounded(m0),
    ensures
        torch_bounded(mf),
{
    assert forall|x: int, y: int, z: int| #[trigger] m_chan(m1, LightChannel::Torch, x, y, z) <= TORCH_LIGHT by {
        assert(m_chan(m0, LightChannel::Torch, x, y, z) <= TORCH_LIGHT);
        if 0 <= y < CH && m_col_loaded(m0, x, z) {
            let k = key_u64(x / 16, z / 16);
            assert(m1[k].light@ == m0[k].light@);
        }
    }
    assert forall|j: int| 0 <= j < tq1.len() implies #[trigger] seed_capped(m1, tq1[j]) by {
        if j < tq0.len() {
            assert(tq1[j] == tq0[j]);
            assert(torch_seed_ok(m0, cx as int, cz as int, tq0[j]));
        } else {
            assert(border_seed_ok(m1, LightChannel::Torch, tq1[j]));
            let e = tq1[j];
            let d = choose|d: int| 0 <= d < 6 && spec_dir(d).1 == 0 && #[trigger] lit_from_level(m1, LightChannel::Torch, e.0 as int, e.1 as int, e.2 as int, d, e.3 as int);
            let n = nb(e.0 as int, e.1 as int, e.2 as int, d);
            assert(m_chan(m1, LightChannel::Torch, n.0, n.1, n.2) <= TORCH_LIGHT);
        }
    }
    lemma_cap_after_flood(m1, m2, tq1);
    lemma_light_grown_cells(m2, mf, LightChannel::Sky);
    assert(other_chan(LightChannel::Sky) == LightChannel::Torch);
    assert forall|x: int, y: int, z: int| #[trigger] m_chan(mf, LightChannel::Torch, x, y, z) <= TORCH_LIGHT by {
        assert(m_chan(mf, LightChannel::Torch, x, y, z) == m_chan(m2, LightChannel::Torch, x, y, z));
    }
}

/// Sky light that relighting chunk (cx, cz) raised is full sky light at or
/// above a column's sky floor in the chunk, or comes from a neighbour.
#[verifier::spinoff_prover]
#[verifier::rlimit(40)]
pub proof fn lemma_relight_sky_sources(
    s0: World,
    m0: Map<u64, Chunk>,
    m1: Map<u64, Chunk>,
    m2: Map<u64, Chunk>,
    mf: Map<u64, Chunk>,
    cx: i32,
    cz: i32,
    loaded: bool,
    sqf: Seq<(i32, i32, i32, u8)>,
    sq1: Seq<(i32, i32, i32, u8)>,
)
    requires
        s0.chunks@ == m0,
        map_ok(m0),
        map_ok(m1),
        map_ok(m2),
        map_ok(mf),
        loaded == m_loaded(m0, cx as int, cz as int),
        frame_ok(m0, m1),
        torch_same(m0, m1),
        light_grown(m1, m2, LightChannel::Torch),
        light_grown(m2, mf, LightChannel::Sky),
        forall|lx: int, lz: int, y: int|
            loaded && 0 <= lx < CS && 0 <= lz < CS && m_sky_floor(m0, cx * 16 + lx, cz * 16 + lz) <= y < CH
                ==> #[trigger] m_chan(m1, LightChannel::Sky, cx * 16 + lx, y, cz * 16 + lz) == SKY_LIGHT_MAX,
        forall|x2: int, y2: int, z2: int|
            !(loaded && x2 / 16 == cx && z2 / 16 == cz && y2 >= m_sky_floor(m0, x2, z2))
                ==> #[trigger] m_chan(m1, LightChannel::Sky, x2, y2, z2) == m_chan(m0, LightChannel::Sky, x2, y2, z2),
        forall|a: int, b: int, c: int| #[trigger] justified(m2, mf, LightChannel::Sky, sq1, a, b, c),
        sq1.len() >= sqf.len(),
        forall|j: int| 0 <= j < sqf.len() ==> sq1[j] == sqf[j],
        forall|j: int| 0 <= j < sqf.len() ==> sky_seed_ok(m0, cx as int, cz as int, #[trigger] sqf[j]),
        forall|j: int| sqf.len() <= j < sq1.len() ==> border_seed_ok(m1, LightChannel::Sky, #[trigger] sq1[j]),
    ensures
        forall|x: int, y: int, z: int|
            0 <= y < CH && m_col_loaded(mf, x, z) && m_chan(mf, LightChannel::Sky, x, y, z) > m_chan(m0, LightChannel::Sky, x, y, z)
            ==> #[trigger] relight_ok(s0, mf, LightChannel::Sky, cx as int, cz as int, x, y, z),
{
    lemma_light_grown_cells(m1, m2, LightChannel::Torch);
    lemma_light_grown_cells(m2, mf, LightChannel::Sky);
    lemma_grown_frame(m2, mf, LightChannel::Sky);
    lemma_grown_frame(m1, m2, LightChannel::Torch);
    lemma_changed_other_cells(m1, m2, LightChannel::Torch);
    lemma_changed_other_cells(m2, mf, LightChannel::Sky);
    assert(other_chan(LightChannel::Sky) == LightChannel::Torch);
    assert(other_chan(LightChannel::Torch) == LightChannel::Sky);
    assert forall|x: int, y: int, z: int|
        0 <= y < CH && m_col_loaded(mf, x, z) && m_chan(mf, LightChannel::Sky, x, y, z) > m_chan(m0, 
            LightChannel::Sky,
            x,
            y,
            z,
        ) implies #[trigger] relight_ok(s0, mf, LightChannel::Sky, cx as int, cz as int, x, y, z) by {
        let lf = m_chan(mf, LightChannel::Sky, x, y, z);
        if x / 16 == cx && z / 16 == cz && y >= m_sky_floor(m0, x, z) {
            let k = key_u64(x / 16, z / 16);
            assert(chunk_ok(mf[k]));
            lemma_cell_index(x % 16, y, z % 16);
            assert(lf <= SKY_LIGHT_MAX);
            let lx = x % 16;
            let lz = z % 16;
            assert(x == cx * 16 + lx && z == cz * 16 + lz);
            assert(m_col_loaded(m0, x, z));
            assert(loaded);
            assert(m_chan(m1, LightChannel::Sky, cx * 16 + lx, y, cz * 16 + lz) == SKY_LIGHT_MAX);
            assert(m_chan(m2, LightChannel::Sky, x, y, z) == m_chan(m1, LightChannel::Sky, x, y, z));
            assert(lf >= m_chan(m2, LightChannel::Sky, x, y, z));
        } else {
            assert(m_chan(m1, LightChannel::Sky, x, y, z) == m_chan(m0, LightChannel::Sky, x, y, z));
            assert(m_chan(m2, LightChannel::Sky, x, y, z) == m_chan(m1, LightChannel::Sky, x, y, z));
            assert(m_col_loaded(mf, x, z));
            assert(justified(m2, mf, LightChannel::Sky, sq1, x, y, z));
            lemma_frame_cells(m2, mf);
            lemma_frame_cells(m1, m2);
            if !(lit_by_nb(mf, LightChannel::Sky, x, y, z) && !spec_is_opaque(m_block(mf, x, y, z))) {
                assert(at_seed_level(sq1, x, y, z, lf as int));
                let k = choose|k: int| 0 <= k < sq1.len() && (#[trigger] sq1[k]).0 == x && sq1[k].1 == y && sq1[k].2 == z && sq1[k].3 == lf;
                if k < sqf.len() {
                    assert(sq1[k] == sqf[k]);
                    assert(sky_seed_ok(m0, cx as int, cz as int, sqf[k]));
                    assert(false);
                } else {
                    assert(border_seed_ok(m1, LightChannel::Sky, sq1[k]));
                    let d = choose|d: int| 0 <= d < 6 && spec_dir(d).1 == 0 && #[trigger] lit_from_level(m1, LightChannel::Sky, sq1[k].0 as int, sq1[k].1 as int, sq1[k].2 as int, d, sq1[k].3 as int);
                    let n = nb(x, y, z, d);
                    assert(m_chan(m2, LightChannel::Sky, n.0, n.1, n.2) == m_chan(m1, LightChannel::Sky, n.0, n.1, n.2));
                    assert(m_chan(mf, LightChannel::Sky, n.0, n.1, n.2) >= m_chan(m2, LightChannel::Sky, n.0, n.1, n.2));
                    assert(m_loaded(mf, n.0 / 16, n.2 / 16) == m_loaded(m1, n.0 / 16, n.2 / 16));
                    assert(lit_from(mf, LightChannel::Sky, x, y, z, d));
                    assert(!spec_is_opaque(m_block(m1, x, y, z)));
                }
            }
        }
    }
}

/// With exact column heights, the cells at or above a column's sky floor
/// are not opaque.
pub proof fn lemma_above_floor_open(m: Map<u64, Chunk>, x: int, y: int, z: int)
    requires
        map_heights_exact(m),
        map_ok(m),
        m_col_loaded(m, x, z),
        0 <= y < CH,
        y >= m_sky_floor(m, x, z),
    ensures
        !spec_is_opaque(m_block(m, x, y, z)),
{
    let k = key_u64(x / 16, z / 16);
    let c = m[k];
    assert(c.heights_exact());
    assert(chunk_ok(c));
    let lx = x % 16;
    let lz = z % 16;
    let t = top_opaque(c.blocks@, lx, lz);
    assert(c.heights@[col_index(lx, lz)] as int == t);
    crate::chunk::lemma_top_opaque_from_props(c.blocks@, lx, lz, CH - 1);
    assert(!spec_is_opaque(block_in(c.blocks@, lx, y, lz)));
}

/// Relighting a chunk leaves the light of every opaque cell as it was, in a
/// world whose stored column heights are exact.
pub proof fn lemma_relight_keeps_opaque_dark(
    s0: World,
    mf: Map<u64, Chunk>,
    cx: int,
    cz: int,
    ch: LightChannel,
    x: int,
    y: int,
    z: int,
)
    requires
        s0.wf(),
        s0.heights_exact(),
        frame_ok(s0.chunks@, mf),
        0 <= y < CH,
        spec_is_opaque(s0.block(x, y, z)),
        m_chan(mf, ch, x, y, z) >= m_chan(s0.chunks@, ch, x, y, z),
        0 <= y < CH && m_col_loaded(mf, x, z) && m_chan(mf, ch, x, y, z) > m_chan(s0.chunks@, ch, x, y, z) ==> relight_ok(
            s0,
            mf,
            ch,
            cx,
            cz,
            x,
            y,
            z,
        ),
    ensures
        m_chan(mf, ch, x, y, z) == m_chan(s0.chunks@, ch, x, y, z),
{
    lemma_frame_cells(s0.chunks@, mf);
    if m_chan(mf, ch, x, y, z) > m_chan(s0.chunks@, ch, x, y, z) {
        assert(m_col_loaded(mf, x, z));
        assert(m_block(mf, x, y, z) == m_block(s0.chunks@, x, y, z));
        if relight_source(s0, ch, cx, cz, x, y, z, m_chan(mf, ch, x, y, z) as int) {
            match ch {
                LightChannel::Torch => {},
                LightChannel::Sky => {
                    assert(m_loaded(mf, x / 16, z / 16) == m_loaded(s0.chunks@, x / 16, z / 16));
                    lemma_above_floor_open(s0.chunks@, x, y, z);
                },
            }
        }
    }
}

/// Cell (x, y, z) got more torch light in `b` than in `a` only as the new
/// torch at (tx, ty, tz) itself, or as a non-opaque cell holding no more
/// than a neighbour passes on.
pub open spec fn torch_raise_ok(
    a: Map<u64, Chunk>,
    b: Map<u64, Chunk>,
    tx: int,
    ty: int,
    tz: int,
    x: int,
    y: int,
    z: int,
) -> bool {
    0 <= y < CH && m_col_loaded(b, x, z) && m_chan(b, LightChannel::Torch, x, y, z) > m_chan(a, LightChannel::Torch, x, y, z)
        ==> (x == tx && y == ty && z == tz) || (lit_by_nb(b, LightChannel::Torch, x, y, z) && !spec_is_opaque(
        m_block(b, x, y, z),
    ))
}

/// Torch-light rises stay accounted for when only sky light changes.
pub proof fn lemma_torch_raise_sky_changed(a: Map<u64, Chunk>, b: Map<u64, Chunk>, c: Map<u64, Chunk>, tx: int, ty: int, tz: int)
    requires
        forall|x: int, y: int, z: int| #[trigger] torch_raise_ok(a, b, tx, ty, tz, x, y, z),
        only_chan_changed(b, c, LightChannel::Sky),
    ensures
        forall|x: int, y: int, z: int| #[trigger] torch_raise_ok(a, c, tx, ty, tz, x, y, z),
{
    lemma_changed_frame(b, c, LightChannel::Sky);
    lemma_frame_cells(b, c);
    assert forall|x: int, y: int, z: int| #[trigger] torch_raise_ok(a, c, tx, ty, tz, x, y, z) by {
        assert(torch_raise_ok(a, b, tx, ty, tz, x, y, z));
        lemma_lit_by_nb_sky_changed(b, c, x, y, z);
        assert(m_loaded(c, x / 16, z / 16) == m_loaded(b, x / 16, z / 16));
    }
}

/// Passing torch light on is untouched by a change of sky light alone.
pub proof fn lemma_passes_on_sky_changed(a: Map<u64, Chunk>, b: Map<u64, Chunk>, x: int, y: int, z: int)
    requires
        only_chan_changed(a, b, LightChannel::Sky),
        passes_on(a, LightChannel::Torch, x, y, z),
    ensures
        passes_on(b, LightChannel::Torch, x, y, z),
{
    lemma_changed_frame(a, b, LightChannel::Sky);
    lemma_frame_cells(a, b);
    lemma_changed_other_cells(a, b, LightChannel::Sky);
    assert(other_chan(LightChannel::Sky) == LightChannel::Torch);
    assert forall|cx: int, cz: int| #[trigger] m_loaded(b, cx, cz) == m_loaded(a, cx, cz) by {}
    lemma_passes_on_mono(a, b, LightChannel::Torch, x, y, z);
}

/// No cell holds more torch light than a torch gives off.
pub open spec fn torch_bounded(m: Map<u64, Chunk>) -> bool {
    forall|x: int, y: int, z: int| #[trigger] m_chan(m, LightChannel::Torch, x, y, z) <= TORCH_LIGHT
}

/// No opaque block holds light of channel `ch`.
pub open spec fn dark_chan(m: Map<u64, Chunk>, ch: LightChannel) -> bool {
    forall|x: int, y: int, z: int| #[trigger] m_chan(m, ch, x, y, z) > 0 ==> !spec_is_opaque(m_block(m, x, y, z))
}

/// No opaque block holds light of either channel.
pub open spec fn dark_opaque(m: Map<u64, Chunk>) -> bool {
    dark_chan(m, LightChannel::Torch) && dark_chan(m, LightChannel::Sky)
}

/// No opaque block other than the one at (x, y, z) holds light of channel
/// `ch`.
pub open spec fn dark_chan_except(m: Map<u64, Chunk>, ch: LightChannel, x: int, y: int, z: int) -> bool {
    forall|a: int, b: int, c: int|
        #[trigger] m_chan(m, ch, a, b, c) > 0 && !(a == x && b == y && c == z) ==> !spec_is_opaque(m_block(m, a, b, c))
}

/// Seed `e` names a cell that is not opaque, or brings it no more light than
/// it already holds.
pub open spec fn seed_open(m: Map<u64, Chunk>, ch: LightChannel, e: (i32, i32, i32, u8)) -> bool {
    !spec_is_opaque(m_block(m, e.0 as int, e.1 as int, e.2 as int)) || e.3 <= m_chan(m, ch, e.0 as int, e.1 as int, e.2 as int)
}

/// Seed `e` carries at most a torch's light, or no more light than its cell
/// already holds.
pub open spec fn seed_capped(m: Map<u64, Chunk>, e: (i32, i32, i32, u8)) -> bool {
    e.3 <= TORCH_LIGHT || e.3 <= m_chan(m, LightChannel::Torch, e.0 as int, e.1 as int, e.2 as int)
}

/// A flood fill keeps opaque blocks dark when its seeds do.
pub proof fn lemma_dark_after_flood(a: Map<u64, Chunk>, b: Map<u64, Chunk>, ch: LightChannel, q0: Seq<(i32, i32, i32, u8)>)
    requires
        dark_chan(a, ch),
        forall|x: int, y: int, z: int| #[trigger] m_block(b, x, y, z) == m_block(a, x, y, z),
        forall|x: int, y: int, z: int| #[trigger] justified(a, b, ch, q0, x, y, z),
        forall|j: int| 0 <= j < q0.len() ==> #[trigger] seed_open(a, ch, q0[j]),
    ensures
        dark_chan(b, ch),
{
    assert forall|x: int, y: int, z: int| #[trigger] m_chan(b, ch, x, y, z) > 0 implies !spec_is_opaque(m_block(b, x, y, z)) by {
        assert(justified(a, b, ch, q0, x, y, z));
        assert(m_block(b, x, y, z) == m_block(a, x, y, z));
        if spec_is_opaque(m_block(b, x, y, z)) {
            assert(m_chan(a, ch, x, y, z) == 0);
            let k = choose|k: int| 0 <= k < q0.len() && (#[trigger] q0[k]).0 == x && q0[k].1 == y && q0[k].2 == z && q0[k].3 == m_chan(b, ch, x, y, z);
            assert(seed_open(a, ch, q0[k]));
        }
    }
}

/// A cell whose torch light rose above the cap draws it from a neighbour that
/// holds even more, so no such cell exists.
proof fn lemma_cap_cell(a: Map<u64, Chunk>, b: Map<u64, Chunk>, q0: Seq<(i32, i32, i32, u8)>, x: int, y: int, z: int)
    requires
        torch_bounded(a),
        forall|x2: int, y2: int, z2: int| #[trigger] justified(a, b, LightChannel::Torch, q0, x2, y2, z2),
        forall|j: int| 0 <= j < q0.len() ==> #[trigger] seed_capped(a, q0[j]),
    ensures
        m_chan(b, LightChannel::Torch, x, y, z) <= TORCH_LIGHT,
    decreases 256 - m_chan(b, LightChannel::Torch, x, y, z),
{
    let v = m_chan(b, LightChannel::Torch, x, y, z);
    if v > TORCH_LIGHT {
        assert(m_chan(a, LightChannel::Torch, x, y, z) <= TORCH_LIGHT);
        assert(justified(a, b, LightChannel::Torch, q0, x, y, z));
        if at_seed_level(q0, x, y, z, v as int) {
            let k = choose|k: int| 0 <= k < q0.len() && (#[trigger] q0[k]).0 == x && q0[k].1 == y && q0[k].2 == z && q0[k].3 == v;
            assert(seed_capped(a, q0[k]));
        } else {
            let d = choose|d: int| 0 <= d < 6 && #[trigger] lit_from(b, LightChannel::Torch, x, y, z, d);
            let n = nb(x, y, z, d);
            assert(m_chan(b, LightChannel::Torch, n.0, n.1, n.2) > v);
            lemma_cap_cell(a, b, q0, n.0, n.1, n.2);
        }
    }
}

/// Steps between (x, y, z) and (tx, ty, tz) along the grid.
pub open spec fn grid_distance(x: int, y: int, z: int, tx: int, ty: int, tz: int) -> int {
    (if x >= tx { x - tx } else { tx - x }) + (if y >= ty { y - ty } else { ty - y }) + (if z >= tz { z - tz } else { tz - z })
}

/// Torch light that a torch placed at (tx, ty, tz) spread through a world
/// that held no torch light fades by one per step: a lit cell `d` steps from
/// the torch holds at most 14 - `d`, so nothing beyond 14 steps is lit.
pub proof fn lemma_torch_light_within_reach(
    a: Map<u64, Chunk>,
    b: Map<u64, Chunk>,
    tx: int,
    ty: int,
    tz: int,
    x: int,
    y: int,
    z: int,
)
    requires
        forall|x2: int, y2: int, z2: int| #[trigger] m_chan(a, LightChannel::Torch, x2, y2, z2) == 0,
        torch_bounded(b),
        forall|x2: int, y2: int, z2: int| #[trigger] torch_raise_ok(a, b, tx, ty, tz, x2, y2, z2),
    ensures
        m_chan(b, LightChannel::Torch, x, y, z) > 0 ==> m_chan(b, LightChannel::Torch, x, y, z) + grid_distance(x, y, z, tx, ty, tz)
            <= TORCH_LIGHT,
    decreases 256 - m_chan(b, LightChannel::Torch, x, y, z),
{
    let v = m_chan(b, LightChannel::Torch, x, y, z);
    if v > 0 {
        assert(m_chan(a, LightChannel::Torch, x, y, z) == 0);
        assert(torch_raise_ok(a, b, tx, ty, tz, x, y, z));
        assert(m_chan(b, LightChannel::Torch, x, y, z) <= TORCH_LIGHT);
        if !(x == tx && y == ty && z == tz) {
            let d = choose|d: int| 0 <= d < 6 && #[trigger] lit_from(b, LightChannel::Torch, x, y, z, d);
            let n = nb(x, y, z, d);
            assert(m_chan(b, LightChannel::Torch, n.0, n.1, n.2) > v);
            lemma_torch_light_within_reach(a, b, tx, ty, tz, n.0, n.1, n.2);
            assert(grid_distance(x, y, z, tx, ty, tz) <= grid_distance(n.0, n.1, n.2, tx, ty, tz) + 1);
        }
    }
}

/// A flood fill of torch light keeps every cell at or below a torch's light
/// when its seeds do.
pub proof fn lemma_cap_after_flood(a: Map<u64, Chunk>, b: Map<u64, Chunk>, q0: Seq<(i32, i32, i32, u8)>)
    requires
        torch_bounded(a),
        forall|x: int, y: int, z: int| #[trigger] justified(a, b, LightChannel::Torch, q0, x, y, z),
        forall|j: int| 0 <= j < q0.len() ==> #[trigger] seed_capped(a, q0[j]),
    ensures
        torch_bounded(b),
{
    assert forall|x: int, y: int, z: int| #[trigger] m_chan(b, LightChannel::Torch, x, y, z) <= TORCH_LIGHT by {
        lemma_cap_cell(a, b, q0, x, y, z);
    }
}

/// Cell (x, y, z) holds at least what its neighbour in direction `d` passes
/// on to it.
pub open spec fn draws_from(m: Map<u64, Chunk>, ch: LightChannel, x: int, y: int, z: int, d: int) -> bool {
    let n = nb(x, y, z, d);
    m_chan(m, ch, x, y, z) as int >= passed_level(ch, m_chan(m, ch, n.0, n.1, n.2) as int, -(spec_dir(d).1 as int))
}

/// Cell (x, y, z) holds at least what each of its neighbours passes on to it.
pub open spec fn drawn_from_nbs(m: Map<u64, Chunk>, ch: LightChannel, x: int, y: int, z: int) -> bool {
    forall|d: int| 0 <= d < 6 ==> #[trigger] draws_from(m, ch, x, y, z, d)
}

/// A cell whose light of channel `ch` rose from `a` to `b` has passed it on.
pub open spec fn rise_passes(a: Map<u64, Chunk>, b: Map<u64, Chunk>, ch: LightChannel, x: int, y: int, z: int) -> bool {
    0 <= y < CH && m_col_loaded(b, x, z) && m_chan(b, ch, x, y, z) > m_chan(a, ch, x, y, z) ==> passes_on(b, ch, x, y, z)
}

/// After an opaque block at (x, y, z) gave way to the open block `b`: the
/// cell holds at least what each neighbour passes on to it (torch light only
/// when `b` gives off none, since a torch lights its own cell), full sky light
/// at the top of the world, every cell whose light rose since `a` has passed
/// it on and holds no more than a neighbour passes on to it (or, for sky
/// light, is the opened cell itself at the top of the world), and no light
/// went down.
pub open spec fn opened_lit(a: Map<u64, Chunk>, m: Map<u64, Chunk>, x: int, y: int, z: int, b: Block) -> bool {
    &&& drawn_from_nbs(m, LightChannel::Sky, x, y, z)
    &&& (y == CH - 1 ==> m_chan(m, LightChannel::Sky, x, y, z) >= SKY_LIGHT_MAX)
    &&& forall|x2: int, y2: int, z2: int| #[trigger] rise_passes(a, m, LightChannel::Sky, x2, y2, z2)
    &&& (spec_emission(b) == 0 ==> drawn_from_nbs(m, LightChannel::Torch, x, y, z))
    &&& (spec_emission(b) == 0 ==> forall|x2: int, y2: int, z2: int| #[trigger] rise_passes(a, m, LightChannel::Torch, x2, y2, z2))
    &&& forall|x2: int, y2: int, z2: int| #[trigger] m_chan(m, LightChannel::Sky, x2, y2, z2) >= m_chan(a, LightChannel::Sky, x2, y2, z2)
    &&& forall|x2: int, y2: int, z2: int| #[trigger] m_chan(m, LightChannel::Torch, x2, y2, z2) >= m_chan(a, LightChannel::Torch, x2, y2, z2)
    &&& forall|x2: int, y2: int, z2: int| #[trigger] sky_rise_ok(a, m, x, y, z, x2, y2, z2)
    &&& (spec_emission(b) == 0 ==> forall|x2: int, y2: int, z2: int| #[trigger] rise_by_nb(a, m, LightChannel::Torch, x2, y2, z2))
}

/// Cell (x2, y2, z2) got more sky light in `m` than in `a` only as a
/// non-opaque cell holding no more than a neighbour passes on to it, or as
/// the cell (x, y, z) at the top of the world, open to the sky.
pub open spec fn sky_rise_ok(a: Map<u64, Chunk>, m: Map<u64, Chunk>, x: int, y: int, z: int, x2: int, y2: int, z2: int) -> bool {
    rise_by_nb(a, m, LightChannel::Sky, x2, y2, z2) || (x2 == x && y2 == y && z2 == z && y == CH - 1)
}

proof fn lemma_sky_bound_cell(
    a: Map<u64, Chunk>,
    b: Map<u64, Chunk>,
    x0: int,
    y0: int,
    z0: int,
    f: spec_fn(int, int, int) -> int,
    x: int,
    y: int,
    z: int,
)
    requires
        forall|x2: int, y2: int, z2: int| #[trigger] m_chan(a, LightChannel::Sky, x2, y2, z2) <= f(x2, y2, z2),
        forall|x2: int, y2: int, z2: int, d: int|
            0 <= d < 6 ==> passed_level(LightChannel::Sky, #[trigger] f(nb(x2, y2, z2, d).0, nb(x2, y2, z2, d).1, nb(x2, y2, z2, d).2), -(spec_dir(d).1 as int))
                <= f(x2, y2, z2),
        forall|x2: int, y2: int, z2: int| #[trigger] sky_rise_ok(a, b, x0, y0, z0, x2, y2, z2),
        y0 == CH - 1 ==> m_chan(b, LightChannel::Sky, x0, y0, z0) <= f(x0, y0, z0),
    ensures
        m_chan(b, LightChannel::Sky, x, y, z) <= f(x, y, z),
    decreases 256 - m_chan(b, LightChannel::Sky, x, y, z), CH - y,
{
    let v = m_chan(b, LightChannel::Sky, x, y, z);
    if v > f(x, y, z) {
        assert(m_chan(a, LightChannel::Sky, x, y, z) <= f(x, y, z));
        assert(sky_rise_ok(a, b, x0, y0, z0, x, y, z));
        if !(x == x0 && y == y0 && z == z0 && y0 == CH - 1) {
            let d = choose|d: int| 0 <= d < 6 && #[trigger] lit_from(b, LightChannel::Sky, x, y, z, d);
            let n = nb(x, y, z, d);
            let vn = m_chan(b, LightChannel::Sky, n.0, n.1, n.2);
            assert(passed_level(LightChannel::Sky, f(n.0, n.1, n.2), -(spec_dir(d).1 as int)) <= f(x, y, z));
            if vn <= f(n.0, n.1, n.2) {
                lemma_passed_level_mono(LightChannel::Sky, vn as int, f(n.0, n.1, n.2), -(spec_dir(d).1 as int));
            } else {
                assert(vn > v || (vn == v && n.1 == y + 1));
                lemma_sky_bound_cell(a, b, x0, y0, z0, f, n.0, n.1, n.2);
            }
        }
    }
}

/// An upper bound on sky light that every light before an opening obeys,
/// that each cell keeps relative to what its neighbours pass on, and that the
/// opened cell obeys where it lies at the top of the world, still holds after
/// the opening: raised light only comes from neighbours or from the sky.
pub proof fn lemma_opened_sky_bounded(
    a: Map<u64, Chunk>,
    b: Map<u64, Chunk>,
    x0: int,
    y0: int,
    z0: int,
    f: spec_fn(int, int, int) -> int,
)
    requires
        forall|x2: int, y2: int, z2: int| #[trigger] m_chan(a, LightChannel::Sky, x2, y2, z2) <= f(x2, y2, z2),
        forall|x2: int, y2: int, z2: int, d: int|
            0 <= d < 6 ==> passed_level(LightChannel::Sky, #[trigger] f(nb(x2, y2, z2, d).0, nb(x2, y2, z2, d).1, nb(x2, y2, z2, d).2), -(spec_dir(d).1 as int))
                <= f(x2, y2, z2),
        forall|x2: int, y2: int, z2: int| #[trigger] sky_rise_ok(a, b, x0, y0, z0, x2, y2, z2),
        y0 == CH - 1 ==> m_chan(b, LightChannel::Sky, x0, y0, z0) <= f(x0, y0, z0),
    ensures
        forall|x2: int, y2: int, z2: int| #[trigger] m_chan(b, LightChannel::Sky, x2, y2, z2) <= f(x2, y2, z2),
{
    assert forall|x2: int, y2: int, z2: int| #[trigger] m_chan(b, LightChannel::Sky, x2, y2, z2) <= f(x2, y2, z2) by {
        lemma_sky_bound_cell(a, b, x0, y0, z0, f, x2, y2, z2);
    }
}

/// Each entry that `lit_neighbours` lists names a neighbour at its current
/// light, which is above 1.
pub proof fn lemma_lit_neighbours_levels(m: Map<u64, Chunk>, ch: LightChannel, x: int, y: int, z: int, d: int)
    requires
        0 <= d <= 6,
        -0x7fff_fff0 < x < 0x7fff_fff0,
        -0x7fff_fff0 < z < 0x7fff_fff0,
        0 <= y < CH,
    ensures
        forall|k: int| 0 <= k < lit_neighbours(m, ch, x, y, z, d).len() ==> m_chan(
            m,
            ch,
            (#[trigger] lit_neighbours(m, ch, x, y, z, d)[k]).0 as int,
            lit_neighbours(m, ch, x, y, z, d)[k].1 as int,
            lit_neighbours(m, ch, x, y, z, d)[k].2 as int,
        ) == lit_neighbours(m, ch, x, y, z, d)[k].3 && lit_neighbours(m, ch, x, y, z, d)[k].3 > 1,
    decreases d,
{
    if d > 0 {
        lemma_lit_neighbours_levels(m, ch, x, y, z, d - 1);
        let pre = lit_neighbours(m, ch, x, y, z, d - 1);
        let all = lit_neighbours(m, ch, x, y, z, d);
        assert forall|k: int| 0 <= k < all.len() implies m_chan(m, ch, (#[trigger] all[k]).0 as int, all[k].1 as int, all[k].2 as int)
            == all[k].3 && all[k].3 > 1 by {
            if k < pre.len() {
                assert(all[k] == pre[k]);
            }
        }
    }
}

/// A neighbour with light above 1 is listed by `lit_neighbours`.
pub proof fn lemma_lit_neighbour_listed(m: Map<u64, Chunk>, ch: LightChannel, x: int, y: int, z: int, d: int, e: int)
    requires
        0 <= e < d <= 6,
        m_chan(m, ch, nb(x, y, z, e).0, nb(x, y, z, e).1, nb(x, y, z, e).2) > 1,
    ensures
        exists|k: int|
            0 <= k < lit_neighbours(m, ch, x, y, z, d).len() && #[trigger] lit_neighbours(m, ch, x, y, z, d)[k] == (
                (x + spec_dir(e).0) as i32,
                (y + spec_dir(e).1) as i32,
                (z + spec_dir(e).2) as i32,
                m_chan(m, ch, nb(x, y, z, e).0, nb(x, y, z, e).1, nb(x, y, z, e).2),
            ),
    decreases d,
{
    let pre = lit_neighbours(m, ch, x, y, z, d - 1);
    let all = lit_neighbours(m, ch, x, y, z, d);
    if e == d - 1 {
        assert(all[pre.len() as int] == (
            (x + spec_dir(e).0) as i32,
            (y + spec_dir(e).1) as i32,
            (z + spec_dir(e).2) as i32,
            m_chan(m, ch, nb(x, y, z, e).0, nb(x, y, z, e).1, nb(x, y, z, e).2),
        ));
    } else {
        lemma_lit_neighbour_listed(m, ch, x, y, z, d - 1, e);
        let k = choose|k: int|
            0 <= k < pre.len() && #[trigger] pre[k] == (
                (x + spec_dir(e).0) as i32,
                (y + spec_dir(e).1) as i32,
                (z + spec_dir(e).2) as i32,
                m_chan(m, ch, nb(x, y, z, e).0, nb(x, y, z, e).1, nb(x, y, z, e).2),
            );
        assert(all[k] == pre[k]);
    }
}

/// After a flood fill seeded with the lit neighbours of an open cell, the
/// cell holds at least what each neighbour passes on to it.
pub proof fn lemma_opened_cell_draws(
    mp: Map<u64, Chunk>,
    mf: Map<u64, Chunk>,
    ch: LightChannel,
    x: int,
    y: int,
    z: int,
    pre: Seq<(i32, i32, i32, u8)>,
    q: Seq<(i32, i32, i32, u8)>,
)
    requires
        forall|k: u64| mp.contains_key(k) ==> #[trigger] chunk_ok(mp[k]),
        light_grown(mp, mf, ch),
        0 <= y < CH,
        -0x7fff_fff0 < x < 0x7fff_fff0,
        -0x7fff_fff0 < z < 0x7fff_fff0,
        m_col_loaded(mp, x, z),
        !spec_is_opaque(m_block(mp, x, y, z)),
        q == pre + lit_neighbours(mp, ch, x, y, z, 6),
        forall|x2: int, y2: int, z2: int|
            0 <= y2 < CH && m_col_loaded(mf, x2, z2) && (m_chan(mf, ch, x2, y2, z2) > m_chan(mp, ch, x2, y2, z2) || exists|k: int|
                0 <= k < q.len() && #[trigger] q[k] == (x2 as i32, y2 as i32, z2 as i32, m_chan(mf, ch, x2, y2, z2)))
                ==> #[trigger] passes_on(mf, ch, x2, y2, z2),
    ensures
        drawn_from_nbs(mf, ch, x, y, z),
{
    lemma_light_grown_cells(mp, mf, ch);
    assert forall|d: int| 0 <= d < 6 implies #[trigger] draws_from(mf, ch, x, y, z, d) by {
        let n = nb(x, y, z, d);
        let lf = m_chan(mf, ch, n.0, n.1, n.2);
        let lp = m_chan(mp, ch, n.0, n.1, n.2);
        if lf > 1 {
            assert(0 <= n.1 < CH && m_col_loaded(mf, n.0, n.2));
            if lf <= lp {
                assert(lf == lp);
                lemma_lit_neighbour_listed(mp, ch, x, y, z, 6, d);
                let lit = lit_neighbours(mp, ch, x, y, z, 6);
                let k = choose|k: int|
                    0 <= k < lit.len() && #[trigger] lit[k] == (
                        (x + spec_dir(d).0) as i32,
                        (y + spec_dir(d).1) as i32,
                        (z + spec_dir(d).2) as i32,
                        lp,
                    );
                assert(q[pre.len() + k] == lit[k]);
                assert(q[pre.len() + k] == (n.0 as i32, n.1 as i32, n.2 as i32, lf));
            }
            assert(passes_on(mf, ch, n.0, n.1, n.2));
            assert(passes_to(mf, ch, n.0, n.1, n.2, opp_dir(d)));
            assert(nb(n.0, n.1, n.2, opp_dir(d)) == (x, y, z));
            assert(open_side(mf, n.0, n.1, n.2, opp_dir(d)));
        }
    }
}

/// Cell (x, y, z) got more light of channel `ch` in `b` than in `a` only as
/// a non-opaque cell holding no more than a neighbour passes on to it.
pub open spec fn rise_by_nb(a: Map<u64, Chunk>, b: Map<u64, Chunk>, ch: LightChannel, x: int, y: int, z: int) -> bool {
    0 <= y < CH && m_col_loaded(b, x, z) && m_chan(b, ch, x, y, z) > m_chan(a, ch, x, y, z) ==> lit_by_nb(b, ch, x, y, z)
        && !spec_is_opaque(m_block(b, x, y, z))
}

/// The light of channel `ch` that a removal started at (x, y, z) took from
/// `a`: `mc` is `a` with some lights cleared, the start among them, and
/// every light that depended on a cleared one cleared too; `b` is `mc` with
/// light spread again only from the lights that were kept, each kept light
/// next to a cleared cell and each raised light passed on.
pub open spec fn light_removed(a: Map<u64, Chunk>, mc: Map<u64, Chunk>, b: Map<u64, Chunk>, ch: LightChannel, x: int, y: int, z: int) -> bool {
    &&& forall|x2: int, y2: int, z2: int|
        #[trigger] m_chan(mc, ch, x2, y2, z2) == m_chan(a, ch, x2, y2, z2) || m_chan(mc, ch, x2, y2, z2) == 0
    &&& m_chan(mc, ch, x, y, z) == 0
    &&& removal_closed(a, mc, ch)
    &&& forall|x2: int, y2: int, z2: int| #[trigger] m_chan(b, ch, x2, y2, z2) >= m_chan(mc, ch, x2, y2, z2)
    &&& forall|x2: int, y2: int, z2: int| #[trigger] rise_by_nb(mc, b, ch, x2, y2, z2)
    &&& forall|x2: int, y2: int, z2: int| #[trigger] rise_passes(mc, b, ch, x2, y2, z2)
    &&& removal_reseeded(a, mc, b, ch)
}

/// All torch light other than that of (x, y, z) is accounted for by a
/// neighbour: the cell at (x, y, z) is its only source.
pub open spec fn torch_fed_from(m: Map<u64, Chunk>, x: int, y: int, z: int) -> bool {
    forall|x2: int, y2: int, z2: int|
        m_chan(m, LightChannel::Torch, x2, y2, z2) > 0 && !(x2 == x && y2 == y && z2 == z) ==> #[trigger] lit_by_nb(
            m,
            LightChannel::Torch,
            x2,
            y2,
            z2,
        )
}

#[verifier::spinoff_prover]
proof fn lemma_removal_clears_fed(a: Map<u64, Chunk>, mc: Map<u64, Chunk>, x: int, y: int, z: int, x2: int, y2: int, z2: int)
    requires
        forall|x3: int, y3: int, z3: int|
            #[trigger] m_chan(mc, LightChannel::Torch, x3, y3, z3) == m_chan(a, LightChannel::Torch, x3, y3, z3) || m_chan(
                mc,
                LightChannel::Torch,
                x3,
                y3,
                z3,
            ) == 0,
        m_chan(mc, LightChannel::Torch, x, y, z) == 0,
        removal_closed(a, mc, LightChannel::Torch),
        torch_fed_from(a, x, y, z),
    ensures
        m_chan(mc, LightChannel::Torch, x2, y2, z2) == 0,
    decreases 256 - m_chan(a, LightChannel::Torch, x2, y2, z2),
{
    let v = m_chan(a, LightChannel::Torch, x2, y2, z2);
    assert(m_chan(mc, LightChannel::Torch, x2, y2, z2) == v || m_chan(mc, LightChannel::Torch, x2, y2, z2) == 0);
    if v > 0 && !(x2 == x && y2 == y && z2 == z) {
        assert(lit_by_nb(a, LightChannel::Torch, x2, y2, z2));
        let d = choose|d: int| 0 <= d < 6 && #[trigger] lit_from(a, LightChannel::Torch, x2, y2, z2, d);
        let n = nb(x2, y2, z2, d);
        assert(m_chan(a, LightChannel::Torch, n.0, n.1, n.2) > v);
        lemma_removal_clears_fed(a, mc, x, y, z, n.0, n.1, n.2);
        assert(was_cleared(a, mc, LightChannel::Torch, n.0, n.1, n.2));
        assert(nb(n.0, n.1, n.2, opp_dir(d)) == (x2, y2, z2));
        assert(dependent_cleared(a, mc, LightChannel::Torch, n.0, n.1, n.2, opp_dir(d)));
    }
}

proof fn lemma_no_rise_from_dark(mc: Map<u64, Chunk>, b: Map<u64, Chunk>, x: int, y: int, z: int)
    requires
        forall|x2: int, y2: int, z2: int| #[trigger] m_chan(mc, LightChannel::Torch, x2, y2, z2) == 0,
        forall|x2: int, y2: int, z2: int| #[trigger] rise_by_nb(mc, b, LightChannel::Torch, x2, y2, z2),
    ensures
        m_chan(b, LightChannel::Torch, x, y, z) == 0,
    decreases 256 - m_chan(b, LightChannel::Torch, x, y, z),
{
    let v = m_chan(b, LightChannel::Torch, x, y, z);
    if v > 0 {
        assert(m_chan(mc, LightChannel::Torch, x, y, z) == 0);
        assert(rise_by_nb(mc, b, LightChannel::Torch, x, y, z));
        let d = choose|d: int| 0 <= d < 6 && #[trigger] lit_from(b, LightChannel::Torch, x, y, z, d);
        let n = nb(x, y, z, d);
        lemma_no_rise_from_dark(mc, b, n.0, n.1, n.2);
    }
}

/// Removing the only source of torch light takes all of it away: when every
/// other lit cell of `a` is accounted for by a neighbour, the removal
/// started at the source leaves no torch light anywhere.
pub proof fn lemma_removing_the_only_source_clears_all(
    a: Map<u64, Chunk>,
    mc: Map<u64, Chunk>,
    b: Map<u64, Chunk>,
    x: int,
    y: int,
    z: int,
)
    requires
        light_removed(a, mc, b, LightChannel::Torch, x, y, z),
        torch_fed_from(a, x, y, z),
    ensures
        forall|x2: int, y2: int, z2: int| #[trigger] m_chan(b, LightChannel::Torch, x2, y2, z2) == 0,
{
    assert forall|x2: int, y2: int, z2: int| #[trigger] m_chan(mc, LightChannel::Torch, x2, y2, z2) == 0 by {
        lemma_removal_clears_fed(a, mc, x, y, z, x2, y2, z2);
    }
    assert forall|x2: int, y2: int, z2: int| #[trigger] m_chan(b, LightChannel::Torch, x2, y2, z2) == 0 by {
        lemma_no_rise_from_dark(mc, b, x2, y2, z2);
    }
}

/// A removal described against one light map is described against any map
/// with the same light.
pub proof fn lemma_light_removed_same_light(
    a: Map<u64, Chunk>,
    a2: Map<u64, Chunk>,
    mc: Map<u64, Chunk>,
    b: Map<u64, Chunk>,
    ch: LightChannel,
    x: int,
    y: int,
    z: int,
)
    requires
        light_removed(a, mc, b, ch, x, y, z),
        forall|x2: int, y2: int, z2: int| #[trigger] m_chan(a2, ch, x2, y2, z2) == m_chan(a, ch, x2, y2, z2),
    ensures
        light_removed(a2, mc, b, ch, x, y, z),
{
    assert forall|x2: int, y2: int, z2: int|
        #[trigger] m_chan(mc, ch, x2, y2, z2) == m_chan(a2, ch, x2, y2, z2) || m_chan(mc, ch, x2, y2, z2) == 0 by {
        assert(m_chan(a2, ch, x2, y2, z2) == m_chan(a, ch, x2, y2, z2));
    }
    assert forall|x2: int, y2: int, z2: int, d: int|
        0 <= d < 6 && was_cleared(a2, mc, ch, x2, y2, z2) implies #[trigger] dependent_cleared(a2, mc, ch, x2, y2, z2, d) by {
        let n = nb(x2, y2, z2, d);
        assert(m_chan(a2, ch, x2, y2, z2) == m_chan(a, ch, x2, y2, z2));
        assert(m_chan(a2, ch, n.0, n.1, n.2) == m_chan(a, ch, n.0, n.1, n.2));
        assert(dependent_cleared(a, mc, ch, x2, y2, z2, d));
    }
    assert forall|x2: int, y2: int, z2: int, d: int|
        0 <= d < 6 && was_cleared(a2, mc, ch, x2, y2, z2) implies #[trigger] reseeded(mc, b, ch, x2, y2, z2, d) by {
        assert(m_chan(a2, ch, x2, y2, z2) == m_chan(a, ch, x2, y2, z2));
        assert(reseeded(mc, b, ch, x2, y2, z2, d));
    }
}

/// A torch-light removal stays described when only sky light changes
/// afterwards.
pub proof fn lemma_light_removed_sky_changed(
    a: Map<u64, Chunk>,
    mc: Map<u64, Chunk>,
    b: Map<u64, Chunk>,
    c: Map<u64, Chunk>,
    x: int,
    y: int,
    z: int,
)
    requires
        light_removed(a, mc, b, LightChannel::Torch, x, y, z),
        only_chan_changed(b, c, LightChannel::Sky),
    ensures
        light_removed(a, mc, c, LightChannel::Torch, x, y, z),
{
    lemma_changed_frame(b, c, LightChannel::Sky);
    lemma_frame_cells(b, c);
    lemma_changed_other_cells(b, c, LightChannel::Sky);
    assert(other_chan(LightChannel::Sky) == LightChannel::Torch);
    assert forall|x2: int, y2: int, z2: int| #[trigger] m_chan(c, LightChannel::Torch, x2, y2, z2) >= m_chan(mc, LightChannel::Torch, x2, y2, z2) by {
        assert(m_chan(c, LightChannel::Torch, x2, y2, z2) == m_chan(b, LightChannel::Torch, x2, y2, z2));
    }
    assert forall|x2: int, y2: int, z2: int| #[trigger] rise_by_nb(mc, c, LightChannel::Torch, x2, y2, z2) by {
        assert(rise_by_nb(mc, b, LightChannel::Torch, x2, y2, z2));
        assert(m_chan(c, LightChannel::Torch, x2, y2, z2) == m_chan(b, LightChannel::Torch, x2, y2, z2));
        if lit_by_nb(b, LightChannel::Torch, x2, y2, z2) {
            lemma_lit_by_nb_sky_changed(b, c, x2, y2, z2);
        }
    }
    assert forall|x2: int, y2: int, z2: int| #[trigger] rise_passes(mc, c, LightChannel::Torch, x2, y2, z2) by {
        assert(rise_passes(mc, b, LightChannel::Torch, x2, y2, z2));
        assert(m_chan(c, LightChannel::Torch, x2, y2, z2) == m_chan(b, LightChannel::Torch, x2, y2, z2));
        if passes_on(b, LightChannel::Torch, x2, y2, z2) {
            lemma_passes_on_sky_changed(b, c, x2, y2, z2);
        }
    }
    assert forall|x2: int, y2: int, z2: int, d: int|
        0 <= d < 6 && was_cleared(a, mc, LightChannel::Torch, x2, y2, z2) implies #[trigger] reseeded(mc, c, LightChannel::Torch, x2, y2, z2, d) by {
        assert(reseeded(mc, b, LightChannel::Torch, x2, y2, z2, d));
        let n = nb(x2, y2, z2, d);
        if passes_on(b, LightChannel::Torch, n.0, n.1, n.2) {
            lemma_passes_on_sky_changed(b, c, n.0, n.1, n.2);
        }
    }
}

/// The light a removal spreads again comes from cells that kept their
/// light, so it neither exceeds a torch's light nor enters opaque blocks
/// unless the light before did.
proof fn lemma_removal_keeps_bounds(
    m_init: Map<u64, Chunk>,
    m_pre: Map<u64, Chunk>,
    mf: Map<u64, Chunk>,
    ch: LightChannel,
    sq: Seq<(i32, i32, i32, u8)>,
    x: int,
    y: int,
    z: int,
)
    requires
        cleared_only(m_init, m_pre, ch),
        m_chan(m_pre, ch, x, y, z) == 0,
        light_grown(m_pre, mf, ch),
        forall|x: int, y: int, z: int| #[trigger] justified(m_pre, mf, ch, sq, x, y, z),
        forall|j: int| 0 <= j < sq.len() ==> m_chan(m_pre, ch, (#[trigger] sq[j]).0 as int, sq[j].1 as int, sq[j].2 as int) == sq[j].3,
    ensures
        ch == LightChannel::Torch && torch_bounded(m_init) ==> torch_bounded(mf),
        dark_chan_except(m_init, ch, x, y, z) ==> dark_chan(mf, ch),
        forall|x2: int, y2: int, z2: int| #[trigger] rise_by_nb(m_pre, mf, ch, x2, y2, z2),
{
    lemma_changed_frame(m_init, m_pre, ch);
    lemma_frame_cells(m_init, m_pre);
    lemma_grown_frame(m_pre, mf, ch);
    lemma_frame_cells(m_pre, mf);
    assert forall|x2: int, y2: int, z2: int| #[trigger] rise_by_nb(m_pre, mf, ch, x2, y2, z2) by {
        assert(justified(m_pre, mf, ch, sq, x2, y2, z2));
        if 0 <= y2 < CH && m_col_loaded(mf, x2, z2) && m_chan(mf, ch, x2, y2, z2) > m_chan(m_pre, ch, x2, y2, z2) {
            if at_seed_level(sq, x2, y2, z2, m_chan(mf, ch, x2, y2, z2) as int) {
                let k = choose|k: int| 0 <= k < sq.len() && (#[trigger] sq[k]).0 == x2 && sq[k].1 == y2 && sq[k].2 == z2 && sq[k].3 == m_chan(mf, ch, x2, y2, z2);
                assert(m_chan(m_pre, ch, sq[k].0 as int, sq[k].1 as int, sq[k].2 as int) == sq[k].3);
            }
        }
    }
    if ch == LightChannel::Torch && torch_bounded(m_init) {
        assert forall|x: int, y: int, z: int| #[trigger] m_chan(m_pre, LightChannel::Torch, x, y, z) <= TORCH_LIGHT by {
            assert(m_chan(m_init, LightChannel::Torch, x, y, z) <= TORCH_LIGHT);
        }
        assert forall|j: int| 0 <= j < sq.len() implies #[trigger] seed_capped(m_pre, sq[j]) by {}
        lemma_cap_after_flood(m_pre, mf, sq);
    }
    if dark_chan_except(m_init, ch, x, y, z) {
        assert forall|a: int, b: int, c: int| #[trigger] m_chan(m_pre, ch, a, b, c) > 0 implies !spec_is_opaque(m_block(m_pre, a, b, c)) by {
            assert(m_chan(m_init, ch, a, b, c) > 0);
            assert(m_block(m_pre, a, b, c) == m_block(m_init, a, b, c));
        }
        assert forall|j: int| 0 <= j < sq.len() implies #[trigger] seed_open(m_pre, ch, sq[j]) by {}
        lemma_dark_after_flood(m_pre, mf, ch, sq);
    }
}

/// A queue entry that is dropped without effect keeps the flood's promise.
pub proof fn lemma_flood_skip(
    init: Map<u64, Chunk>,
    m: Map<u64, Chunk>,
    ch: LightChannel,
    qb: Seq<(i32, i32, i32, u8)>,
    q: Seq<(i32, i32, i32, u8)>,
    q0: Seq<(i32, i32, i32, u8)>,
    npb: int,
)
    requires
        forall|a: int, b: int, c: int| #[trigger] flood_ok(init, m, ch, qb, q0, npb, a, b, c),
        qb.len() > 0,
        q == qb.drop_first(),
        0 <= npb,
        npb < q0.len() ==> q0[npb] == qb[0],
        !(0 <= qb[0].1 < CH && m_col_loaded(m, qb[0].0 as int, qb[0].2 as int)) || m_chan(
            m,
            ch,
            qb[0].0 as int,
            qb[0].1 as int,
            qb[0].2 as int,
        ) > qb[0].3,
    ensures
        forall|a: int, b: int, c: int| #[trigger] flood_ok(init, m, ch, q, q0, npb + 1, a, b, c),
{
    assert forall|a: int, b: int, c: int| #[trigger] flood_ok(init, m, ch, q, q0, npb + 1, a, b, c) by {
        assert(flood_ok(init, m, ch, qb, q0, npb, a, b, c));
        if 0 <= b < CH && m_col_loaded(m, a, c) && (m_chan(m, ch, a, b, c) > m_chan(init, ch, a, b, c) || seed_hit(
            q0,
            npb + 1,
            m,
            ch,
            a,
            b,
            c,
        )) {
            if seed_hit(q0, npb + 1, m, ch, a, b, c) && !(m_chan(m, ch, a, b, c) > m_chan(init, ch, a, b, c)) {
                let k = choose|k: int|
                    0 <= k < npb + 1 && k < q0.len() && (#[trigger] q0[k]).0 == a && q0[k].1 == b && q0[k].2 == c
                        && q0[k].3 == m_chan(m, ch, a, b, c);
                if k == npb {
                    assert(q0[k] == qb[0]);
                    assert(false);
                }
                assert(seed_hit(q0, npb, m, ch, a, b, c));
            }
            if !passes_on(m, ch, a, b, c) {
                let j = choose|j: int|
                    0 <= j < qb.len() && (#[trigger] qb[j]).0 == a && qb[j].1 == b && qb[j].2 == c && qb[j].3
                        == m_chan(m, ch, a, b, c);
                if j == 0 {
                    assert(false);
                }
                assert(q[j - 1] == qb[j]);
            }
        }
    }
}

/// Handling a queue entry that names a live cell keeps the flood's promise,
/// given that the cell now passes its light on and every other changed cell
/// waits in the queue.
pub proof fn lemma_flood_process(
    init: Map<u64, Chunk>,
    mb: Map<u64, Chunk>,
    me: Map<u64, Chunk>,
    ch: LightChannel,
    qb: Seq<(i32, i32, i32, u8)>,
    qe: Seq<(i32, i32, i32, u8)>,
    q0: Seq<(i32, i32, i32, u8)>,
    npb: int,
)
    requires
        forall|a: int, b: int, c: int| #[trigger] flood_ok(init, mb, ch, qb, q0, npb, a, b, c),
        qb.len() > 0,
        0 <= npb,
        npb < q0.len() ==> q0[npb] == qb[0],
        0 <= qb[0].1 < CH,
        m_col_loaded(mb, qb[0].0 as int, qb[0].2 as int),
        light_grown(mb, me, ch),
        map_ok(mb),
        m_chan(me, ch, qb[0].0 as int, qb[0].1 as int, qb[0].2 as int) == qb[0].3,
        passes_on(me, ch, qb[0].0 as int, qb[0].1 as int, qb[0].2 as int),
        forall|a: int, b: int, c: int|
            !(a == qb[0].0 && b == qb[0].1 && c == qb[0].2) && #[trigger] m_chan(me, ch, a, b, c) != m_chan(
                mb,
                ch,
                a,
                b,
                c,
            ) ==> queued(qe, me, ch, a, b, c),
        qe.len() >= qb.len() - 1,
        forall|j: int| 0 <= j < qb.len() - 1 ==> #[trigger] qe[j] == qb[j + 1],
    ensures
        forall|a: int, b: int, c: int| #[trigger] flood_ok(init, me, ch, qe, q0, npb + 1, a, b, c),
{
    lemma_light_grown_cells(mb, me, ch);
    let e = qb[0];
    assert forall|a: int, b: int, c: int| #[trigger] flood_ok(init, me, ch, qe, q0, npb + 1, a, b, c) by {
        if 0 <= b < CH && m_col_loaded(me, a, c) && (m_chan(me, ch, a, b, c) > m_chan(init, ch, a, b, c)
            || seed_hit(q0, npb + 1, me, ch, a, b, c)) {
            if a == e.0 && b == e.1 && c == e.2 {
            } else if m_chan(me, ch, a, b, c) != m_chan(mb, ch, a, b, c) {
                assert(queued(qe, me, ch, a, b, c));
            } else {
                assert(m_col_loaded(mb, a, c));
                if seed_hit(q0, npb + 1, me, ch, a, b, c) && !(m_chan(me, ch, a, b, c) > m_chan(init, ch, a, b, c)) {
                    let k = choose|k: int|
                        0 <= k < npb + 1 && k < q0.len() && (#[trigger] q0[k]).0 == a && q0[k].1 == b && q0[k].2
                            == c && q0[k].3 == m_chan(me, ch, a, b, c);
                    if k == npb {
                        assert(q0[k] == e);
                        assert(false);
                    }
                    assert(seed_hit(q0, npb, mb, ch, a, b, c));
                }
                assert(flood_ok(init, mb, ch, qb, q0, npb, a, b, c));
                if passes_on(mb, ch, a, b, c) {
                    lemma_passes_on_mono(mb, me, ch, a, b, c);
                } else {
                    let j = choose|j: int|
                        0 <= j < qb.len() && (#[trigger] qb[j]).0 == a && qb[j].1 == b && qb[j].2 == c && qb[j].3
                            == m_chan(mb, ch, a, b, c);
                    if j == 0 {
                        assert(false);
                    }
                    assert(qe[j - 1] == qb[j]);
                }
            }
        }
    }
}

/// The height from which column (x, z) sees the open sky: one above its
/// topmost opaque block; the top of the world for unloaded chunks.
pub open spec fn m_sky_floor(m: Map<u64, Chunk>, x: int, z: int) -> int {
    if m_col_loaded(m, x, z) {
        m_chunk(m, x, z).heights@[col_index(x % 16, z % 16)] + 1
    } else {
        CH as int
    }
}

/// The offset of horizontal direction `e` (0 to 3).
pub open spec fn side_off(e: int) -> (int, int) {
    if e == 0 {
        (1, 0)
    } else if e == 1 {
        (-1, 0)
    } else if e == 2 {
        (0, 1)
    } else {
        (0, -1)
    }
}

/// The sky floor of column (x, z) capped at the world's height, or 0 where
/// the column is not loaded.
pub open spec fn side_floor(m: Map<u64, Chunk>, x: int, z: int) -> int {
    if m_col_loaded(m, x, z) {
        if m_sky_floor(m, x, z) < CH {
            m_sky_floor(m, x, z)
        } else {
            CH as int
        }
    } else {
        0
    }
}

/// The highest capped sky floor among the loaded horizontal neighbours of
/// column (x, z).
pub open spec fn side_ceiling(m: Map<u64, Chunk>, x: int, z: int) -> int {
    let a = side_floor(m, x + 1, z);
    let b = side_floor(m, x - 1, z);
    let c = side_floor(m, x, z + 1);
    let d = side_floor(m, x, z - 1);
    let ab = if a > b { a } else { b };
    let cd = if c > d { c } else { d };
    if ab > cd { ab } else { cd }
}

/// Queue `q` holds a full sky-light seed for each cell of column (x, z) from
/// its sky floor up to below the sky floor of its loaded horizontal
/// neighbours, from where the light flows sideways.
pub open spec fn side_seeded(q: Seq<(i32, i32, i32, u8)>, m: Map<u64, Chunk>, x: int, z: int) -> bool {
    forall|yy: int|
        0 <= yy < CH && m_sky_floor(m, x, z) <= yy < side_ceiling(m, x, z) ==> #[trigger] holds_entry(q, x, yy, z, SKY_LIGHT_MAX as int)
}

/// The horizontal neighbour in direction `e` of a cell (x, y, z) that lies
/// at or above its sky floor in `m0` holds at least 14 sky light in `mf`
/// when it is open and lies in the same chunk or below its own sky floor.
pub open spec fn side_lit(m0: Map<u64, Chunk>, mf: Map<u64, Chunk>, x: int, y: int, z: int, e: int) -> bool {
    let n = (x + side_off(e).0, z + side_off(e).1);
    m_col_loaded(mf, n.0, n.1) && !spec_is_opaque(m_block(mf, n.0, y, n.1)) && (y < m_sky_floor(m0, n.0, n.1) || (n.0 / 16
        == x / 16 && n.1 / 16 == z / 16)) ==> m_chan(mf, LightChannel::Sky, n.0, y, n.1) >= SKY_LIGHT_MAX - 1
}

/// Seeds stay listed when a queue grows at its end.
pub proof fn lemma_side_seeded_extend(q: Seq<(i32, i32, i32, u8)>, q2: Seq<(i32, i32, i32, u8)>, m: Map<u64, Chunk>, x: int, z: int)
    requires
        side_seeded(q, m, x, z),
        q2.len() >= q.len(),
        forall|j: int| 0 <= j < q.len() ==> q2[j] == q[j],
    ensures
        side_seeded(q2, m, x, z),
{
    assert forall|yy: int| 0 <= yy < CH && m_sky_floor(m, x, z) <= yy < side_ceiling(m, x, z) implies #[trigger] holds_entry(
        q2,
        x,
        yy,
        z,
        SKY_LIGHT_MAX as int,
    ) by {
        assert(holds_entry(q, x, yy, z, SKY_LIGHT_MAX as int));
        let j = choose|j: int| 0 <= j < q.len() && (#[trigger] q[j]).0 == x && q[j].1 == yy && q[j].2 == z && q[j].3 == SKY_LIGHT_MAX as int;
        assert(q2[j] == q[j]);
    }
}

/// Sky floors, and so the seeds they call for, depend only on what a frame
/// keeps.
pub proof fn lemma_side_seeded_frame(q: Seq<(i32, i32, i32, u8)>, a: Map<u64, Chunk>, b: Map<u64, Chunk>, x: int, z: int)
    requires
        side_seeded(q, b, x, z),
        frame_ok(a, b),
    ensures
        side_seeded(q, a, x, z),
{
    assert forall|x2: int, z2: int| #[trigger] m_sky_floor(b, x2, z2) == m_sky_floor(a, x2, z2) && m_col_loaded(b, x2, z2)
        == m_col_loaded(a, x2, z2) by {
        if m_col_loaded(a, x2, z2) {
            assert(b[key_u64(x2 / 16, z2 / 16)].heights@ == a[key_u64(x2 / 16, z2 / 16)].heights@);
        }
    }
    assert(m_sky_floor(b, x, z) == m_sky_floor(a, x, z));
    assert(side_ceiling(b, x, z) == side_ceiling(a, x, z)) by {
        assert(m_sky_floor(b, x + 1, z) == m_sky_floor(a, x + 1, z));
        assert(m_sky_floor(b, x - 1, z) == m_sky_floor(a, x - 1, z));
        assert(m_sky_floor(b, x, z + 1) == m_sky_floor(a, x, z + 1));
        assert(m_sky_floor(b, x, z - 1) == m_sky_floor(a, x, z - 1));
    }
}

/// Sky light flows sideways out of a relit chunk: the horizontal neighbours
/// of its lit cells receive at least 14 where they lie in the same chunk or
/// below their own sky floor (the seeds of `side_seeded` spread there).
pub proof fn lemma_relight_side_sky(
    m0: Map<u64, Chunk>,
    m2: Map<u64, Chunk>,
    mf: Map<u64, Chunk>,
    sq1: Seq<(i32, i32, i32, u8)>,
    cx: int,
    cz: int,
    lx: int,
    lz: int,
    y: int,
    e: int,
)
    requires
        map_ok(m0),
        frame_ok(m0, m2),
        frame_ok(m0, mf),
        m_loaded(m0, cx, cz),
        0 <= lx < CS,
        0 <= lz < CS,
        0 <= e < 4,
        m_sky_floor(m0, cx * 16 + lx, cz * 16 + lz) <= y < CH,
        side_seeded(sq1, m0, cx * 16 + lx, cz * 16 + lz),
        forall|x2: int, y2: int, z2: int|
            0 <= y2 < CH && m_col_loaded(mf, x2, z2) && (m_chan(mf, LightChannel::Sky, x2, y2, z2) > m_chan(m2, LightChannel::Sky, x2, y2, z2)
                || exists|k: int|
                0 <= k < sq1.len() && #[trigger] sq1[k] == (x2 as i32, y2 as i32, z2 as i32, m_chan(mf, LightChannel::Sky, x2, y2, z2)))
                ==> #[trigger] passes_on(mf, LightChannel::Sky, x2, y2, z2),
        forall|lx2: int, lz2: int, y2: int|
            0 <= lx2 < CS && 0 <= lz2 < CS && m_sky_floor(m0, cx * 16 + lx2, cz * 16 + lz2) <= y2 < CH
                ==> #[trigger] m_chan(mf, LightChannel::Sky, cx * 16 + lx2, y2, cz * 16 + lz2) == SKY_LIGHT_MAX,
    ensures
        side_lit(m0, mf, cx * 16 + lx, y, cz * 16 + lz, e),
{
    let x = cx * 16 + lx;
    let z = cz * 16 + lz;
    let n = (x + side_off(e).0, z + side_off(e).1);
    lemma_frame_cells(m0, mf);
    lemma_frame_cells(m0, m2);
    assert(x / 16 == cx && x % 16 == lx);
    assert(z / 16 == cz && z % 16 == lz);
    assert(m_col_loaded(m0, x, z));
    lemma_loaded_coords(m0, x, z);
    if m_col_loaded(mf, n.0, n.1) && !spec_is_opaque(m_block(mf, n.0, y, n.1)) && (y < m_sky_floor(m0, n.0, n.1) || (n.0 / 16 == x
        / 16 && n.1 / 16 == z / 16)) {
        if y >= m_sky_floor(m0, n.0, n.1) {
            let lx2 = n.0 - cx * 16;
            let lz2 = n.1 - cz * 16;
            assert(0 <= lx2 < CS && 0 <= lz2 < CS);
            assert(m_chan(mf, LightChannel::Sky, cx * 16 + lx2, y, cz * 16 + lz2) == SKY_LIGHT_MAX);
        } else {
            assert(m_col_loaded(m0, n.0, n.1));
            assert(side_floor(m0, n.0, n.1) > y);
            assert(side_ceiling(m0, x, z) >= side_floor(m0, n.0, n.1));
            assert(holds_entry(sq1, x, y, z, SKY_LIGHT_MAX as int));
            let j = choose|j: int| 0 <= j < sq1.len() && (#[trigger] sq1[j]).0 == x && sq1[j].1 == y && sq1[j].2 == z && sq1[j].3 == SKY_LIGHT_MAX as int;
            assert(m_chan(mf, LightChannel::Sky, cx * 16 + lx, y, cz * 16 + lz) == SKY_LIGHT_MAX);
            assert(sq1[j] == (x as i32, y as i32, z as i32, m_chan(mf, LightChannel::Sky, x, y, z)));
            assert(passes_on(mf, LightChannel::Sky, x, y, z));
            let d = if e < 2 { e } else { e + 2 };
            assert(spec_dir(d).0 == side_off(e).0 && spec_dir(d).1 == 0 && spec_dir(d).2 == side_off(e).1);
            assert(passes_to(mf, LightChannel::Sky, x, y, z, d));
            assert(open_side(mf, x, y, z, d));
        }
    }
}

/// Every column height of the chunk is at least -1.
pub open spec fn heights_in_range(c: Chunk) -> bool {
    forall|j: int| 0 <= j < c.heights@.len() ==> #[trigger] c.heights@[j] >= -1
}

/// Torch light is the same in every chunk.
pub open spec fn torch_same(a: Map<u64, Chunk>, b: Map<u64, Chunk>) -> bool {
    forall|k: u64| a.contains_key(k) ==> (#[trigger] b[k]).light@ == a[k].light@
}

/// The edit at (x, y, z) falls into chunk (cx, cz) inside the world's height.
pub open spec fn edit_applies(x: i32, y: i32, z: i32, cx: i32, cz: i32) -> bool {
    x as int / 16 == cx && z as int / 16 == cz && 0 <= y < CH
}

/// One step of writing edits into a chunk keeps the bookkeeping of
/// [`World::apply_edits_to`].
pub proof fn lemma_edit_write_step(
    w: World,
    list: Seq<(i32, i32, i32, u8)>,
    n: int,
    wb: Map<int, u8>,
    wm: Map<int, u8>,
    rb: Seq<(i32, i32, i32)>,
    rq: Seq<(i32, i32, i32)>,
    cx: i32,
    cz: i32,
)
    requires
        0 <= n < list.len(),
        edit_applies(list[n].0, list[n].1, list[n].2, cx, cz),
        forall|j: int| 0 <= j < list.len() ==> w.edit((#[trigger] list[j]).0, list[j].1, list[j].2) == Some(list[j].3),
        wm == wb.insert(local_index(list[n].0 as int, list[n].1 as int, list[n].2 as int), list[n].3),
        rq == rb.push((list[n].0, list[n].1, list[n].2)),
        forall|i: int| #[trigger] wb.contains_key(i) ==> exists|x: i32, y: i32, z: i32|
            edit_applies(x, y, z, cx, cz) && (#[trigger] w.edit(x, y, z)) == Some(wb[i]) && i == local_index(x as int, y as int, z as int),
        forall|j: int|
            0 <= j < n && edit_applies((#[trigger] list[j]).0, list[j].1, list[j].2, cx, cz) ==> {
                &&& wb.contains_key(local_index(list[j].0 as int, list[j].1 as int, list[j].2 as int))
                &&& rb.contains((list[j].0, list[j].1, list[j].2))
            },
    ensures
        forall|i: int| #[trigger] wm.contains_key(i) ==> exists|x: i32, y: i32, z: i32|
            edit_applies(x, y, z, cx, cz) && (#[trigger] w.edit(x, y, z)) == Some(wm[i]) && i == local_index(x as int, y as int, z as int),
        forall|j: int|
            0 <= j < n + 1 && edit_applies((#[trigger] list[j]).0, list[j].1, list[j].2, cx, cz) ==> {
                &&& wm.contains_key(local_index(list[j].0 as int, list[j].1 as int, list[j].2 as int))
                &&& rq.contains((list[j].0, list[j].1, list[j].2))
            },
{
    let e = list[n];
    assert(w.edit(e.0, e.1, e.2) == Some(e.3));
    assert forall|i: int| #[trigger] wm.contains_key(i) implies exists|x: i32, y: i32, z: i32|
        edit_applies(x, y, z, cx, cz) && (#[trigger] w.edit(x, y, z)) == Some(wm[i]) && i == local_index(x as int, y as int, z as int) by {
        if i == local_index(e.0 as int, e.1 as int, e.2 as int) {
            assert(wm[i] == e.3);
            assert(edit_applies(e.0, e.1, e.2, cx, cz) && w.edit(e.0, e.1, e.2) == Some(wm[i]));
        } else {
            assert(wb.contains_key(i));
            assert(wm[i] == wb[i]);
        }
    }
    assert forall|j: int|
        0 <= j < n + 1 && edit_applies((#[trigger] list[j]).0, list[j].1, list[j].2, cx, cz) implies {
            &&& wm.contains_key(local_index(list[j].0 as int, list[j].1 as int, list[j].2 as int))
            &&& rq.contains((list[j].0, list[j].1, list[j].2))
        } by {
        if j < n {
            let f = (list[j].0, list[j].1, list[j].2);
            let k = choose|k: int| 0 <= k < rb.len() && rb[k] == f;
            assert(rq[k] == rb[k]);
        } else {
            assert(rq[rb.len() as int] == (e.0, e.1, e.2));
        }
    }
}

/// A neighbour's contribution to the flow into a cell: its level minus one
/// if it holds water (with a positive level), else 0.
pub open spec fn lateral_level(w: World, x: int, y: int, z: int) -> int {
    if w.block(x, y, z) is Water && w.water(x, y, z) > 0 {
        w.water(x, y, z) - 1
    } else {
        0
    }
}

pub open spec fn max_int(a: int, b: int) -> int {
    if a >= b {
        a
    } else {
        b
    }
}

pub proof fn lemma_lateral_nonneg(w: World, x: int, y: int, z: int)
    ensures
        0 <= lateral_level(w, x, y, z) < 255,
{
}

/// The water level that flows into (x, y, z) from its neighbours: full when
/// water lies directly above, otherwise the largest neighbouring level on
/// the same height minus one (0 when there is none).
pub open spec fn flow_level(w: World, x: int, y: int, z: int) -> int {
    if w.block(x, y + 1, z) is Water {
        WATER_MAX as int
    } else {
        max_int(
            max_int(lateral_level(w, x + 1, y, z), lateral_level(w, x - 1, y, z)),
            max_int(lateral_level(w, x, y, z + 1), lateral_level(w, x, y, z - 1)),
        )
    }
}

/// Sea water (water at or below sea level) is an endless source.
pub open spec fn source_level_of(w: World, x: int, y: int, z: int) -> int {
    if y <= SEA && w.block(x, y, z) is Water {
        WATER_MAX as int
    } else {
        0
    }
}

/// `b` follows `a` by water flow only: the loaded chunks, light, heights and
/// edits are the same; a block changes only from a replaceable block (air,
/// water, plants) to water or air; and sea water stays water.
pub open spec fn water_flow_step(a: World, b: World) -> bool {
    &&& forall|cx: int, cz: int| #[trigger] b.loaded(cx, cz) == a.loaded(cx, cz)
    &&& forall|x: int, y: int, z: int|
        #[trigger] b.block(x, y, z) != a.block(x, y, z) ==> spec_replaceable(a.block(x, y, z)) && (b.block(
            x,
            y,
            z,
        ) is Water || b.block(x, y, z) is Air)
    &&& forall|x: int, y: int, z: int|
        a.block(x, y, z) is Water && y <= SEA ==> #[trigger] b.block(x, y, z) is Water
    &&& forall|ch: LightChannel, x: int, y: int, z: int| #[trigger] b.chan(ch, x, y, z) == a.chan(ch, x, y, z)
    &&& b.edits == a.edits
    &&& b.seed == a.seed
}

pub proof fn lemma_water_flow_step_trans(a: World, b: World, c: World)
    requires
        water_flow_step(a, b),
        water_flow_step(b, c),
    ensures
        water_flow_step(a, c),
{
    assert forall|x: int, y: int, z: int|
        #[trigger] c.block(x, y, z) != a.block(x, y, z) implies spec_replaceable(a.block(x, y, z)) && (c.block(
            x,
            y,
            z,
        ) is Water || c.block(x, y, z) is Air) by {
        if b.block(x, y, z) != a.block(x, y, z) {
            if c.block(x, y, z) != b.block(x, y, z) {
                assert(spec_replaceable(b.block(x, y, z)));
            }
        } else {
            assert(c.block(x, y, z) != b.block(x, y, z));
        }
    }
    assert forall|x: int, y: int, z: int|
        a.block(x, y, z) is Water && y <= SEA implies #[trigger] c.block(x, y, z) is Water by {
        assert(b.block(x, y, z) is Water);
    }
    assert forall|ch: LightChannel, x: int, y: int, z: int| #[trigger] c.chan(ch, x, y, z) == a.chan(ch, x, y, z) by {
        assert(b.chan(ch, x, y, z) == a.chan(ch, x, y, z));
    }
}

pub proof fn lemma_water_flow_step_refl(a: World)
    ensures
        water_flow_step(a, a),
{
}

/// Only cell (x, y, z) may differ in block, water level and edit; the set
/// of loaded chunks is the same.
#[verifier::opaque]
pub open spec fn only_cell_changed(a: World, b: World, x: i32, y: i32, z: i32) -> bool {
    &&& forall|x2: int, y2: int, z2: int|
        !(x2 == x && y2 == y && z2 == z) ==> #[trigger] b.block(x2, y2, z2) == a.block(x2, y2, z2)
            && b.water(x2, y2, z2) == a.water(x2, y2, z2)
    &&& forall|x2: i32, y2: i32, z2: i32|
        !(x2 == x && y2 == y && z2 == z) ==> #[trigger] b.edit(x2, y2, z2) == a.edit(x2, y2, z2)
}

/// Blocks, water levels and edits agree everywhere except in column (x, z)
/// from height `y` up.
pub open spec fn kept_outside_column(a: World, b: World, x: i32, y: i32, z: i32) -> bool {
    &&& forall|x2: int, y2: int, z2: int|
        !(x2 == x && z2 == z && y2 >= y) ==> #[trigger] b.block(x2, y2, z2) == a.block(x2, y2, z2)
            && b.water(x2, y2, z2) == a.water(x2, y2, z2)
    &&& forall|x2: i32, y2: i32, z2: i32|
        !(x2 == x && z2 == z && y2 >= y) ==> #[trigger] b.edit(x2, y2, z2) == a.edit(x2, y2, z2)
}

/// How many torches or plants stand unsupported above (x, y, z) once `b`
/// is placed there: each breaks in turn, from the one right above up.
pub open spec fn cascade_len(w: World, x: i32, y: int, z: i32, b: Block) -> int
    decreases CH - y,
{
    if y + 1 < CH && !spec_is_solid(b) && spec_is_cross(w.block(x as int, y + 1, z as int)) {
        1 + cascade_len(w, x, y + 1, z, Block::Air)
    } else {
        0
    }
}

/// The cells queued for water flow when `b` is placed at (x, y, z): the
/// cell and its six neighbours, then the same for each torch or plant above
/// that breaks in turn.
pub open spec fn edit_queue(w: World, x: i32, y: int, z: i32, b: Block) -> Seq<(i32, i32, i32)>
    decreases CH - y,
{
    if y + 1 < CH && !spec_is_solid(b) && spec_is_cross(w.block(x as int, y + 1, z as int)) {
        cell_and_neighbours(x, y as i32, z) + edit_queue(w, x, y + 1, z, Block::Air)
    } else {
        cell_and_neighbours(x, y as i32, z)
    }
}

pub proof fn lemma_cascade_nonneg(w: World, x: i32, y: int, z: i32, b: Block)
    ensures
        cascade_len(w, x, y, z, b) >= 0,
    decreases CH - y,
{
    if y + 1 < CH {
        lemma_cascade_nonneg(w, x, y + 1, z, Block::Air);
    }
}

/// The cascade above (x, y, z) reads only the column above the cell.
pub proof fn lemma_cascade_same(a: World, b: World, x: i32, y: int, z: i32, bl: Block)
    requires
        forall|y2: int| y2 > y ==> #[trigger] a.block(x as int, y2, z as int) == b.block(x as int, y2, z as int),
    ensures
        cascade_len(a, x, y, z, bl) == cascade_len(b, x, y, z, bl),
        edit_queue(a, x, y, z, bl) == edit_queue(b, x, y, z, bl),
    decreases CH - y,
{
    assert(a.block(x as int, y + 1, z as int) == b.block(x as int, y + 1, z as int));
    if y + 1 < CH {
        lemma_cascade_same(a, b, x, y + 1, z, Block::Air);
    }
}

/// Above height `y` in column (x, z), the `n` cells right above became air
/// (recorded as edits, without water); the cells further up are unchanged.
pub open spec fn column_above_broken(a: World, b: World, x: i32, y: i32, z: i32, n: int) -> bool {
    &&& forall|y2: int|
        y2 > y ==> #[trigger] b.block(x as int, y2, z as int) == if y2 <= y + n {
            Block::Air
        } else {
            a.block(x as int, y2, z as int)
        }
    &&& forall|y2: int|
        y2 > y ==> #[trigger] b.water(x as int, y2, z as int) == if y2 <= y + n {
            0u8
        } else {
            a.water(x as int, y2, z as int)
        }
    &&& forall|y2: i32|
        y2 > y ==> #[trigger] b.edit(x, y2, z) == if y2 <= y + n {
            Some(block_id(Block::Air))
        } else {
            a.edit(x, y2, z)
        }
}

/// Changing one cell keeps "no water level without water" when the cell
/// itself keeps it.
pub proof fn lemma_cell_water_ok(a: World, b: World, x: i32, y: i32, z: i32)
    requires
        a.water_ok(),
        only_cell_changed(a, b, x, y, z),
        b.block(x as int, y as int, z as int) is Water || b.water(x as int, y as int, z as int) == 0,
    ensures
        b.water_ok(),
{
    reveal(only_cell_changed);
    assert forall|x2: int, y2: int, z2: int| !(#[trigger] b.block(x2, y2, z2) is Water) implies b.water(x2, y2, z2)
        == 0 by {
        if !(x2 == x && y2 == y && z2 == z) {
            assert(b.block(x2, y2, z2) == a.block(x2, y2, z2));
        }
    }
}

pub proof fn lemma_only_cell_changed_frames(a: World, b: World, x: i32, y: i32, z: i32)
    requires
        only_cell_changed(a, b, x, y, z),
    ensures
        kept_outside_column(a, b, x, y, z),
        column_above_broken(a, b, x, y, z, 0),
{
    reveal(only_cell_changed);
    assert forall|y2: int| y2 > y implies #[trigger] b.block(x as int, y2, z as int) == a.block(
        x as int,
        y2,
        z as int,
    ) by {}
    assert forall|y2: int| y2 > y implies #[trigger] b.water(x as int, y2, z as int) == a.water(
        x as int,
        y2,
        z as int,
    ) by {
        assert(b.block(x as int, y2, z as int) == a.block(x as int, y2, z as int));
    }
    assert forall|y2: i32| y2 > y implies #[trigger] b.edit(x, y2, z) == a.edit(x, y2, z) by {}
}

pub proof fn lemma_cascade_frames(a: World, b: World, c: World, x: i32, y: i32, z: i32, n: int)
    requires
        only_cell_changed(a, b, x, y, z),
        y < CH - 1,
        kept_outside_column(b, c, x, (y + 1) as i32, z),
        column_above_broken(b, c, x, (y + 1) as i32, z, n),
        c.block(x as int, y + 1, z as int) == Block::Air,
        c.water(x as int, y + 1, z as int) == 0,
        c.edit(x, (y + 1) as i32, z) == Some(block_id(Block::Air)),
        n >= 0,
    ensures
        kept_outside_column(a, c, x, y, z),
        column_above_broken(a, c, x, y, z, n + 1),
        c.block(x as int, y as int, z as int) == b.block(x as int, y as int, z as int),
        c.water(x as int, y as int, z as int) == b.water(x as int, y as int, z as int),
        c.edit(x, y, z) == b.edit(x, y, z),
{
    reveal(only_cell_changed);
    assert(c.block(x as int, y as int, z as int) == b.block(x as int, y as int, z as int));
    assert(c.water(x as int, y as int, z as int) == b.water(x as int, y as int, z as int));
    assert(c.edit(x, y, z) == b.edit(x, y, z));
    assert forall|y2: int| y2 > y implies #[trigger] c.block(x as int, y2, z as int) == if y2 <= y + (n + 1) {
        Block::Air
    } else {
        a.block(x as int, y2, z as int)
    } by {
        assert(b.block(x as int, y2, z as int) == a.block(x as int, y2, z as int));
        if y2 > y + 1 {
            assert(c.block(x as int, y2, z as int) == if y2 <= (y + 1) + n {
                Block::Air
            } else {
                b.block(x as int, y2, z as int)
            });
        }
    }
    assert forall|y2: int| y2 > y implies #[trigger] c.water(x as int, y2, z as int) == if y2 <= y + (n + 1) {
        0u8
    } else {
        a.water(x as int, y2, z as int)
    } by {
        assert(b.block(x as int, y2, z as int) == a.block(x as int, y2, z as int));
        assert(b.water(x as int, y2, z as int) == a.water(x as int, y2, z as int));
        if y2 > y + 1 {
            assert(c.water(x as int, y2, z as int) == if y2 <= (y + 1) + n {
                0u8
            } else {
                b.water(x as int, y2, z as int)
            });
        }
    }
    assert forall|y2: i32| y2 > y implies #[trigger] c.edit(x, y2, z) == if y2 <= y + (n + 1) {
        Some(block_id(Block::Air))
    } else {
        a.edit(x, y2, z)
    } by {
        assert(b.edit(x, y2, z) == a.edit(x, y2, z));
        if y2 > y + 1 {
            assert(c.edit(x, y2, z) == if y2 <= (y + 1) + n {
                Some(block_id(Block::Air))
            } else {
                b.edit(x, y2, z)
            });
        }
    }
    assert forall|x2: int, y2: int, z2: int|
        !(x2 == x && z2 == z && y2 >= y) implies #[trigger] c.block(x2, y2, z2) == a.block(x2, y2, z2)
            && c.water(x2, y2, z2) == a.water(x2, y2, z2) by {
        assert(b.block(x2, y2, z2) == a.block(x2, y2, z2));
        assert(c.block(x2, y2, z2) == b.block(x2, y2, z2));
    }
    assert forall|x2: i32, y2: i32, z2: i32|
        !(x2 == x && z2 == z && y2 >= y) implies #[trigger] c.edit(x2, y2, z2) == a.edit(x2, y2, z2) by {
        assert(b.edit(x2, y2, z2) == a.edit(x2, y2, z2));
        assert(c.edit(x2, y2, z2) == b.edit(x2, y2, z2));
    }
}

/// `b` is `a` after the water at cell `c` was re-evaluated. Every other
/// cell keeps its block and water. A loaded water cell takes the level that
/// flows into it or, for sea water, the full source level, and dries up to
/// air when that is 0; a loaded replaceable cell without water floods with
/// the level that flows into it when that is positive; any other cell keeps
/// its block and water.
pub open spec fn cell_flowed(a: World, b: World, c: (i32, i32, i32)) -> bool {
    let x = c.0 as int;
    let y = c.1 as int;
    let z = c.2 as int;
    let cell_live = 0 <= y < CH && m_col_loaded(a.chunks@, x, z);
    let want = max_int(flow_level(a, x, y, z), source_level_of(a, x, y, z));
    let inflow = flow_level(a, x, y, z);
    &&& forall|x2: int, y2: int, z2: int|
        !(x2 == x && y2 == y && z2 == z) ==> #[trigger] b.block(x2, y2, z2) == a.block(x2, y2, z2) && b.water(
            x2,
            y2,
            z2,
        ) == a.water(x2, y2, z2)
    &&& cell_live && a.block(x, y, z) is Water ==> {
        &&& b.water(x, y, z) == want
        &&& b.block(x, y, z) == if want > 0 {
            Block::Water
        } else {
            Block::Air
        }
    }
    &&& cell_live && !(a.block(x, y, z) is Water) && spec_replaceable(a.block(x, y, z)) && inflow > 0 ==> {
        &&& b.water(x, y, z) == inflow
        &&& b.block(x, y, z) == Block::Water
    }
    &&& !(cell_live && (a.block(x, y, z) is Water || (spec_replaceable(a.block(x, y, z)) && inflow > 0))) ==> {
        &&& b.water(x, y, z) == a.water(x, y, z)
        &&& b.block(x, y, z) == a.block(x, y, z)
    }
}

/// Step `i` of a water trace: world `i + 1` is world `i` after cell `i` was
/// re-evaluated.
pub open spec fn flow_step_at(ws: Seq<World>, cells: Seq<(i32, i32, i32)>, i: int) -> bool {
    cell_flowed(ws[i], ws[i + 1], cells[i])
}

/// `ws` is the run of worlds through which the cells of `cells` were
/// re-evaluated one after the other.
pub open spec fn flow_trace(ws: Seq<World>, cells: Seq<(i32, i32, i32)>) -> bool {
    &&& ws.len() == cells.len() + 1
    &&& forall|i: int| 0 <= i < cells.len() ==> #[trigger] flow_step_at(ws, cells, i)
}

/// The cells queued after the water at (x, y, z) changed: the four side
/// neighbours (when `sideways`) and then the cell below.
pub open spec fn flow_targets(x: i32, y: i32, z: i32, sideways: bool) -> Seq<(i32, i32, i32)> {
    let below = seq![(x, (y - 1) as i32, z)];
    if sideways {
        seq![((x + 1) as i32, y, z), ((x - 1) as i32, y, z), (x, y, (z + 1) as i32), (x, y, (z - 1) as i32)]
            + below
    } else {
        below
    }
}

/// The cells queued when cell `c` of world `a` is re-evaluated: a water
/// cell that dries up queues itself and its six neighbours, a water cell
/// whose level changes queues its flow targets (sideways only above level
/// 1), a flooded cell queues all its flow targets, and nothing else queues.
pub open spec fn flow_pushes(a: World, c: (i32, i32, i32)) -> Seq<(i32, i32, i32)> {
    let x = c.0 as int;
    let y = c.1 as int;
    let z = c.2 as int;
    let want = max_int(flow_level(a, x, y, z), source_level_of(a, x, y, z));
    let inflow = flow_level(a, x, y, z);
    if !(0 <= y < CH && m_col_loaded(a.chunks@, x, z)) {
        Seq::empty()
    } else if a.block(x, y, z) is Water {
        if want == 0 {
            cell_and_neighbours(c.0, c.1, c.2)
        } else if want != a.water(x, y, z) {
            flow_targets(c.0, c.1, c.2, want > 1)
        } else {
            Seq::empty()
        }
    } else if spec_replaceable(a.block(x, y, z)) && inflow > 0 {
        flow_targets(c.0, c.1, c.2, true)
    } else {
        Seq::empty()
    }
}

/// Everything queued along a water trace, step after step.
pub open spec fn trace_pushes(ws: Seq<World>, cells: Seq<(i32, i32, i32)>) -> Seq<(i32, i32, i32)>
    decreases cells.len(),
{
    if cells.len() == 0 {
        Seq::empty()
    } else {
        trace_pushes(ws, cells.drop_last()) + flow_pushes(ws[cells.len() - 1], cells.last())
    }
}

pub proof fn lemma_trace_pushes_extend(ws: Seq<World>, ws1: Seq<World>, cells: Seq<(i32, i32, i32)>)
    requires
        cells.len() <= ws.len() <= ws1.len(),
        forall|i: int| 0 <= i < ws.len() ==> ws1[i] == ws[i],
    ensures
        trace_pushes(ws1, cells) == trace_pushes(ws, cells),
    decreases cells.len(),
{
    if cells.len() > 0 {
        lemma_trace_pushes_extend(ws, ws1, cells.drop_last());
    }
}

/// One more re-evaluation extends a water trace and the queue's account.
pub proof fn lemma_trace_step(
    ws: Seq<World>,
    taken: Seq<(i32, i32, i32)>,
    q0: Seq<(i32, i32, i32)>,
    qb: Seq<(i32, i32, i32)>,
    qp: Seq<(i32, i32, i32)>,
    w1: World,
    c: (i32, i32, i32),
)
    requires
        flow_trace(ws, taken),
        cell_flowed(ws.last(), w1, c),
        w1.water_queue@ == qp + flow_pushes(ws.last(), c),
        qb.len() > 0,
        qb[0] == c,
        qp == qb.drop_first(),
        q0 + trace_pushes(ws, taken) == taken + qb,
    ensures
        flow_trace(ws.push(w1), taken.push(c)),
        q0 + trace_pushes(ws.push(w1), taken.push(c)) == taken.push(c) + w1.water_queue@,
{
    let ws1 = ws.push(w1);
    let taken1 = taken.push(c);
    assert forall|i: int| 0 <= i < taken1.len() implies #[trigger] flow_step_at(ws1, taken1, i) by {
        if i < taken.len() {
            assert(flow_step_at(ws, taken, i));
            assert(ws1[i] == ws[i] && ws1[i + 1] == ws[i + 1] && taken1[i] == taken[i]);
        } else {
            assert(ws1[i] == ws.last() && ws1[i + 1] == w1 && taken1[i] == c);
        }
    }
    lemma_trace_pushes_extend(ws, ws1, taken);
    assert(taken1.drop_last() =~= taken);
    assert(ws1[taken1.len() - 1] == ws.last());
    assert(trace_pushes(ws1, taken1) == trace_pushes(ws1, taken) + flow_pushes(ws.last(), c));
    let t = trace_pushes(ws, taken);
    let f = flow_pushes(ws.last(), c);
    assert(qb =~= seq![c] + qp);
    assert(q0 + (t + f) =~= (q0 + t) + f);
    assert((taken + qb) + f =~= taken1 + (qp + f));
}

/// No water level in the world exceeds the full level.
pub open spec fn water_levels_bounded(w: World) -> bool {
    forall|x: int, y: int, z: int| #[trigger] w.water(x, y, z) <= WATER_MAX
}

pub proof fn lemma_flow_level_bounded(w: World, x: int, y: int, z: int)
    requires
        water_levels_bounded(w),
    ensures
        0 <= flow_level(w, x, y, z) <= WATER_MAX,
{
    assert(w.water(x + 1, y, z) <= WATER_MAX);
    assert(w.water(x - 1, y, z) <= WATER_MAX);
    assert(w.water(x, y, z + 1) <= WATER_MAX);
    assert(w.water(x, y, z - 1) <= WATER_MAX);
}

/// Re-evaluating a cell keeps every water level at most the full level.
pub proof fn lemma_cell_flowed_bounded(a: World, b: World, c: (i32, i32, i32))
    requires
        water_levels_bounded(a),
        cell_flowed(a, b, c),
    ensures
        water_levels_bounded(b),
{
    lemma_flow_level_bounded(a, c.0 as int, c.1 as int, c.2 as int);
    assert forall|x: int, y: int, z: int| #[trigger] b.water(x, y, z) <= WATER_MAX by {
        assert(a.water(x, y, z) <= WATER_MAX);
        if !(x == c.0 && y == c.1 && z == c.2) {
            assert(b.block(x, y, z) == a.block(x, y, z));
        }
    }
}

/// Water falls without loss: re-evaluating a loaded cell that water may fill
/// (water, air or a plant) with water directly above it leaves water at the
/// full level there, whatever the levels around.
pub proof fn lemma_water_falls_at_full_level(a: World, b: World, c: (i32, i32, i32))
    requires
        cell_flowed(a, b, c),
        0 <= c.1 < CH,
        m_col_loaded(a.chunks@, c.0 as int, c.2 as int),
        a.block(c.0 as int, c.1 as int, c.2 as int) is Water || spec_replaceable(a.block(c.0 as int, c.1 as int, c.2 as int)),
        a.block(c.0 as int, c.1 + 1, c.2 as int) is Water,
    ensures
        b.block(c.0 as int, c.1 as int, c.2 as int) is Water,
        b.water(c.0 as int, c.1 as int, c.2 as int) == WATER_MAX,
{
}

/// Sea water is an endless source: re-evaluating a water cell at or below
/// sea level in a loaded chunk keeps it water at the full level (in a world
/// whose levels do not exceed the full level).
pub proof fn lemma_sea_water_refilled(a: World, b: World, c: (i32, i32, i32))
    requires
        water_levels_bounded(a),
        cell_flowed(a, b, c),
        0 <= c.1 <= SEA,
        m_col_loaded(a.chunks@, c.0 as int, c.2 as int),
        a.block(c.0 as int, c.1 as int, c.2 as int) is Water,
    ensures
        b.block(c.0 as int, c.1 as int, c.2 as int) is Water,
        b.water(c.0 as int, c.1 as int, c.2 as int) == WATER_MAX,
{
    lemma_flow_level_bounded(a, c.0 as int, c.1 as int, c.2 as int);
}

proof fn lemma_trace_sea_prefix(ws: Seq<World>, cells: Seq<(i32, i32, i32)>, c: (i32, i32, i32), k: int)
    requires
        flow_trace(ws, cells),
        0 <= k <= cells.len(),
        water_levels_bounded(ws[0]),
        0 <= c.1 <= SEA,
        ws[0].block(c.0 as int, c.1 as int, c.2 as int) is Water,
    ensures
        water_levels_bounded(ws[k]),
        ws[k].block(c.0 as int, c.1 as int, c.2 as int) is Water,
        (exists|i: int| 0 <= i < k && cells[i] == c) ==> ws[k].water(c.0 as int, c.1 as int, c.2 as int) == WATER_MAX,
    decreases k,
{
    if k > 0 {
        lemma_trace_sea_prefix(ws, cells, c, k - 1);
        assert(flow_step_at(ws, cells, k - 1));
        lemma_cell_flowed_bounded(ws[k - 1], ws[k], cells[k - 1]);
        if cells[k - 1] == c {
            assert(m_col_loaded(ws[k - 1].chunks@, c.0 as int, c.2 as int));
            lemma_sea_water_refilled(ws[k - 1], ws[k], c);
        } else {
            assert(ws[k].block(c.0 as int, c.1 as int, c.2 as int) == ws[k - 1].block(c.0 as int, c.1 as int, c.2 as int));
            if exists|i: int| 0 <= i < k && cells[i] == c {
                let i = choose|i: int| 0 <= i < k && cells[i] == c;
                assert(i < k - 1);
            }
        }
    }
}

/// Sea water is an endless source through a whole run of water flow: a sea
/// water cell stays water, and once it has been re-evaluated it holds the
/// full level (in a world whose levels do not exceed the full level).
pub proof fn lemma_sea_water_stays_full(ws: Seq<World>, cells: Seq<(i32, i32, i32)>, c: (i32, i32, i32))
    requires
        flow_trace(ws, cells),
        water_levels_bounded(ws[0]),
        0 <= c.1 <= SEA,
        ws[0].block(c.0 as int, c.1 as int, c.2 as int) is Water,
    ensures
        ws.last().block(c.0 as int, c.1 as int, c.2 as int) is Water,
        cells.contains(c) ==> ws.last().water(c.0 as int, c.1 as int, c.2 as int) == WATER_MAX,
{
    lemma_trace_sea_prefix(ws, cells, c, cells.len() as int);
    if cells.contains(c) {
        let i = choose|i: int| 0 <= i < cells.len() && cells[i] == c;
        assert(exists|i: int| 0 <= i < cells.len() && cells[i] == c);
    }
}

/// Re-evaluating a cell reads only the chunks of the world before.
pub proof fn lemma_cell_flowed_same_chunks(a: World, a2: World, b: World, c: (i32, i32, i32))
    requires
        a2.chunks == a.chunks,
        cell_flowed(a2, b, c),
    ensures
        cell_flowed(a, b, c),
        flow_pushes(a, c) == flow_pushes(a2, c),
{
    assert(a2.chunks@ == a.chunks@);
    assert forall|x2: int, y2: int, z2: int| #[trigger] a.block(x2, y2, z2) == a2.block(x2, y2, z2) && a.water(
        x2,
        y2,
        z2,
    ) == a2.water(x2, y2, z2) by {}
    let x = c.0 as int;
    let y = c.1 as int;
    let z = c.2 as int;
    assert(flow_level(a, x, y, z) == flow_level(a2, x, y, z));
    assert(source_level_of(a, x, y, z) == source_level_of(a2, x, y, z));
}

/// A change of the single cell (x, y, z) from a replaceable block to water
/// or air that keeps sea water in place is a water-flow step.
pub proof fn lemma_cell_flow_step(a: World, b: World, x: i32, y: i32, z: i32)
    requires
        forall|cx: int, cz: int| #[trigger] b.loaded(cx, cz) == a.loaded(cx, cz),
        forall|ch: LightChannel, x2: int, y2: int, z2: int| #[trigger] b.chan(ch, x2, y2, z2) == a.chan(
            ch,
            x2,
            y2,
            z2,
        ),
        b.edits == a.edits,
        b.seed == a.seed,
        forall|x2: int, y2: int, z2: int|
            !(x2 == x && y2 == y && z2 == z) ==> #[trigger] b.block(x2, y2, z2) == a.block(x2, y2, z2),
        b.block(x as int, y as int, z as int) == a.block(x as int, y as int, z as int) || (spec_replaceable(
            a.block(x as int, y as int, z as int),
        ) && (b.block(x as int, y as int, z as int) is Water || b.block(x as int, y as int, z as int) is Air)),
        a.block(x as int, y as int, z as int) is Water && y <= SEA ==> b.block(x as int, y as int, z as int) is Water,
    ensures
        water_flow_step(a, b),
{
    assert forall|x2: int, y2: int, z2: int|
        #[trigger] b.block(x2, y2, z2) != a.block(x2, y2, z2) implies spec_replaceable(a.block(x2, y2, z2)) && (b.block(
            x2,
            y2,
            z2,
        ) is Water || b.block(x2, y2, z2) is Air) by {}
    assert forall|x2: int, y2: int, z2: int|
        a.block(x2, y2, z2) is Water && y2 <= SEA implies #[trigger] b.block(x2, y2, z2) is Water by {
        if !(x2 == x && y2 == y && z2 == z) {
            assert(b.block(x2, y2, z2) == a.block(x2, y2, z2));
        }
    }
}

/// Worlds whose chunk maps differ only in `dirty` flags read the same
/// everywhere.
pub proof fn lemma_same_content_world(a: World, b: World)
    requires
        same_content(a.chunks@, b.chunks@),
        b.edits == a.edits,
        b.seed == a.seed,
    ensures
        water_flow_step(a, b),
        forall|x2: int, y2: int, z2: int| #[trigger] b.block(x2, y2, z2) == a.block(x2, y2, z2),
        forall|x2: int, y2: int, z2: int| #[trigger] b.water(x2, y2, z2) == a.water(x2, y2, z2),
        a.heights_ok() ==> b.heights_ok(),
        a.water_ok() ==> b.water_ok(),
{
    lemma_same_content_frame(a.chunks@, b.chunks@);
    lemma_frame_cells(a.chunks@, b.chunks@);
    if a.heights_ok() {
        lemma_frame_heights(a.chunks@, b.chunks@);
    }
    assert forall|ch: LightChannel, x2: int, y2: int, z2: int| #[trigger] b.chan(ch, x2, y2, z2) == a.chan(
        ch,
        x2,
        y2,
        z2,
    ) by {
        if 0 <= y2 < CH && m_col_loaded(a.chunks@, x2, z2) {
            let k = key_u64(x2 / 16, z2 / 16);
            assert(content_eq(a.chunks@[k], b.chunks@[k]));
            assert(chan_seq(a.chunks@[k], ch) == chan_seq(b.chunks@[k], ch));
        }
    }
    assert forall|x2: int, y2: int, z2: int| #[trigger] b.block(x2, y2, z2) != a.block(x2, y2, z2) implies spec_replaceable(
        a.block(x2, y2, z2),
    ) && (b.block(x2, y2, z2) is Water || b.block(x2, y2, z2) is Air) by {
        assert(m_block(b.chunks@, x2, y2, z2) == m_block(a.chunks@, x2, y2, z2));
    }
    assert forall|x2: int, y2: int, z2: int| a.block(x2, y2, z2) is Water && y2 <= SEA implies #[trigger] b.block(
        x2,
        y2,
        z2,
    ) is Water by {
        assert(m_block(b.chunks@, x2, y2, z2) == m_block(a.chunks@, x2, y2, z2));
    }
    assert forall|cx: int, cz: int| #[trigger] b.loaded(cx, cz) == a.loaded(cx, cz) by {
        assert(m_loaded(b.chunks@, cx, cz) == m_loaded(a.chunks@, cx, cz));
    }
    if a.water_ok() {
        assert forall|x2: int, y2: int, z2: int| !(#[trigger] b.block(x2, y2, z2) is Water) implies b.water(
            x2,
            y2,
            z2,
        ) == 0 by {
            assert(m_block(b.chunks@, x2, y2, z2) == m_block(a.chunks@, x2, y2, z2));
            assert(m_water(b.chunks@, x2, y2, z2) == m_water(a.chunks@, x2, y2, z2));
            assert(a.water(x2, y2, z2) == 0);
        }
    }
}

/// Column (x, z) lies on the side of chunk (cx, cz) that faces horizontal
/// direction (dx, dz).
pub open spec fn on_border(cx: int, cz: int, x: int, z: int, dx: int, dz: int) -> bool {
    ||| dx == -1 && dz == 0 && x == cx * 16 && cz * 16 <= z < cz * 16 + 16
    ||| dx == 1 && dz == 0 && x == cx * 16 + 15 && cz * 16 <= z < cz * 16 + 16
    ||| dx == 0 && dz == -1 && z == cz * 16 && cx * 16 <= x < cx * 16 + 16
    ||| dx == 0 && dz == 1 && z == cz * 16 + 15 && cx * 16 <= x < cx * 16 + 16
}

/// Border cell (x, y, z) of chunk (cx, cz) receives light of channel `ch`
/// from its neighbour in direction (dx, dz): that neighbour's chunk is
/// loaded, the cell is not opaque, and the neighbour holds more than 1.
pub open spec fn inflow_seed(w: World, ch: LightChannel, cx: int, cz: int, x: int, y: int, z: int, dx: int, dz: int) -> bool {
    &&& on_border(cx, cz, x, z, dx, dz)
    &&& 0 <= y < CH
    &&& w.loaded(cx + dx, cz + dz)
    &&& !spec_is_opaque(w.block(x, y, z))
    &&& w.chan(ch, x + dx, y, z + dz) > 1
}

/// Position of border cell (x, y, z) in the order the borders are scanned:
/// side by side (-x, +x, -z, +z), then upwards, then along the side.
pub open spec fn border_key(cx: int, cz: int, x: int, z: int, dx: int, dz: int, y: int) -> int {
    let side: int = if dx == -1 {
        0
    } else if dx == 1 {
        1
    } else if dz == -1 {
        2
    } else {
        3
    };
    let pos: int = if dx != 0 {
        z - cz * 16
    } else {
        x - cx * 16
    };
    side * 1536 + y * 16 + pos
}

/// Every inflowing border cell scanned before position `upto` has its seed
/// (the neighbour's level minus one) in `q`.
pub open spec fn border_seeded(w: World, ch: LightChannel, cx: int, cz: int, q: Seq<(i32, i32, i32, u8)>, upto: int) -> bool {
    forall|x: int, y: int, z: int, dx: int, dz: int|
        #[trigger] inflow_seed(w, ch, cx, cz, x, y, z, dx, dz) && border_key(cx, cz, x, z, dx, dz, y) < upto
            ==> exists|j: int|
            0 <= j < q.len() && q[j] == (x as i32, y as i32, z as i32, (w.chan(ch, x + dx, y, z + dz) - 1) as u8)
}

/// A side facing an unloaded chunk receives no light.
pub proof fn lemma_border_skip(
    w: World,
    ch: LightChannel,
    cx: int,
    cz: int,
    q: Seq<(i32, i32, i32, u8)>,
    side: int,
    dx: int,
    dz: int,
)
    requires
        border_seeded(w, ch, cx, cz, q, side * 1536),
        0 <= side < 4,
        (dx, dz) == (if side == 0 { (-1int, 0int) } else if side == 1 { (1int, 0int) } else if side == 2 { (0int, -1int) } else { (0int, 1int) }),
        !w.loaded(cx + dx, cz + dz),
    ensures
        border_seeded(w, ch, cx, cz, q, (side + 1) * 1536),
{
    assert forall|x: int, y: int, z: int, dx2: int, dz2: int|
        #[trigger] inflow_seed(w, ch, cx, cz, x, y, z, dx2, dz2) && border_key(cx, cz, x, z, dx2, dz2, y) < (side + 1) * 1536
        implies exists|j: int| 0 <= j < q.len() && q[j] == (x as i32, y as i32, z as i32, (w.chan(ch, x + dx2, y, z + dz2) - 1) as u8) by {
        if border_key(cx, cz, x, z, dx2, dz2, y) >= side * 1536 {
            assert(dx2 == dx && dz2 == dz);
        }
    }
}

/// One scanned border cell: the seeds so far stay, and the cell's own seed
/// is added when it receives light.
pub proof fn lemma_border_step(
    w: World,
    ch: LightChannel,
    cx: int,
    cz: int,
    q0: Seq<(i32, i32, i32, u8)>,
    q1: Seq<(i32, i32, i32, u8)>,
    cur: int,
    wx: int,
    y: int,
    wz: int,
    dx: int,
    dz: int,
)
    requires
        border_seeded(w, ch, cx, cz, q0, cur),
        on_border(cx, cz, wx, wz, dx, dz),
        0 <= y < CH,
        border_key(cx, cz, wx, wz, dx, dz, y) == cur,
        q1.len() >= q0.len(),
        forall|j: int| 0 <= j < q0.len() ==> q1[j] == q0[j],
        inflow_seed(w, ch, cx, cz, wx, y, wz, dx, dz) ==> q1.len() > q0.len() && q1[q0.len() as int] == (
            wx as i32,
            y as i32,
            wz as i32,
            (w.chan(ch, wx + dx, y, wz + dz) - 1) as u8,
        ),
    ensures
        border_seeded(w, ch, cx, cz, q1, cur + 1),
{
    assert forall|x: int, y2: int, z: int, dx2: int, dz2: int|
        #[trigger] inflow_seed(w, ch, cx, cz, x, y2, z, dx2, dz2) && border_key(cx, cz, x, z, dx2, dz2, y2) < cur + 1
        implies exists|j: int| 0 <= j < q1.len() && q1[j] == (x as i32, y2 as i32, z as i32, (w.chan(ch, x + dx2, y2, z + dz2) - 1) as u8) by {
        if border_key(cx, cz, x, z, dx2, dz2, y2) < cur {
            let j = choose|j: int| 0 <= j < q0.len() && q0[j] == (x as i32, y2 as i32, z as i32, (w.chan(ch, x + dx2, y2, z + dz2) - 1) as u8);
            assert(q1[j] == q0[j]);
        } else {
            assert(dx2 == dx && dz2 == dz && y2 == y);
            assert(x == wx && z == wz);
            assert(q1[q0.len() as int] == (x as i32, y2 as i32, z as i32, (w.chan(ch, x + dx2, y2, z + dz2) - 1) as u8));
        }
    }
}

/// Filling the sky columns of chunk (cx, cz) leaves the light that flows
/// into its border cells as it was.
pub proof fn lemma_inflow_kept(
    w0: World,
    w1: World,
    ch: LightChannel,
    cx: int,
    cz: int,
    x: int,
    y: int,
    z: int,
    dx: int,
    dz: int,
)
    requires
        frame_ok(w0.chunks@, w1.chunks@),
        torch_same(w0.chunks@, w1.chunks@),
        forall|x2: int, y2: int, z2: int|
            !(x2 / 16 == cx && z2 / 16 == cz && y2 >= m_sky_floor(w0.chunks@, x2, z2))
                ==> #[trigger] w1.chan(LightChannel::Sky, x2, y2, z2) == w0.chan(LightChannel::Sky, x2, y2, z2),
        inflow_seed(w0, ch, cx, cz, x, y, z, dx, dz),
    ensures
        inflow_seed(w1, ch, cx, cz, x, y, z, dx, dz),
        w1.chan(ch, x + dx, y, z + dz) == w0.chan(ch, x + dx, y, z + dz),
        border_key(cx, cz, x, z, dx, dz, y) < 6144,
        x / 16 == cx && z / 16 == cz,
{
    lemma_frame_cells(w0.chunks@, w1.chunks@);
    assert(w1.block(x, y, z) == w0.block(x, y, z));
    assert(w1.loaded(cx + dx, cz + dz) == w0.loaded(cx + dx, cz + dz));
    assert(!((x + dx) / 16 == cx && (z + dz) / 16 == cz));
    if ch == LightChannel::Torch {
        let xn = x + dx;
        let zn = z + dz;
        if 0 <= y < CH && m_col_loaded(w0.chunks@, xn, zn) {
            let k = key_u64(xn / 16, zn / 16);
            assert(w1.chunks@[k].light@ == w0.chunks@[k].light@);
        }
        assert(w1.chan(ch, xn, y, zn) == w0.chan(ch, xn, y, zn));
    } else {
        assert(w1.chan(LightChannel::Sky, x + dx, y, z + dz) == w0.chan(LightChannel::Sky, x + dx, y, z + dz));
    }
}

/// An edit written into chunk (cx, cz) by [`World::apply_edits_to`] reads
/// back through [`World::get_block`] once the chunk is inserted with
/// [`World::insert_chunk`], and still after [`World::relight_chunk`], which
/// changes light only.
pub proof fn lemma_edit_reads_back(
    w0: World,
    w1: World,
    w2: World,
    c: Chunk,
    cx: i32,
    cz: i32,
    x: i32,
    y: i32,
    z: i32,
)
    requires
        edit_applies(x, y, z, cx, cz),
        w0.edit(x, y, z) is Some,
        c.blocks@[local_index(x as int, y as int, z as int)] == w0.edit(x, y, z).unwrap(),
        w1.chunks@ == w0.chunks@.insert(key_u64(cx as int, cz as int), c),
        frame_ok(w1.chunks@, w2.chunks@),
    ensures
        w1.block(x as int, y as int, z as int) == block_of(w0.edit(x, y, z).unwrap()),
        w2.block(x as int, y as int, z as int) == block_of(w0.edit(x, y, z).unwrap()),
{
    lemma_insert_chunk_cells(w0.chunks@, w1.chunks@, cx as int, cz as int, c);
    lemma_frame_cells(w1.chunks@, w2.chunks@);
    assert(m_block(w2.chunks@, x as int, y as int, z as int) == m_block(w1.chunks@, x as int, y as int, z as int));
}

impl World {
    /// The loaded chunks are well formed and lie within the coordinate limit,
    /// and every edit is stored under the key of its own position.
    pub open spec fn wf(&self) -> bool {
        &&& map_ok(self.chunks@)
        &&& forall|k: u128|
            self.edits@.contains_key(k) ==> k as int == edit_key_of(
                (#[trigger] self.edits@[k]).0 as int,
                self.edits@[k].1 as int,
                self.edits@[k].2 as int,
            )
    }

    /// Every loaded chunk's stored column heights match its blocks.
    pub open spec fn heights_ok(&self) -> bool {
        map_heights_ok(self.chunks@)
    }

    /// Every loaded chunk's stored column heights are exactly the heights of
    /// its topmost opaque blocks (0 where there is none).
    pub open spec fn heights_exact(&self) -> bool {
        map_heights_exact(self.chunks@)
    }

    /// Cells without water have water level 0.
    pub open spec fn water_ok(&self) -> bool {
        forall|x: int, y: int, z: int| !(#[trigger] self.block(x, y, z) is Water) ==> self.water(x, y, z) == 0
    }

    pub open spec fn loaded(&self, cx: int, cz: int) -> bool {
        m_loaded(self.chunks@, cx, cz)
    }

    pub open spec fn block(&self, x: int, y: int, z: int) -> Block {
        m_block(self.chunks@, x, y, z)
    }

    pub open spec fn chan(&self, ch: LightChannel, x: int, y: int, z: int) -> u8 {
        m_chan(self.chunks@, ch, x, y, z)
    }

    pub open spec fn water(&self, x: int, y: int, z: int) -> u8 {
        m_water(self.chunks@, x, y, z)
    }

    /// The edit recorded at (x, y, z), if any.
    pub open spec fn edit(&self, x: i32, y: i32, z: i32) -> Option<u8> {
        let k = edit_key_of(x as int, y as int, z as int) as u128;
        if self.edits@.contains_key(k) {
            Some(self.edits@[k].3)
        } else {
            None
        }
    }

    /// An empty world with the given seed.
    pub fn new(seed: u32) -> (w: World)
        ensures
            w.wf(),
            w.seed == seed,
            w.chunks@ == Map::<u64, Chunk>::empty(),
            w.edits@ == Map::<u128, (i32, i32, i32, u8)>::empty(),
            w.water_queue@ == Seq::<(i32, i32, i32)>::empty(),
    {
        World {
            chunks: HashMap::new(),
            seed,
            edits: HashMap::new(),
            water_queue: VecDeque::new(),
        }
    }

    /// Whether chunk (cx, cz) is loaded.
    pub fn is_loaded(&self, cx: i32, cz: i32) -> (r: bool)
        ensures
            r == self.loaded(cx as int, cz as int),
    {
        self.chunks.contains_key(&chunk_key(cx, cz))
    }

    /// The block at (x, y, z): stone below the world, air above it and in
    /// chunks that are not loaded.
    pub fn get_block(&self, x: i32, y: i32, z: i32) -> (b: Block)
        requires
            self.wf(),
        ensures
            b == self.block(x as int, y as int, z as int),
    {
        if y < 0 {
            return Block::Stone;
        }
        if y >= CH {
            return Block::Air;
        }
        let (cx, lx) = split(x);
        let (cz, lz) = split(z);
        match self.chunks.get(&chunk_key(cx, cz)) {
            Some(c) => {
                assert(chunk_ok(self.chunks@[key_u64(cx as int, cz as int)]));
                c.get(lx, y, lz)
            },
            None => Block::Air,
        }
    }

    fn get_chan(&self, ch: LightChannel, x: i32, y: i32, z: i32) -> (r: u8)
        requires
            self.wf(),
        ensures
            r == self.chan(ch, x as int, y as int, z as int),
            r <= SKY_LIGHT_MAX,
    {
        if y < 0 || y >= CH {
            return 0;
        }
        let (cx, lx) = split(x);
        let (cz, lz) = split(z);
        match self.chunks.get(&chunk_key(cx, cz)) {
            Some(c) => {
                assert(chunk_ok(self.chunks@[key_u64(cx as int, cz as int)]));
                proof {
                    lemma_cell_index(lx as int, y as int, lz as int);
                }
                match ch {
                    LightChannel::Torch => c.light_at(lx, y, lz),
                    LightChannel::Sky => c.skylight_at(lx, y, lz),
                }
            },
            None => 0,
        }
    }

    /// Torch light at (x, y, z) (0 outside the world and in unloaded chunks).
    pub fn get_light(&self, x: i32, y: i32, z: i32) -> (r: u8)
        requires
            self.wf(),
        ensures
            r == self.chan(LightChannel::Torch, x as int, y as int, z as int),
            r <= SKY_LIGHT_MAX,
    {
        self.get_chan(LightChannel::Torch, x, y, z)
    }

    /// Sky light at (x, y, z) (0 outside the world and in unloaded chunks).
    pub fn get_skylight(&self, x: i32, y: i32, z: i32) -> (r: u8)
        requires
            self.wf(),
        ensures
            r == self.chan(LightChannel::Sky, x as int, y as int, z as int),
            r <= SKY_LIGHT_MAX,
    {
        self.get_chan(LightChannel::Sky, x, y, z)
    }

    /// Water level at (x, y, z) (0 for cells without water, outside the
    /// world and in unloaded chunks).
    pub fn water_level_at(&self, x: i32, y: i32, z: i32) -> (r: u8)
        requires
            self.wf(),
        ensures
            r == self.water(x as int, y as int, z as int),
    {
        if y < 0 || y >= CH {
            return 0;
        }
        let (cx, lx) = split(x);
        let (cz, lz) = split(z);
        match self.chunks.get(&chunk_key(cx, cz)) {
            Some(c) => {
                assert(chunk_ok(self.chunks@[key_u64(cx as int, cz as int)]));
                c.water_level_at(lx, y, lz)
            },
            None => 0,
        }
    }

    /// Sets the light of channel `ch` at (x, y, z) to `v` (no effect outside
    /// the world or in unloaded chunks) and marks the affected chunks dirty
    /// when the value changes.
    fn set_chan(&mut self, ch: LightChannel, x: i32, y: i32, z: i32, v: u8)
        requires
            old(self).wf(),
            v <= SKY_LIGHT_MAX,
        ensures
            final(self).wf(),
            final(self).edits == old(self).edits,
            final(self).water_queue == old(self).water_queue,
            final(self).seed == old(self).seed,
            !(0 <= y < CH && m_col_loaded(old(self).chunks@, x as int, z as int))
                ==> final(self).chunks@ == old(self).chunks@,
            (0 <= y < CH && m_col_loaded(old(self).chunks@, x as int, z as int)) ==> light_updated(
                old(self).chunks@,
                final(self).chunks@,
                ch,
                key_u64(x as int / 16, z as int / 16),
                local_index(x as int, y as int, z as int),
                v,
            ),
            final(self).chan(ch, x as int, y as int, z as int) == if 0 <= y < CH && m_col_loaded(
                old(self).chunks@,
                x as int,
                z as int,
            ) {
                v
            } else {
                0
            },
            map_sum(final(self).chunks@, deficit_fn(ch)) == map_sum(old(self).chunks@, deficit_fn(ch))
                + old(self).chan(ch, x as int, y as int, z as int) - final(self).chan(
                ch,
                x as int,
                y as int,
                z as int,
            ),
            map_sum(final(self).chunks@, total_fn(ch)) == map_sum(old(self).chunks@, total_fn(ch))
                - old(self).chan(ch, x as int, y as int, z as int) + final(self).chan(
                ch,
                x as int,
                y as int,
                z as int,
            ),
    {
        if y < 0 || y >= CH {
            return;
        }
        let (cx, lx) = split(x);
        let (cz, lz) = split(z);
        let key = chunk_key(cx, cz);
        let i = idx(lx, y, lz);
        let ghost m0 = self.chunks@;
        match self.chunks.remove(&key) {
            None => {
                assert(self.chunks@ =~= m0);
                return;
            },
            Some(mut c) => {
                assert(chunk_ok(m0[key]));
                proof {
                    lemma_cell_index(lx as int, y as int, lz as int);
                }
                let cur = match ch {
                    LightChannel::Torch => c.light[i],
                    LightChannel::Sky => c.skylight[i],
                };
                if cur == v {
                    self.chunks.insert(key, c);
                    proof {
                        assert(self.chunks@ =~= m0);
                        assert(chan_seq(c, ch).update(i as int, v) =~= chan_seq(c, ch));
                        assert forall|k2: u64| m0.contains_key(k2) implies {
                            &&& (#[trigger] self.chunks@[k2]).blocks@ == m0[k2].blocks@
                            &&& self.chunks@[k2].water_level@ == m0[k2].water_level@
                            &&& self.chunks@[k2].heights@ == m0[k2].heights@
                            &&& (ch == LightChannel::Torch ==> self.chunks@[k2].skylight@ == m0[k2].skylight@)
                            &&& (ch == LightChannel::Sky ==> self.chunks@[k2].light@ == m0[k2].light@)
                            &&& chan_seq(self.chunks@[k2], ch) == if k2 == key {
                                chan_seq(m0[k2], ch).update(i as int, v)
                            } else {
                                chan_seq(m0[k2], ch)
                            }
                        } by {}
                    }
                    return;
                }
                match ch {
                    LightChannel::Torch => c.light.set(i, v),
                    LightChannel::Sky => c.skylight.set(i, v),
                }
                let ghost c1 = c;
                self.chunks.insert(key, c);
                proof {
                    assert(self.chunks@ == m0.insert(key, c1));
                    assert(chan_seq(c1, ch) == chan_seq(m0[key], ch).update(i as int, v));
                    lemma_map_sum_insert(m0, deficit_fn(ch), key, c1);
                    lemma_map_sum_insert(m0, total_fn(ch), key, c1);
                    crate::measure::lemma_deficit_update(chan_seq(m0[key], ch), i as int, v);
                    crate::measure::lemma_total_update(chan_seq(m0[key], ch), i as int, v);
                    assert(chunk_ok(c1));
                    assert forall|k: u64| self.chunks@.contains_key(k) implies #[trigger] chunk_ok(
                        self.chunks@[k],
                    ) by {
                        if k != key {
                            assert(chunk_ok(m0[k]));
                        }
                    }
                    assert forall|cx2: int, cz2: int| #[trigger]
                        m_loaded(self.chunks@, cx2, cz2) implies m_loaded(m0, cx2, cz2) by {}
                }
            },
        }
        let ghost m1 = self.chunks@;
        self.mark_dirty_around(x, z);
        proof {
            lemma_same_content_sums(m1, self.chunks@, ch);
            let m2 = self.chunks@;
            assert forall|k2: u64| m0.contains_key(k2) implies {
                &&& (#[trigger] m2[k2]).blocks@ == m0[k2].blocks@
                &&& m2[k2].water_level@ == m0[k2].water_level@
                &&& m2[k2].heights@ == m0[k2].heights@
                &&& (ch == LightChannel::Torch ==> m2[k2].skylight@ == m0[k2].skylight@)
                &&& (ch == LightChannel::Sky ==> m2[k2].light@ == m0[k2].light@)
                &&& chan_seq(m2[k2], ch) == if k2 == key {
                    chan_seq(m0[k2], ch).update(i as int, v)
                } else {
                    chan_seq(m0[k2], ch)
                }
            } by {
                assert(content_eq(m1[k2], m2[k2]));
            }
        }
    }

    /// Spreads light through the world, breadth first, from the seed entries
    /// `(x, y, z, level)` of `q`. A seed lights its cell if that is darker;
    /// a lit cell passes its level minus one (sky light at the maximum passes
    /// the maximum straight down) to each non-opaque neighbour that is darker,
    /// and that neighbour is queued in turn. Unloaded chunks are not entered.
    #[verifier::spinoff_prover]
    #[verifier::rlimit(60)]
    fn flood_add(&mut self, ch: LightChannel, seeds: VecDeque<(i32, i32, i32, u8)>)
        requires
            old(self).wf(),
            forall|j: int| 0 <= j < seeds@.len() ==> (#[trigger] seeds@[j]).3 <= SKY_LIGHT_MAX,
        ensures
            final(self).wf(),
            final(self).edits == old(self).edits,
            final(self).water_queue == old(self).water_queue,
            final(self).seed == old(self).seed,
            light_grown(old(self).chunks@, final(self).chunks@, ch),
            all_dead(old(self).chunks@, seeds@) ==> final(self).chunks@ == old(self).chunks@,
            forall|x2: int, y2: int, z2: int| #[trigger] justified(old(self).chunks@, final(self).chunks@, ch, seeds@, x2, y2, z2),
            forall|j: int|
                0 <= j < seeds@.len() && 0 <= (#[trigger] seeds@[j]).1 < CH && m_col_loaded(
                    old(self).chunks@,
                    seeds@[j].0 as int,
                    seeds@[j].2 as int,
                ) ==> final(self).chan(ch, seeds@[j].0 as int, seeds@[j].1 as int, seeds@[j].2 as int)
                    >= seeds@[j].3,
            forall|x2: int, y2: int, z2: int|
                0 <= y2 < CH && m_col_loaded(final(self).chunks@, x2, z2) && (final(self).chan(ch, x2, y2, z2)
                    > old(self).chan(ch, x2, y2, z2) || exists|k: int|
                    0 <= k < seeds@.len() && #[trigger] seeds@[k] == (x2 as i32, y2 as i32, z2 as i32, final(self).chan(
                        ch,
                        x2,
                        y2,
                        z2,
                    ))) ==> #[trigger] passes_on(final(self).chunks@, ch, x2, y2, z2),
    {
        let ghost m_init = self.chunks@;
        let ghost dom = self.chunks@.dom();
        let ghost q0 = seeds@;
        let ghost mut np: int = 0;
        let mut q = seeds;
        proof {
            assert forall|k: u64| m_init.contains_key(k) implies {
                &&& (#[trigger] m_init[k]).blocks@ == m_init[k].blocks@
                &&& m_init[k].water_level@ == m_init[k].water_level@
                &&& m_init[k].heights@ == m_init[k].heights@
                &&& chan_seq(m_init[k], other_chan(ch)) == chan_seq(m_init[k], other_chan(ch))
                &&& chan_seq(m_init[k], ch).len() == chan_seq(m_init[k], ch).len()
                &&& forall|i: int|
                    0 <= i < chan_seq(m_init[k], ch).len() ==> #[trigger] chan_seq(m_init[k], ch)[i]
                        >= chan_seq(m_init[k], ch)[i]
            } by {}
            assert forall|a: int, b: int, c: int| #[trigger] flood_ok(m_init, self.chunks@, ch, q@, q0, 0, a, b, c) by {}
        }
        loop
            invariant
                self.wf(),
                self.edits == old(self).edits,
                self.water_queue == old(self).water_queue,
                self.seed == old(self).seed,
                m_init == old(self).chunks@,
                map_ok(m_init),
                q0 == seeds@,
                dom == m_init.dom(),
                self.chunks@.dom() == dom,
                light_grown(m_init, self.chunks@, ch),
                forall|j: int| 0 <= j < q@.len() ==> (#[trigger] q@[j]).3 <= SKY_LIGHT_MAX,
                0 <= np,
                np <= q0.len() ==> q@.len() >= q0.len() - np,
                np <= q0.len() ==> forall|j: int| 0 <= j < q0.len() - np ==> q@[j] == q0[np + j],
                forall|j: int|
                    0 <= j < q0.len() && j < np && 0 <= (#[trigger] q0[j]).1 < CH && m_col_loaded(
                        m_init,
                        q0[j].0 as int,
                        q0[j].2 as int,
                    ) ==> self.chan(ch, q0[j].0 as int, q0[j].1 as int, q0[j].2 as int) >= q0[j].3,
                forall|a: int, b: int, c: int| #[trigger] flood_ok(m_init, self.chunks@, ch, q@, q0, np, a, b, c),
                all_dead(m_init, q0) ==> self.chunks@ == m_init && all_dead(m_init, q@),
                forall|a: int, b: int, c: int| #[trigger] justified(m_init, self.chunks@, ch, q0, a, b, c),
                forall|j: int| 0 <= j < q@.len() && (np > q0.len() || j >= q0.len() - np) ==> entry_settled(self.chunks@, ch, #[trigger] q@[j]),
            ensures
                forall|a: int, b: int, c: int| #[trigger] justified(m_init, self.chunks@, ch, q0, a, b, c),
                all_dead(m_init, q0) ==> self.chunks@ == m_init,
                forall|a: int, b: int, c: int| #[trigger] flood_ok(m_init, self.chunks@, ch, q@, q0, np, a, b, c),
                q@.len() == 0,
                np >= q0.len(),
                forall|j: int|
                    0 <= j < q0.len() && 0 <= (#[trigger] q0[j]).1 < CH && m_col_loaded(
                        m_init,
                        q0[j].0 as int,
                        q0[j].2 as int,
                    ) ==> self.chan(ch, q0[j].0 as int, q0[j].1 as int, q0[j].2 as int) >= q0[j].3,
            decreases 7 * map_sum(self.chunks@, deficit_fn(ch)) + queue_weight(dom, q@),
        {
            proof {
                lemma_measures_nonneg(self.chunks@, ch);
                lemma_queue_weight_nonneg(dom, q@);
                lemma_light_grown_cells(m_init, self.chunks@, ch);
            }
            let ghost qb = q@;
            let ghost mb = self.chunks@;
            let ghost npb = np;
            let item = q.pop_front();
            let (x, y, z, lv) = match item {
                None => {
                    assert(np >= q0.len());
                    break ;
                },
                Some(e) => e,
            };
            proof {
                lemma_queue_weight_pop(dom, qb);
                lemma_queue_weight_nonneg(dom, q@);
                np = np + 1;
                assert forall|j: int| 0 <= j < q@.len() implies (#[trigger] q@[j]).3 <= SKY_LIGHT_MAX by {
                    assert(q@[j] == qb[j + 1]);
                }
                if npb < q0.len() {
                    assert(qb[0] == q0[npb]);
                    assert forall|j: int| 0 <= j < q0.len() - np implies q@[j] == q0[np + j] by {
                        assert(q@[j] == qb[j + 1]);
                    }
                }
            }
            proof {
                assert(q@ =~= qb.drop_first());
                assert forall|j: int| 0 <= j < q@.len() && (np > q0.len() || j >= q0.len() - np) implies entry_settled(self.chunks@, ch, #[trigger] q@[j]) by {
                    assert(q@[j] == qb[j + 1]);
                    assert(entry_settled(self.chunks@, ch, qb[j + 1]));
                }
                if all_dead(m_init, q0) {
                    assert(seed_dead(m_init, qb[0]));
                    assert forall|j: int| 0 <= j < q@.len() implies seed_dead(m_init, #[trigger] q@[j]) by {
                        assert(q@[j] == qb[j + 1]);
                        assert(seed_dead(m_init, qb[j + 1]));
                    }
                }
            }
            if y < 0 || y >= CH {
                proof {
                    lemma_flood_skip(m_init, self.chunks@, ch, qb, q@, q0, npb);
                }
                continue ;
            }
            let (cx, _lx) = split(x);
            let (cz, _lz) = split(z);
            if !self.chunks.contains_key(&chunk_key(cx, cz)) {
                proof {
                    lemma_flood_skip(m_init, self.chunks@, ch, qb, q@, q0, npb);
                }
                continue ;
            }
            proof {
                lemma_loaded_coords(self.chunks@, x as int, z as int);
                assert(!all_dead(m_init, q0));
            }
            let cur = self.get_chan(ch, x, y, z);
            if cur > lv {
                proof {
                    lemma_flood_skip(m_init, self.chunks@, ch, qb, q@, q0, npb);
                }
                continue ;
            }
            proof {
                lemma_grown_refl(mb, ch);
                assert(map_ok(mb));
            }
            proof {
                if cur < lv {
                    if npb < q0.len() {
                        assert(qb[0] == q0[npb]);
                        assert(at_seed_level(q0, x as int, y as int, z as int, lv as int));
                    } else {
                        assert(entry_settled(mb, ch, qb[0]));
                    }
                }
            }
            if cur < lv {
                let ghost m_pre = self.chunks@;
                self.set_chan(ch, x, y, z, lv);
                proof {
                    lemma_light_updated_cells(m_pre, self.chunks@, ch, x as int, y as int, z as int, lv);
                    assert(justified(m_init, self.chunks@, ch, q0, x as int, y as int, z as int));
                    lemma_justified_step(m_init, m_pre, self.chunks@, ch, q0, x as int, y as int, z as int);
                    assert forall|j: int| 0 <= j < q@.len() && (np > q0.len() || j >= q0.len() - np) implies entry_settled(self.chunks@, ch, #[trigger] q@[j]) by {
                        assert(entry_settled(m_pre, ch, q@[j]));
                    }
                    lemma_cell_index(x as int % 16, y as int, z as int % 16);
                    assert(chunk_ok(m_pre[key_u64(x as int / 16, z as int / 16)]));
                    lemma_grown_step(
                        m_init,
                        m_pre,
                        self.chunks@,
                        ch,
                        key_u64(x as int / 16, z as int / 16),
                        local_index(x as int, y as int, z as int),
                        lv,
                    );
                    lemma_grown_step(
                        mb,
                        m_pre,
                        self.chunks@,
                        ch,
                        key_u64(x as int / 16, z as int / 16),
                        local_index(x as int, y as int, z as int),
                        lv,
                    );
                }
            }
            proof {
                assert(qb[0] == (x, y, z, lv));
                assert(entry_weight(dom, x, y, z) == 7);
                assert(q@ == qb.drop_first());
                assert(map_sum(self.chunks@, deficit_fn(ch)) <= map_sum(mb, deficit_fn(ch)));
                assert(7 * map_sum(self.chunks@, deficit_fn(ch)) + queue_weight(dom, q@) <= 7
                    * map_sum(mb, deficit_fn(ch)) + queue_weight(dom, qb) - 7);
                lemma_measures_nonneg(self.chunks@, ch);
                lemma_queue_weight_nonneg(dom, q@);
            }
            proof {
                lemma_light_grown_cells(mb, self.chunks@, ch);
                assert(m_chan(self.chunks@, ch, x as int, y as int, z as int) == lv);
                assert forall|a: int, b: int, c: int|
                    !(a == x && b == y && c == z) implies #[trigger] m_chan(self.chunks@, ch, a, b, c) == m_chan(mb, ch, a, b, c) by {}
                assert forall|j: int| 0 <= j < qb.len() - 1 implies #[trigger] q@[j] == qb[j + 1] by {}
            }
            if lv <= 1 {
                proof {
                    assert forall|d2: int| 0 <= d2 < 6 implies #[trigger] passes_to(self.chunks@, ch, x as int, y as int, z as int, d2) by {}
                    lemma_flood_process(m_init, mb, self.chunks@, ch, qb, q@, q0, npb);
                }
                continue ;
            }
            let mut d: usize = 0;
            while d < 6
                invariant
                    self.wf(),
                    self.edits == old(self).edits,
                    self.water_queue == old(self).water_queue,
                    self.seed == old(self).seed,
                    m_init == old(self).chunks@,
                    map_ok(m_init),
                    mb.dom() == dom,
                    q0 == seeds@,
                    dom == m_init.dom(),
                    self.chunks@.dom() == dom,
                    light_grown(m_init, self.chunks@, ch),
                    forall|j: int| 0 <= j < q@.len() ==> (#[trigger] q@[j]).3 <= SKY_LIGHT_MAX,
                    0 <= np,
                    np <= q0.len() ==> q@.len() >= q0.len() - np,
                    np <= q0.len() ==> forall|j: int| 0 <= j < q0.len() - np ==> q@[j] == q0[np + j],
                    forall|j: int|
                        0 <= j < q0.len() && j < np && 0 <= (#[trigger] q0[j]).1 < CH && m_col_loaded(
                            m_init,
                            q0[j].0 as int,
                            q0[j].2 as int,
                        ) ==> self.chan(ch, q0[j].0 as int, q0[j].1 as int, q0[j].2 as int) >= q0[j].3,
                    d <= 6,
                    1 < lv <= SKY_LIGHT_MAX,
                    0 <= y < CH,
                    -0x7fff_fff0 < x < 0x7fff_fff0,
                    -0x7fff_fff0 < z < 0x7fff_fff0,
                    7 * map_sum(self.chunks@, deficit_fn(ch)) + queue_weight(dom, q@) + (6 - d) <= 7
                        * map_sum(mb, deficit_fn(ch)) + queue_weight(dom, qb) - 1,
                    map_ok(mb),
                    qb.len() > 0,
                    qb[0] == (x, y, z, lv),
                    m_col_loaded(mb, x as int, z as int),
                    light_grown(mb, self.chunks@, ch),
                    m_chan(self.chunks@, ch, x as int, y as int, z as int) == lv,
                    forall|d2: int| 0 <= d2 < d ==> #[trigger] passes_to(self.chunks@, ch, x as int, y as int, z as int, d2),
                    forall|a: int, b: int, c: int|
                        !(a == x && b == y && c == z) && #[trigger] m_chan(self.chunks@, ch, a, b, c) != m_chan(mb, ch, a, b, c)
                            ==> queued(q@, self.chunks@, ch, a, b, c),
                    q@.len() >= qb.len() - 1,
                    forall|j: int| 0 <= j < qb.len() - 1 ==> #[trigger] q@[j] == qb[j + 1],
                    !all_dead(m_init, q0),
                    forall|a: int, b: int, c: int| #[trigger] justified(m_init, self.chunks@, ch, q0, a, b, c),
                    forall|j: int| 0 <= j < q@.len() && (np > q0.len() || j >= q0.len() - np) ==> entry_settled(self.chunks@, ch, #[trigger] q@[j]),
                decreases 6 - d,
            {
                let (dx, dy, dz) = dir(d);
                let nx = x + dx;
                let ny = y + dy;
                let nz = z + dz;
                let ghost dc = d as int;
                d += 1;
                if ny < 0 || ny >= CH {
                    proof {
                        assert(!open_side(self.chunks@, x as int, y as int, z as int, dc));
                        assert(passes_to(self.chunks@, ch, x as int, y as int, z as int, dc));
                    }
                    continue ;
                }
                if self.get_block(nx, ny, nz).is_opaque() {
                    proof {
                        assert(!open_side(self.chunks@, x as int, y as int, z as int, dc));
                        assert(passes_to(self.chunks@, ch, x as int, y as int, z as int, dc));
                    }
                    continue ;
                }
                let no_decay = ch == LightChannel::Sky && dy == -1 && lv == SKY_LIGHT_MAX;
                let nlv = if no_decay {
                    lv
                } else {
                    lv - 1
                };
                assert(nlv as int == passed_level(ch, lv as int, dy as int));
                assert(!spec_is_opaque(m_block(self.chunks@, nx as int, ny as int, nz as int)));
                let ncur = self.get_chan(ch, nx, ny, nz);
                if ncur < nlv {
                    let ghost m_pre = self.chunks@;
                    let ghost q_pre = q@;
                    self.set_chan(ch, nx, ny, nz, nlv);
                    q.push_back((nx, ny, nz, nlv));
                    proof {
                        lemma_queue_weight_push(dom, q_pre, (nx, ny, nz, nlv));
                        if m_col_loaded(m_pre, nx as int, nz as int) {
                            lemma_light_updated_cells(
                                m_pre,
                                self.chunks@,
                                ch,
                                nx as int,
                                ny as int,
                                nz as int,
                                nlv,
                            );
                            lemma_cell_index(nx as int % 16, ny as int, nz as int % 16);
                            assert(chunk_ok(m_pre[key_u64(nx as int / 16, nz as int / 16)]));
                            lemma_grown_step(
                                m_init,
                                m_pre,
                                self.chunks@,
                                ch,
                                key_u64(nx as int / 16, nz as int / 16),
                                local_index(nx as int, ny as int, nz as int),
                                nlv,
                            );
                            lemma_grown_step(
                                mb,
                                m_pre,
                                self.chunks@,
                                ch,
                                key_u64(nx as int / 16, nz as int / 16),
                                local_index(nx as int, ny as int, nz as int),
                                nlv,
                            );
                        } else {
                            assert(self.chunks@ == m_pre);
                        }
                        assert forall|a: int, b: int, c: int| #[trigger] m_chan(self.chunks@, ch, a, b, c) >= m_chan(m_pre, ch, a, b, c) by {}
                        assert(nb(nx as int, ny as int, nz as int, opp_dir(dc)) == (x as int, y as int, z as int));
                        assert(-(spec_dir(opp_dir(dc)).1 as int) == dy as int);
                        if m_col_loaded(m_pre, nx as int, nz as int) {
                            assert(m_col_loaded(self.chunks@, x as int, z as int));
                            assert(lit_from(self.chunks@, ch, nx as int, ny as int, nz as int, opp_dir(dc)));
                        }
                        assert(m_block(self.chunks@, nx as int, ny as int, nz as int) == m_block(m_pre, nx as int, ny as int, nz as int));
                        assert(justified(m_init, self.chunks@, ch, q0, nx as int, ny as int, nz as int));
                        lemma_justified_step(m_init, m_pre, self.chunks@, ch, q0, nx as int, ny as int, nz as int);
                        assert forall|j: int| 0 <= j < q@.len() && (np > q0.len() || j >= q0.len() - np) implies entry_settled(self.chunks@, ch, #[trigger] q@[j]) by {
                            if j < q_pre.len() {
                                assert(q@[j] == q_pre[j]);
                                assert(entry_settled(m_pre, ch, q_pre[j]));
                            } else {
                                assert(q@[j] == (nx, ny, nz, nlv));
                            }
                        }
                        assert forall|cx2: int, cz2: int| #[trigger] m_loaded(self.chunks@, cx2, cz2) == m_loaded(m_pre, cx2, cz2) by {}
                        assert forall|x2: int, y2: int, z2: int| #[trigger] m_block(self.chunks@, x2, y2, z2) == m_block(m_pre, x2, y2, z2) by {}
                        assert(m_chan(self.chunks@, ch, x as int, y as int, z as int) == lv);
                        assert forall|d2: int| 0 <= d2 < d implies #[trigger] passes_to(self.chunks@, ch, x as int, y as int, z as int, d2) by {
                            if d2 < dc {
                                lemma_passes_to_mono(m_pre, self.chunks@, ch, x as int, y as int, z as int, d2);
                            }
                        }
                        assert forall|a: int, b: int, c: int|
                            !(a == x && b == y && c == z) && #[trigger] m_chan(self.chunks@, ch, a, b, c) != m_chan(mb, ch, a, b, c)
                            implies queued(q@, self.chunks@, ch, a, b, c) by {
                            if a == nx && b == ny && c == nz {
                                assert(q@[q@.len() - 1] == (nx, ny, nz, nlv));
                            } else {
                                let j = choose|j: int|
                                    0 <= j < q_pre.len() && (#[trigger] q_pre[j]).0 == a && q_pre[j].1 == b && q_pre[j].2 == c
                                        && q_pre[j].3 == m_chan(m_pre, ch, a, b, c);
                                assert(q@[j] == q_pre[j]);
                            }
                        }
                        assert forall|j: int| 0 <= j < qb.len() - 1 implies #[trigger] q@[j] == qb[j + 1] by {
                            assert(q@[j] == q_pre[j]);
                        }

                        assert forall|j: int| 0 <= j < q@.len() implies (#[trigger] q@[j]).3
                            <= SKY_LIGHT_MAX by {
                            if j < q_pre.len() {
                                assert(q@[j] == q_pre[j]);
                            }
                        }
                        if np <= q0.len() {
                            assert forall|j: int| 0 <= j < q0.len() - np implies q@[j] == q0[np + j] by {
                                assert(q@[j] == q_pre[j]);
                            }
                        }
                    }
                } else {
                    proof {
                        assert(passes_to(self.chunks@, ch, x as int, y as int, z as int, dc));
                    }
                }
            }
            proof {
                lemma_measures_nonneg(self.chunks@, ch);
                lemma_queue_weight_nonneg(dom, q@);
                assert forall|d2: int| 0 <= d2 < 6 implies #[trigger] passes_to(self.chunks@, ch, x as int, y as int, z as int, d2) by {}
                lemma_flood_process(m_init, mb, self.chunks@, ch, qb, q@, q0, npb);
            }
        }
        proof {
            assert forall|x2: int, y2: int, z2: int|
                0 <= y2 < CH && m_col_loaded(self.chunks@, x2, z2) && (self.chan(ch, x2, y2, z2) > old(self).chan(ch, x2, y2, z2)
                    || exists|k: int|
                    0 <= k < seeds@.len() && #[trigger] seeds@[k] == (x2 as i32, y2 as i32, z2 as i32, self.chan(ch, x2, y2, z2)))
                implies #[trigger] passes_on(self.chunks@, ch, x2, y2, z2) by {
                assert(flood_ok(m_init, self.chunks@, ch, q@, q0, np, x2, y2, z2));
                if !(self.chan(ch, x2, y2, z2) > old(self).chan(ch, x2, y2, z2)) {
                    let k = choose|k: int|
                        0 <= k < seeds@.len() && #[trigger] seeds@[k] == (x2 as i32, y2 as i32, z2 as i32, self.chan(ch, x2, y2, z2));
                    assert(q0[k].0 == x2 && q0[k].1 == y2 && q0[k].2 == z2 && q0[k].3 == m_chan(self.chunks@, ch, x2, y2, z2));
                    assert(seed_hit(q0, np, self.chunks@, ch, x2, y2, z2));
                }
            }
        }
    }

    /// Removes the light that flowed out of (x, y, z): clears the cell, then
    /// breadth first clears every lit neighbour that depends on a cleared
    /// cell (its light is strictly lower; for sky light also the cell straight
    /// below a maximum-level cell at the same level). Lit neighbours that do
    /// not depend on it keep their light and, if still unchanged afterwards,
    /// spread it again into the cleared region.
    #[verifier::spinoff_prover]
    #[verifier::rlimit(30)]
    fn flood_remove(&mut self, ch: LightChannel, x: i32, y: i32, z: i32)
        requires
            old(self).wf(),
        ensures
            final(self).wf(),
            final(self).edits == old(self).edits,
            final(self).water_queue == old(self).water_queue,
            final(self).seed == old(self).seed,
            only_chan_changed(old(self).chunks@, final(self).chunks@, ch),
            old(self).chan(ch, x as int, y as int, z as int) == 0 ==> final(self).chunks == old(self).chunks,
            ch == LightChannel::Torch && torch_bounded(old(self).chunks@) ==> torch_bounded(final(self).chunks@),
            dark_chan_except(old(self).chunks@, ch, x as int, y as int, z as int) ==> dark_chan(final(self).chunks@, ch),
            exists|mc: Map<u64, Chunk>| #[trigger] light_removed(old(self).chunks@, mc, final(self).chunks@, ch, x as int, y as int, z as int),
            final(self).chan(ch, x as int, y as int, z as int) == 0 || (lit_by_nb(final(self).chunks@, ch, x as int, y as int, z as int)
                && !spec_is_opaque(final(self).block(x as int, y as int, z as int))),
            exists|mc: Map<u64, Chunk>|
                #![trigger light_grown(mc, final(self).chunks@, ch)]
                {
                    &&& cleared_only(old(self).chunks@, mc, ch)
                    &&& m_chan(mc, ch, x as int, y as int, z as int) == 0
                    &&& removal_closed(old(self).chunks@, mc, ch)
                    &&& removal_sound(old(self).chunks@, mc, ch, x as int, y as int, z as int)
                    &&& light_grown(mc, final(self).chunks@, ch)
                    &&& forall|x2: int, y2: int, z2: int|
                        0 <= y2 < CH && m_col_loaded(final(self).chunks@, x2, z2) && m_chan(final(self).chunks@, ch, x2, y2, z2)
                            > m_chan(mc, ch, x2, y2, z2) ==> #[trigger] passes_on(final(self).chunks@, ch, x2, y2, z2)
                    &&& removal_reseeded(old(self).chunks@, mc, final(self).chunks@, ch)
                    &&& forall|a: int, b: int, c: int|
                        #[trigger] was_cleared(old(self).chunks@, mc, ch, a, b, c) ==> m_chan(final(self).chunks@, ch, a, b, c) == 0
                            || (lit_by_nb(final(self).chunks@, ch, a, b, c) && !spec_is_opaque(m_block(final(self).chunks@, a, b, c)))
                },
    {
        let ghost m_init = self.chunks@;
        proof {
            assert forall|k: u64| m_init.contains_key(k) implies {
                &&& (#[trigger] m_init[k]).blocks@ == m_init[k].blocks@
                &&& m_init[k].water_level@ == m_init[k].water_level@
                &&& m_init[k].heights@ == m_init[k].heights@
                &&& chan_seq(m_init[k], other_chan(ch)) == chan_seq(m_init[k], other_chan(ch))
                &&& chan_seq(m_init[k], ch).len() == chan_seq(m_init[k], ch).len()
            } by {}
        }
        let start = self.get_chan(ch, x, y, z);
        if start == 0 {
            proof {
                lemma_grown_refl(m_init, ch);
                assert(cleared_only(m_init, m_init, ch));
                if dark_chan_except(m_init, ch, x as int, y as int, z as int) {
                    assert forall|a: int, b: int, c: int| #[trigger] m_chan(m_init, ch, a, b, c) > 0 implies !spec_is_opaque(
                        m_block(m_init, a, b, c),
                    ) by {}
                }
                assert(light_removed(m_init, m_init, m_init, ch, x as int, y as int, z as int));
            }
            return ;
        }
        let ghost m0 = self.chunks@;
        self.set_chan(ch, x, y, z, 0);
        proof {
            lemma_light_updated_cells(m0, self.chunks@, ch, x as int, y as int, z as int, 0);
            lemma_cell_index(x as int % 16, y as int, z as int % 16);
            assert(chunk_ok(m0[key_u64(x as int / 16, z as int / 16)]));
            lemma_changed_step(m_init, m0, self.chunks@, ch, key_u64(x as int / 16, z as int / 16),
                local_index(x as int, y as int, z as int), 0);
            lemma_removal_start(m_init, self.chunks@, ch, x, y, z, start);
        }
        let ghost dom = self.chunks@.dom();
        let mut rq: VecDeque<(i32, i32, i32, u8)> = VecDeque::new();
        let mut addq: VecDeque<(i32, i32, i32, u8)> = VecDeque::new();
        rq.push_back((x, y, z, start));
        loop
            invariant
                self.wf(),
                self.edits == old(self).edits,
                self.water_queue == old(self).water_queue,
                self.seed == old(self).seed,
                m_init == old(self).chunks@,
                dom == m_init.dom(),
                self.chunks@.dom() == dom,
                only_chan_changed(m_init, self.chunks@, ch),
                forall|j: int|
                    0 <= j < rq@.len() ==> 0 <= (#[trigger] rq@[j]).1 < CH && m_col_loaded(
                        self.chunks@,
                        rq@[j].0 as int,
                        rq@[j].2 as int,
                    ),
                forall|j: int| 0 <= j < addq@.len() ==> (#[trigger] addq@[j]).3 <= SKY_LIGHT_MAX,
                removal_state(m_init, self.chunks@, ch, rq@, addq@),
                removal_sound(m_init, self.chunks@, ch, x as int, y as int, z as int),
                m_chan(self.chunks@, ch, x as int, y as int, z as int) == 0,
            ensures
                removal_sound(m_init, self.chunks@, ch, x as int, y as int, z as int),
                self.wf(),
                self.edits == old(self).edits,
                self.water_queue == old(self).water_queue,
                self.seed == old(self).seed,
                m_init == old(self).chunks@,
                only_chan_changed(m_init, self.chunks@, ch),
                forall|j: int| 0 <= j < addq@.len() ==> (#[trigger] addq@[j]).3 <= SKY_LIGHT_MAX,
                removal_state(m_init, self.chunks@, ch, Seq::empty(), addq@),
                m_chan(self.chunks@, ch, x as int, y as int, z as int) == 0,
            decreases 2 * map_sum(self.chunks@, total_fn(ch)) + rq@.len(),
        {
            proof {
                lemma_measures_nonneg(self.chunks@, ch);
            }
            let ghost rqb = rq@;
            let ghost mb = self.chunks@;
            let item = rq.pop_front();
            let (px, py, pz, lv) = match item {
                None => {
                    proof {
                        assert(rq@ =~= Seq::<(i32, i32, i32, u8)>::empty());
                    }
                    break ;
                },
                Some(e) => e,
            };
            proof {
                assert(rqb[0] == (px, py, pz, lv));
                lemma_removal_pop(m_init, self.chunks@, ch, rqb, addq@);
                assert(rq@ == rqb.drop_first());
                lemma_loaded_coords(self.chunks@, px as int, pz as int);
                assert forall|j: int| 0 <= j < rq@.len() implies 0 <= (#[trigger] rq@[j]).1 < CH
                    && m_col_loaded(self.chunks@, rq@[j].0 as int, rq@[j].2 as int) by {
                    assert(rq@[j] == rqb[j + 1]);
                }
            }
            let mut d: usize = 0;
            while d < 6
                invariant
                    self.wf(),
                    self.edits == old(self).edits,
                    self.water_queue == old(self).water_queue,
                    self.seed == old(self).seed,
                    m_init == old(self).chunks@,
                    dom == m_init.dom(),
                    mb.dom() == dom,
                    self.chunks@.dom() == dom,
                    only_chan_changed(m_init, self.chunks@, ch),
                    forall|j: int|
                        0 <= j < rq@.len() ==> 0 <= (#[trigger] rq@[j]).1 < CH && m_col_loaded(
                            self.chunks@,
                            rq@[j].0 as int,
                            rq@[j].2 as int,
                        ),
                    forall|j: int| 0 <= j < addq@.len() ==> (#[trigger] addq@[j]).3 <= SKY_LIGHT_MAX,
                    d <= 6,
                    0 <= py < CH,
                    -0x7fff_fff0 < px < 0x7fff_fff0,
                    -0x7fff_fff0 < pz < 0x7fff_fff0,
                    2 * map_sum(self.chunks@, total_fn(ch)) + rq@.len() <= 2 * map_sum(mb, total_fn(ch))
                        + rqb.len() - 1,
                    removal_partial(m_init, self.chunks@, ch, rq@, addq@, px as int, py as int, pz as int, d as int),
                    lv == m_chan(m_init, ch, px as int, py as int, pz as int),
                    m_chan(self.chunks@, ch, x as int, y as int, z as int) == 0,
                    removal_sound(m_init, self.chunks@, ch, x as int, y as int, z as int),
                decreases 6 - d,
            {
                let (dx, dy, dz) = dir(d);
                let nx = px + dx;
                let ny = py + dy;
                let nz = pz + dz;
                let ghost d0 = d as int;
                proof {
                    assert(nb(px as int, py as int, pz as int, d0) == (nx as int, ny as int, nz as int));
                }
                d += 1;
                if ny < 0 || ny >= CH {
                    proof {
                        assert(handled_dir(m_init, self.chunks@, ch, addq@, px as int, py as int, pz as int, d0));
                        lemma_removal_keep(m_init, self.chunks@, ch, rq@, addq@, px as int, py as int, pz as int, d0);
                    }
                    continue ;
                }
                let nl = self.get_chan(ch, nx, ny, nz);
                if nl == 0 {
                    proof {
                        assert(handled_dir(m_init, self.chunks@, ch, addq@, px as int, py as int, pz as int, d0));
                        lemma_removal_keep(m_init, self.chunks@, ch, rq@, addq@, px as int, py as int, pz as int, d0);
                    }
                    continue ;
                }
                let depends = nl < lv || (ch == LightChannel::Sky && dy == -1 && nl == lv && lv
                    == SKY_LIGHT_MAX);
                proof {
                    assert(depends == depends_on(ch, nl as int, lv as int, d0));
                }
                if depends {
                    let ghost m_pre = self.chunks@;
                    let ghost rq_pre = rq@;
                    self.set_chan(ch, nx, ny, nz, 0);
                    rq.push_back((nx, ny, nz, nl));
                    proof {
                        lemma_light_updated_cells(m_pre, self.chunks@, ch, nx as int, ny as int, nz as int, 0);
                        lemma_cell_index(nx as int % 16, ny as int, nz as int % 16);
                        assert(chunk_ok(m_pre[key_u64(nx as int / 16, nz as int / 16)]));
                        lemma_changed_step(m_init, m_pre, self.chunks@, ch, key_u64(nx as int / 16, nz as int / 16),
                            local_index(nx as int, ny as int, nz as int), 0);
                        lemma_removal_clear(m_init, m_pre, self.chunks@, ch, rq_pre, addq@, px as int, py as int,
                            pz as int, d0, (nx, ny, nz, nl), x as int, y as int, z as int);
                        assert forall|j: int| 0 <= j < rq@.len() implies 0 <= (#[trigger] rq@[j]).1 < CH
                            && m_col_loaded(self.chunks@, rq@[j].0 as int, rq@[j].2 as int) by {
                            if j < rq_pre.len() {
                                assert(rq@[j] == rq_pre[j]);
                            }
                        }
                    }
                } else {
                    let ghost a_pre = addq@;
                    addq.push_back((nx, ny, nz, nl));
                    proof {
                        lemma_removal_seed(m_init, self.chunks@, ch, rq@, a_pre, px as int, py as int, pz as int, d0,
                            (nx, ny, nz, nl));
                        assert forall|j: int| 0 <= j < addq@.len() implies (#[trigger] addq@[j]).3 <= SKY_LIGHT_MAX by {
                            if j < a_pre.len() {
                                assert(addq@[j] == a_pre[j]);
                            }
                        }
                    }
                }
            }
            proof {
                lemma_measures_nonneg(self.chunks@, ch);
                lemma_removal_finish(m_init, self.chunks@, ch, rq@, addq@, px as int, py as int, pz as int);
            }
        }
        // A seed may have been cleared by a later, stronger removal wave; only
        // seeds whose light is still what it was when found are spread again.
        let mut seeds: VecDeque<(i32, i32, i32, u8)> = VecDeque::new();
        let ghost found = addq@;
        let ghost mc = self.chunks@;
        let ghost mut i: int = 0;
        loop
            invariant
                self.wf(),
                forall|j: int| 0 <= j < addq@.len() ==> (#[trigger] addq@[j]).3 <= SKY_LIGHT_MAX,
                forall|j: int| 0 <= j < seeds@.len() ==> (#[trigger] seeds@[j]).3 <= SKY_LIGHT_MAX,
                self.chunks@ == mc,
                0 <= i <= found.len(),
                addq@ == found.skip(i),
                forall|j: int|
                    0 <= j < i && m_chan(mc, ch, found[j].0 as int, found[j].1 as int, found[j].2 as int) == found[j].3
                        ==> holds_entry(seeds@, found[j].0 as int, found[j].1 as int, found[j].2 as int, found[j].3 as int),
                forall|j: int| 0 <= j < seeds@.len() ==> m_chan(mc, ch, (#[trigger] seeds@[j]).0 as int, seeds@[j].1 as int, seeds@[j].2 as int) == seeds@[j].3,
            ensures
                forall|j: int| 0 <= j < seeds@.len() ==> m_chan(mc, ch, (#[trigger] seeds@[j]).0 as int, seeds@[j].1 as int, seeds@[j].2 as int) == seeds@[j].3,
                self.wf(),
                forall|j: int| 0 <= j < seeds@.len() ==> (#[trigger] seeds@[j]).3 <= SKY_LIGHT_MAX,
                self.chunks@ == mc,
                forall|j: int|
                    0 <= j < found.len() && m_chan(mc, ch, found[j].0 as int, found[j].1 as int, found[j].2 as int)
                        == found[j].3 ==> holds_entry(seeds@, found[j].0 as int, found[j].1 as int, found[j].2 as int, found[j].3 as int),
            decreases addq@.len(),
        {
            let ghost ab = addq@;
            let ghost sb = seeds@;
            match addq.pop_front() {
                None => {
                    proof {
                        assert(found.skip(i).len() == 0);
                    }
                    break ;
                },
                Some(e) => {
                    proof {
                        assert(e == ab[0]);
                        assert forall|j: int| 0 <= j < addq@.len() implies (#[trigger] addq@[j]).3 <= SKY_LIGHT_MAX by {
                            assert(addq@[j] == ab[j + 1]);
                        }
                    }
                    proof {
                        assert(e == found[i]);
                    }
                    if self.get_chan(ch, e.0, e.1, e.2) == e.3 {
                        seeds.push_back(e);
                        proof {
                            assert forall|j: int| 0 <= j < seeds@.len() implies (#[trigger] seeds@[j]).3 <= SKY_LIGHT_MAX by {
                                if j < sb.len() {
                                    assert(seeds@[j] == sb[j]);
                                }
                            }
                            assert(seeds@[sb.len() as int] == e);
                            assert forall|j: int| 0 <= j < seeds@.len() implies m_chan(mc, ch, (#[trigger] seeds@[j]).0 as int, seeds@[j].1 as int, seeds@[j].2 as int) == seeds@[j].3 by {
                                if j < sb.len() {
                                    assert(seeds@[j] == sb[j]);
                                }
                            }
                        }
                    }
                    proof {
                        assert forall|j: int|
                            0 <= j < i + 1 && m_chan(mc, ch, found[j].0 as int, found[j].1 as int, found[j].2 as int)
                                == found[j].3 implies holds_entry(
                            seeds@,
                            found[j].0 as int,
                            found[j].1 as int,
                            found[j].2 as int,
                            found[j].3 as int,
                        ) by {
                            if j < i {
                                assert(holds_entry(sb, found[j].0 as int, found[j].1 as int, found[j].2 as int, found[j].3 as int));
                                let k = choose|k: int| 0 <= k < sb.len() && (#[trigger] sb[k]).0 == found[j].0 && sb[k].1 == found[j].1 && sb[k].2 == found[j].2 && sb[k].3 == found[j].3;
                                assert(seeds@[k] == sb[k]);
                            } else {
                                assert(seeds@[sb.len() as int] == e);
                            }
                        }
                        assert(addq@ =~= found.skip(i + 1));
                        i = i + 1;
                    }
                },
            }
        }
        let ghost m_pre = self.chunks@;
        let ghost sq = seeds@;
        self.flood_add(ch, seeds);
        proof {
            lemma_grown_is_changed(m_init, m_pre, self.chunks@, ch);
            lemma_removal_done(m_init, m_pre, self.chunks@, ch, found, sq);
            lemma_removal_keeps_bounds(m_init, m_pre, self.chunks@, ch, sq, x as int, y as int, z as int);
            lemma_light_grown_cells(m_pre, self.chunks@, ch);
            assert(light_removed(m_init, m_pre, self.chunks@, ch, x as int, y as int, z as int));
            assert forall|a: int, b: int, c: int|
                #[trigger] was_cleared(m_init, m_pre, ch, a, b, c) implies m_chan(self.chunks@, ch, a, b, c) == 0
                    || (lit_by_nb(self.chunks@, ch, a, b, c) && !spec_is_opaque(m_block(self.chunks@, a, b, c))) by {
                assert(justified(m_pre, self.chunks@, ch, sq, a, b, c));
                if m_chan(self.chunks@, ch, a, b, c) > 0 && !(lit_by_nb(self.chunks@, ch, a, b, c) && !spec_is_opaque(m_block(self.chunks@, a, b, c))) {
                    assert(m_chan(self.chunks@, ch, a, b, c) > 0 ==> 0 <= b < CH && m_col_loaded(self.chunks@, a, c));
                    assert(at_seed_level(sq, a, b, c, m_chan(self.chunks@, ch, a, b, c) as int));
                    let k = choose|k: int| 0 <= k < sq.len() && (#[trigger] sq[k]).0 == a && sq[k].1 == b && sq[k].2 == c && sq[k].3 == m_chan(self.chunks@, ch, a, b, c);
                    assert(m_chan(m_pre, ch, sq[k].0 as int, sq[k].1 as int, sq[k].2 as int) == sq[k].3);
                }
            }
            assert(was_cleared(m_init, m_pre, ch, x as int, y as int, z as int));
        }
    }

    /// Appends to `q` each of the six neighbours of (x, y, z) whose light in
    /// channel `ch` is above 1, with that light as its level.
    fn push_lit_neighbours(&self, ch: LightChannel, x: i32, y: i32, z: i32, q: &mut VecDeque<(i32, i32, i32, u8)>)
        requires
            self.wf(),
            -0x7fff_fff0 < x < 0x7fff_fff0,
            -0x7fff_fff0 < z < 0x7fff_fff0,
            0 <= y < CH,
            forall|j: int| 0 <= j < old(q)@.len() ==> (#[trigger] old(q)@[j]).3 <= SKY_LIGHT_MAX,
        ensures
            forall|j: int| 0 <= j < final(q)@.len() ==> (#[trigger] final(q)@[j]).3 <= SKY_LIGHT_MAX,
            final(q)@ == old(q)@ + lit_neighbours(self.chunks@, ch, x as int, y as int, z as int, 6),
    {
        let mut d: usize = 0;
        while d < 6
            invariant
                self.wf(),
                d <= 6,
                -0x7fff_fff0 < x < 0x7fff_fff0,
                -0x7fff_fff0 < z < 0x7fff_fff0,
                0 <= y < CH,
                forall|j: int| 0 <= j < q@.len() ==> (#[trigger] q@[j]).3 <= SKY_LIGHT_MAX,
                q@ == old(q)@ + lit_neighbours(self.chunks@, ch, x as int, y as int, z as int, d as int),
            decreases 6 - d,
        {
            let (dx, dy, dz) = dir(d);
            let l = self.get_chan(ch, x + dx, y + dy, z + dz);
            let ghost qb = q@;
            if l > 1 {
                q.push_back((x + dx, y + dy, z + dz, l));
                proof {
                    assert forall|j: int| 0 <= j < q@.len() implies (#[trigger] q@[j]).3 <= SKY_LIGHT_MAX by {
                        if j < qb.len() {
                            assert(q@[j] == qb[j]);
                        }
                    }
                }
            }
            proof {
                let lit = lit_neighbours(self.chunks@, ch, x as int, y as int, z as int, d + 1);
                let lit_before = lit_neighbours(self.chunks@, ch, x as int, y as int, z as int, d as int);
                if l > 1 {
                    assert(lit == lit_before + seq![((x + dx) as i32, (y + dy) as i32, (z + dz) as i32, l)]);
                    assert(q@ =~= old(q)@ + lit);
                } else {
                    assert(lit =~= lit_before);
                }
            }
            d += 1;
        }
    }

    /// Updates torch light and sky light after the block at (x, y, z) changed
    /// from `old_b` to `b`: a removed torch takes its light along; a placed
    /// torch lights its surroundings; a placed opaque block shuts out the light
    /// that lit its cell; a removed opaque block lets the light around flow in.
    /// Sky light is updated the same way when the cell's opacity changed
    /// (the topmost layer is always open to the sky).
    #[verifier::spinoff_prover]
    #[verifier::rlimit(100)]
    fn relight_after_edit(&mut self, x: i32, y: i32, z: i32, old_b: Block, b: Block)
        requires
            old(self).wf(),
            0 <= y < CH,
            m_col_loaded(old(self).chunks@, x as int, z as int),
            old(self).block(x as int, y as int, z as int) == b,
        ensures
            final(self).wf(),
            final(self).edits == old(self).edits,
            final(self).water_queue == old(self).water_queue,
            final(self).seed == old(self).seed,
            frame_ok(old(self).chunks@, final(self).chunks@),
            spec_emission(b) > 0 ==> final(self).chan(LightChannel::Torch, x as int, y as int, z as int)
                >= spec_emission(b),
            spec_emission(b) > 0 && final(self).chan(LightChannel::Torch, x as int, y as int, z as int)
                == spec_emission(b) ==> passes_on(final(self).chunks@, LightChannel::Torch, x as int, y as int, z as int),
            spec_emission(b) > 0 && spec_emission(old_b) == 0 ==> forall|x2: int, y2: int, z2: int|
                #[trigger] torch_raise_ok(old(self).chunks@, final(self).chunks@, x as int, y as int, z as int, x2, y2, z2),
            spec_emission(b) > 0 && spec_emission(old_b) == 0 ==> forall|x2: int, y2: int, z2: int|
                #[trigger] rise_passes(old(self).chunks@, final(self).chunks@, LightChannel::Torch, x2, y2, z2),
            spec_is_opaque(b) && !spec_is_opaque(old_b) ==> final(self).chan(LightChannel::Torch, x as int, y as int, z as int) == 0
                && final(self).chan(LightChannel::Sky, x as int, y as int, z as int) == 0,
            spec_emission(old_b) > 0 && spec_emission(b) == 0 ==> final(self).chan(LightChannel::Torch, x as int, y as int, z as int)
                == 0 || lit_by_nb(final(self).chunks@, LightChannel::Torch, x as int, y as int, z as int),
            spec_emission(b) == 0 && spec_is_opaque(b) && spec_is_opaque(old_b) ==> final(self).chan(
                LightChannel::Sky,
                x as int,
                y as int,
                z as int,
            ) == old(self).chan(LightChannel::Sky, x as int, y as int, z as int),
            torch_bounded(old(self).chunks@) ==> torch_bounded(final(self).chunks@),
            torch_bounded(old(self).chunks@) && spec_emission(b) > 0 ==> final(self).chan(
                LightChannel::Torch,
                x as int,
                y as int,
                z as int,
            ) == spec_emission(b),
            dark_chan_except(old(self).chunks@, LightChannel::Torch, x as int, y as int, z as int) && dark_chan_except(
                old(self).chunks@,
                LightChannel::Sky,
                x as int,
                y as int,
                z as int,
            ) && (spec_is_opaque(old_b) ==> old(self).chan(LightChannel::Torch, x as int, y as int, z as int) == 0
                && old(self).chan(LightChannel::Sky, x as int, y as int, z as int) == 0) ==> dark_opaque(final(self).chunks@),
            spec_is_opaque(old_b) && !spec_is_opaque(b) ==> opened_lit(old(self).chunks@, final(self).chunks@, x as int, y as int, z as int, b),
            spec_emission(old_b) > 0 && spec_emission(b) == 0 && !spec_is_opaque(b) ==> exists|mc: Map<u64, Chunk>|
                #[trigger] light_removed(old(self).chunks@, mc, final(self).chunks@, LightChannel::Torch, x as int, y as int, z as int),
            spec_is_opaque(b) && !spec_is_opaque(old_b) ==> exists|mc: Map<u64, Chunk>|
                #[trigger] light_removed(old(self).chunks@, mc, final(self).chunks@, LightChannel::Torch, x as int, y as int, z as int),
            spec_is_opaque(b) && !spec_is_opaque(old_b) ==> exists|mc: Map<u64, Chunk>|
                #[trigger] light_removed(old(self).chunks@, mc, final(self).chunks@, LightChannel::Sky, x as int, y as int, z as int),
    {
        proof {
            lemma_loaded_coords(self.chunks@, x as int, z as int);
            lemma_block_property_relations(b);
            lemma_block_property_relations(old_b);
        }
        let ghost m0 = self.chunks@;
        let ghost xi = x as int;
        let ghost yi = y as int;
        let ghost zi = z as int;
        let ghost dark_pre = dark_chan_except(m0, LightChannel::Torch, xi, yi, zi) && dark_chan_except(
            m0,
            LightChannel::Sky,
            xi,
            yi,
            zi,
        ) && (spec_is_opaque(old_b) ==> m_chan(m0, LightChannel::Torch, xi, yi, zi) == 0 && m_chan(m0, LightChannel::Sky, xi, yi, zi) == 0);
        proof {
            assert forall|k: u64| m0.contains_key(k) implies {
                &&& (#[trigger] m0[k]).blocks@ == m0[k].blocks@
                &&& m0[k].water_level@ == m0[k].water_level@
                &&& m0[k].heights@ == m0[k].heights@
            } by {}
        }
        if old_b.emission() > 0 {
            let ghost mp = self.chunks@;
            self.flood_remove(LightChannel::Torch, x, y, z);
            proof {
                lemma_changed_frame(mp, self.chunks@, LightChannel::Torch);
                lemma_frame_trans(m0, mp, self.chunks@);
                lemma_changed_other_cells(mp, self.chunks@, LightChannel::Torch);
            }
        }
        let ghost m_rm = self.chunks@;
        proof {
            lemma_frame_cells(m0, m_rm);
            assert(forall|a: int, b2: int, c: int| #[trigger] m_chan(m_rm, LightChannel::Sky, a, b2, c) == m_chan(m0, LightChannel::Sky, a, b2, c));
            assert(torch_bounded(m0) ==> torch_bounded(m_rm));
            assert(dark_pre ==> dark_chan_except(m_rm, LightChannel::Torch, xi, yi, zi)) by {
                if dark_pre && spec_emission(old_b) > 0 {
                    assert forall|a: int, b2: int, c: int|
                        #[trigger] m_chan(m_rm, LightChannel::Torch, a, b2, c) > 0 && !(a == xi && b2 == yi && c == zi)
                        implies !spec_is_opaque(m_block(m_rm, a, b2, c)) by {}
                }
            }
            assert(dark_pre && spec_emission(old_b) > 0 ==> m_chan(m_rm, LightChannel::Torch, xi, yi, zi) == 0
                || !spec_is_opaque(b));
        }
        if b.emission() > 0 {
            let mut q: VecDeque<(i32, i32, i32, u8)> = VecDeque::new();
            q.push_back((x, y, z, b.emission()));
            let ghost mp = self.chunks@;
            let ghost qs = q@;
            proof {
                lemma_frame_cells(m0, mp);
                assert(qs[0] == (x, y, z, spec_emission(b)));
            }
            self.flood_add(LightChannel::Torch, q);
            proof {
                lemma_grown_frame(mp, self.chunks@, LightChannel::Torch);
                lemma_frame_trans(m0, mp, self.chunks@);
                lemma_changed_other_cells(mp, self.chunks@, LightChannel::Torch);
                lemma_light_grown_cells(mp, self.chunks@, LightChannel::Torch);
                assert(m_col_loaded(mp, x as int, z as int));
                assert(self.chan(LightChannel::Torch, qs[0].0 as int, qs[0].1 as int, qs[0].2 as int) >= qs[0].3);
                if self.chan(LightChannel::Torch, x as int, y as int, z as int) == spec_emission(b) {
                    assert(qs[0] == (x, y, z, self.chan(LightChannel::Torch, x as int, y as int, z as int)));
                    assert(passes_on(self.chunks@, LightChannel::Torch, x as int, y as int, z as int));
                }
                if torch_bounded(m0) {
                    assert(seed_capped(mp, qs[0]));
                    lemma_cap_after_flood(mp, self.chunks@, qs);
                }
                if dark_pre {
                    assert forall|a: int, b2: int, c: int| #[trigger] m_chan(mp, LightChannel::Torch, a, b2, c) > 0 implies !spec_is_opaque(
                        m_block(mp, a, b2, c),
                    ) by {
                        assert(m_block(mp, xi, yi, zi) == b);
                    }
                    assert(seed_open(mp, LightChannel::Torch, qs[0]));
                    lemma_dark_after_flood(mp, self.chunks@, LightChannel::Torch, qs);
                }
                if spec_emission(old_b) == 0 {
                    assert(mp == m0);
                    assert forall|x2: int, y2: int, z2: int|
                        #[trigger] torch_raise_ok(m0, self.chunks@, x as int, y as int, z as int, x2, y2, z2) by {
                        assert(justified(mp, self.chunks@, LightChannel::Torch, qs, x2, y2, z2));
                        if at_seed_level(qs, x2, y2, z2, m_chan(self.chunks@, LightChannel::Torch, x2, y2, z2) as int) {
                            let k = choose|k: int| 0 <= k < qs.len() && (#[trigger] qs[k]).0 == x2 && qs[k].1 == y2 && qs[k].2 == z2 && qs[k].3 == m_chan(self.chunks@, LightChannel::Torch, x2, y2, z2);
                            assert(k == 0);
                        }
                    }
                    assert forall|x2: int, y2: int, z2: int|
                        #[trigger] rise_passes(m0, self.chunks@, LightChannel::Torch, x2, y2, z2) by {}
                }
            }
        } else if b.is_opaque() {
            if self.get_light(x, y, z) > 0 {
                let ghost mp = self.chunks@;
                self.flood_remove(LightChannel::Torch, x, y, z);
                proof {
                    lemma_changed_frame(mp, self.chunks@, LightChannel::Torch);
                    lemma_frame_trans(m0, mp, self.chunks@);
                    lemma_changed_other_cells(mp, self.chunks@, LightChannel::Torch);
                }
            } else {
                proof {
                    if dark_pre {
                        assert forall|a: int, b2: int, c: int| #[trigger] m_chan(self.chunks@, LightChannel::Torch, a, b2, c) > 0
                            implies !spec_is_opaque(m_block(self.chunks@, a, b2, c)) by {}
                    }
                    if spec_emission(old_b) == 0 {
                        assert(light_removed(m0, m0, self.chunks@, LightChannel::Torch, xi, yi, zi));
                    }
                }
            }
        } else if old_b.is_opaque() {
            let mut q: VecDeque<(i32, i32, i32, u8)> = VecDeque::new();
            let ghost q_empty = q@;
            self.push_lit_neighbours(LightChannel::Torch, x, y, z, &mut q);
            let ghost mp = self.chunks@;
            let ghost qs = q@;
            proof {
                lemma_frame_cells(m0, mp);
                lemma_lit_neighbours_levels(mp, LightChannel::Torch, x as int, y as int, z as int, 6);
                assert(qs == q_empty + lit_neighbours(mp, LightChannel::Torch, x as int, y as int, z as int, 6));
                assert(q_empty.len() == 0);
                assert forall|j: int| 0 <= j < qs.len() implies #[trigger] qs[j] == lit_neighbours(mp, LightChannel::Torch, x as int, y as int, z as int, 6)[j] by {}
            }
            self.flood_add(LightChannel::Torch, q);
            proof {
                lemma_grown_frame(mp, self.chunks@, LightChannel::Torch);
                lemma_frame_trans(m0, mp, self.chunks@);
                lemma_changed_other_cells(mp, self.chunks@, LightChannel::Torch);
                lemma_light_grown_cells(mp, self.chunks@, LightChannel::Torch);
                let lit = lit_neighbours(mp, LightChannel::Torch, x as int, y as int, z as int, 6);
                if torch_bounded(m0) {
                    assert forall|j: int| 0 <= j < qs.len() implies #[trigger] seed_capped(mp, qs[j]) by {
                        assert(qs[j] == lit[j]);
                    }
                    lemma_cap_after_flood(mp, self.chunks@, qs);
                }
                if dark_pre {
                    assert forall|a: int, b2: int, c: int| #[trigger] m_chan(mp, LightChannel::Torch, a, b2, c) > 0 implies !spec_is_opaque(
                        m_block(mp, a, b2, c),
                    ) by {
                        assert(m_block(mp, xi, yi, zi) == b);
                    }
                    assert forall|j: int| 0 <= j < qs.len() implies #[trigger] seed_open(mp, LightChannel::Torch, qs[j]) by {
                        assert(qs[j] == lit[j]);
                    }
                    lemma_dark_after_flood(mp, self.chunks@, LightChannel::Torch, qs);
                }
                assert(m_block(mp, xi, yi, zi) == b);
                lemma_opened_cell_draws(mp, self.chunks@, LightChannel::Torch, xi, yi, zi, q_empty, qs);
                assert forall|x2: int, y2: int, z2: int| #[trigger] rise_by_nb(mp, self.chunks@, LightChannel::Torch, x2, y2, z2) by {
                    assert(justified(mp, self.chunks@, LightChannel::Torch, qs, x2, y2, z2));
                    if 0 <= y2 < CH && m_col_loaded(self.chunks@, x2, z2) && m_chan(self.chunks@, LightChannel::Torch, x2, y2, z2) > m_chan(mp, LightChannel::Torch, x2, y2, z2) {
                        if at_seed_level(qs, x2, y2, z2, m_chan(self.chunks@, LightChannel::Torch, x2, y2, z2) as int) {
                            let k = choose|k: int| 0 <= k < qs.len() && (#[trigger] qs[k]).0 == x2 && qs[k].1 == y2 && qs[k].2 == z2 && qs[k].3 == m_chan(self.chunks@, LightChannel::Torch, x2, y2, z2);
                            assert(qs[k] == lit[k]);
                        }
                    }
                }
                assert forall|x2: int, y2: int, z2: int|
                    #[trigger] rise_passes(m0, self.chunks@, LightChannel::Torch, x2, y2, z2) by {}
            }
        } else {
            proof {
                if dark_pre {
                    assert forall|a: int, b2: int, c: int| #[trigger] m_chan(self.chunks@, LightChannel::Torch, a, b2, c) > 0
                        implies !spec_is_opaque(m_block(self.chunks@, a, b2, c)) by {
                        assert(m_block(self.chunks@, xi, yi, zi) == b);
                    }
                }
            }
        }
        let ghost m_torch = self.chunks@;
        proof {
            lemma_frame_cells(m0, m_torch);
            assert(forall|a: int, b2: int, c: int| #[trigger] m_chan(m_torch, LightChannel::Sky, a, b2, c) == m_chan(m0, LightChannel::Sky, a, b2, c));
            assert(torch_bounded(m0) ==> torch_bounded(m_torch));
            assert(dark_pre ==> dark_chan(m_torch, LightChannel::Torch));
            if spec_is_opaque(b) && !spec_is_opaque(old_b) {
                assert(exists|mc: Map<u64, Chunk>| #[trigger] light_removed(m0, mc, m_torch, LightChannel::Torch, xi, yi, zi));
            }
            if spec_is_opaque(old_b) && !spec_is_opaque(b) && spec_emission(b) == 0 {
                assert(forall|x2: int, y2: int, z2: int| #[trigger] rise_by_nb(m0, m_torch, LightChannel::Torch, x2, y2, z2));
            }
            if spec_is_opaque(b) {
                assert(m_block(m_torch, x as int, y as int, z as int) == b);
                assert(m_chan(m_torch, LightChannel::Torch, x as int, y as int, z as int) == 0);
            }
            if spec_emission(old_b) > 0 && spec_emission(b) == 0 {
                assert(m_chan(m_torch, LightChannel::Torch, x as int, y as int, z as int) == 0 || lit_by_nb(
                    m_torch,
                    LightChannel::Torch,
                    x as int,
                    y as int,
                    z as int,
                ));
            }
        }
        let opacity_changed = old_b.is_opaque() != b.is_opaque();
        if opacity_changed {
            if b.is_opaque() {
                if self.get_skylight(x, y, z) > 0 {
                    let ghost mp = self.chunks@;
                    self.flood_remove(LightChannel::Sky, x, y, z);
                    proof {
                        lemma_changed_frame(mp, self.chunks@, LightChannel::Sky);
                        lemma_frame_trans(m0, mp, self.chunks@);
                        lemma_changed_other_cells(mp, self.chunks@, LightChannel::Sky);
                        lemma_lit_by_nb_sky_changed(mp, self.chunks@, x as int, y as int, z as int);
                        if !spec_is_opaque(old_b) {
                            let mc = choose|mc: Map<u64, Chunk>| #[trigger] light_removed(m0, mc, mp, LightChannel::Torch, xi, yi, zi);
                            lemma_light_removed_sky_changed(m0, mc, mp, self.chunks@, xi, yi, zi);
                            let mc2 = choose|mc: Map<u64, Chunk>| #[trigger] light_removed(mp, mc, self.chunks@, LightChannel::Sky, xi, yi, zi);
                            lemma_light_removed_same_light(mp, m0, mc2, self.chunks@, LightChannel::Sky, xi, yi, zi);
                        }
                    }
                } else {
                    proof {
                        if dark_pre {
                            assert forall|a: int, b2: int, c: int| #[trigger] m_chan(self.chunks@, LightChannel::Sky, a, b2, c) > 0
                                implies !spec_is_opaque(m_block(self.chunks@, a, b2, c)) by {}
                        }
                        assert(light_removed(m0, m0, self.chunks@, LightChannel::Sky, xi, yi, zi));
                    }
                }
            } else {
                let mut q: VecDeque<(i32, i32, i32, u8)> = VecDeque::new();
                if y == CH - 1 {
                    q.push_back((x, y, z, SKY_LIGHT_MAX));
                }
                let ghost q_top = q@;
                self.push_lit_neighbours(LightChannel::Sky, x, y, z, &mut q);
                let ghost mp = self.chunks@;
                let ghost qs = q@;
                proof {
                    lemma_lit_neighbours_levels(mp, LightChannel::Sky, x as int, y as int, z as int, 6);
                }
                self.flood_add(LightChannel::Sky, q);
                proof {
                    lemma_grown_frame(mp, self.chunks@, LightChannel::Sky);
                    lemma_frame_trans(m0, mp, self.chunks@);
                    lemma_changed_other_cells(mp, self.chunks@, LightChannel::Sky);
                    lemma_light_grown_cells(mp, self.chunks@, LightChannel::Sky);
                    if passes_on(mp, LightChannel::Torch, x as int, y as int, z as int) {
                        lemma_passes_on_sky_changed(mp, self.chunks@, x as int, y as int, z as int);
                    }
                    lemma_lit_by_nb_sky_changed(mp, self.chunks@, x as int, y as int, z as int);
                    if spec_emission(b) > 0 && spec_emission(old_b) == 0 {
                        lemma_torch_raise_sky_changed(m0, mp, self.chunks@, x as int, y as int, z as int);
                    }
                    let lit = lit_neighbours(mp, LightChannel::Sky, x as int, y as int, z as int, 6);
                    assert(m_block(mp, xi, yi, zi) == b);
                    if dark_pre {
                        assert forall|a: int, b2: int, c: int| #[trigger] m_chan(mp, LightChannel::Sky, a, b2, c) > 0 implies !spec_is_opaque(
                            m_block(mp, a, b2, c),
                        ) by {}
                        assert forall|j: int| 0 <= j < qs.len() implies #[trigger] seed_open(mp, LightChannel::Sky, qs[j]) by {
                            if j >= q_top.len() {
                                assert(qs[j] == lit[j - q_top.len()]);
                            } else {
                                assert(qs[j] == (x, y, z, SKY_LIGHT_MAX));
                            }
                        }
                        lemma_dark_after_flood(mp, self.chunks@, LightChannel::Sky, qs);
                    }
                    lemma_opened_cell_draws(mp, self.chunks@, LightChannel::Sky, xi, yi, zi, q_top, qs);
                    if spec_is_opaque(old_b) && spec_emission(b) == 0 {
                        assert forall|x2: int, y2: int, z2: int| #[trigger] rise_by_nb(m0, self.chunks@, LightChannel::Torch, x2, y2, z2) by {
                            assert(rise_by_nb(m0, mp, LightChannel::Torch, x2, y2, z2));
                            lemma_lit_by_nb_sky_changed(mp, self.chunks@, x2, y2, z2);
                        }
                    }
                    assert forall|x2: int, y2: int, z2: int| #[trigger] sky_rise_ok(mp, self.chunks@, xi, yi, zi, x2, y2, z2) by {
                        assert(justified(mp, self.chunks@, LightChannel::Sky, qs, x2, y2, z2));
                        if 0 <= y2 < CH && m_col_loaded(self.chunks@, x2, z2) && m_chan(self.chunks@, LightChannel::Sky, x2, y2, z2) > m_chan(mp, LightChannel::Sky, x2, y2, z2)
                            && !(lit_by_nb(self.chunks@, LightChannel::Sky, x2, y2, z2) && !spec_is_opaque(m_block(self.chunks@, x2, y2, z2))) {
                            let k = choose|k: int| 0 <= k < qs.len() && (#[trigger] qs[k]).0 == x2 && qs[k].1 == y2 && qs[k].2 == z2 && qs[k].3 == m_chan(self.chunks@, LightChannel::Sky, x2, y2, z2);
                            if k >= q_top.len() {
                                assert(qs[k] == lit[k - q_top.len()]);
                            } else {
                                assert(qs[k] == (x, y, z, SKY_LIGHT_MAX));
                                assert(y == CH - 1);
                            }
                        }
                    }
                    if y == CH - 1 {
                        assert(qs[0] == (x, y, z, SKY_LIGHT_MAX));
                        assert(self.chan(LightChannel::Sky, qs[0].0 as int, qs[0].1 as int, qs[0].2 as int) >= qs[0].3);
                    }
                    assert forall|x2: int, y2: int, z2: int|
                        #[trigger] rise_passes(m0, self.chunks@, LightChannel::Sky, x2, y2, z2) by {}
                }
            }
        } else {
            proof {
                if dark_pre {
                    assert forall|a: int, b2: int, c: int| #[trigger] m_chan(self.chunks@, LightChannel::Sky, a, b2, c) > 0
                        implies !spec_is_opaque(m_block(self.chunks@, a, b2, c)) by {
                        assert(m_block(self.chunks@, xi, yi, zi) == b);
                    }
                }
            }
        }
        proof {
            let mf = self.chunks@;
            lemma_frame_cells(m0, mf);
            if !(opacity_changed && !spec_is_opaque(b)) && !(opacity_changed && spec_is_opaque(b) && m_chan(m_torch, LightChannel::Sky, xi, yi, zi) > 0) {
                assert(mf == m_torch);
            }
            assert(forall|a: int, b2: int, c: int| #[trigger] m_chan(mf, LightChannel::Torch, a, b2, c) == m_chan(m_torch, LightChannel::Torch, a, b2, c));
            assert forall|x2: int, y2: int, z2: int|
                rise_passes(m0, m_torch, LightChannel::Torch, x2, y2, z2) implies #[trigger] rise_passes(m0, mf, LightChannel::Torch, x2, y2, z2) by {
                if 0 <= y2 < CH && m_col_loaded(mf, x2, z2) && m_chan(mf, LightChannel::Torch, x2, y2, z2) > m_chan(m0, LightChannel::Torch, x2, y2, z2) {
                    if mf != m_torch {
                        lemma_passes_on_sky_changed(m_torch, mf, x2, y2, z2);
                    }
                }
            }
            if spec_is_opaque(old_b) && !spec_is_opaque(b) {
                assert(m_rm == m0);
                assert forall|x2: int, y2: int, z2: int| #[trigger] m_chan(mf, LightChannel::Torch, x2, y2, z2) >= m_chan(m0, LightChannel::Torch, x2, y2, z2) by {
                    assert(m_chan(mf, LightChannel::Torch, x2, y2, z2) == m_chan(m_torch, LightChannel::Torch, x2, y2, z2));
                    assert(m_chan(m_torch, LightChannel::Torch, x2, y2, z2) >= m_chan(m0, LightChannel::Torch, x2, y2, z2));
                }
                assert forall|x2: int, y2: int, z2: int| #[trigger] m_chan(mf, LightChannel::Sky, x2, y2, z2) >= m_chan(m0, LightChannel::Sky, x2, y2, z2) by {
                    assert(m_chan(m_torch, LightChannel::Sky, x2, y2, z2) == m_chan(m0, LightChannel::Sky, x2, y2, z2));
                }
                assert forall|x2: int, y2: int, z2: int| #[trigger] sky_rise_ok(m0, mf, xi, yi, zi, x2, y2, z2) by {
                    assert(sky_rise_ok(m_torch, mf, xi, yi, zi, x2, y2, z2));
                    assert(m_chan(m_torch, LightChannel::Sky, x2, y2, z2) == m_chan(m0, LightChannel::Sky, x2, y2, z2));
                }
            }
            if spec_emission(old_b) > 0 && spec_emission(b) == 0 && !spec_is_opaque(b) {
                assert(!spec_is_opaque(old_b));
                assert(m_torch == m_rm);
                assert(mf == m_torch);
            }
            if drawn_from_nbs(m_torch, LightChannel::Torch, xi, yi, zi) {
                assert forall|d: int| 0 <= d < 6 implies #[trigger] draws_from(mf, LightChannel::Torch, xi, yi, zi, d) by {
                    assert(draws_from(m_torch, LightChannel::Torch, xi, yi, zi, d));
                }
            }
        }
    }

    /// Queues (x, y, z) and its six neighbours for water-flow re-evaluation.
    fn enqueue_water_neighbors(&mut self, x: i32, y: i32, z: i32)
        requires
            i32::MIN < x < i32::MAX,
            i32::MIN < y < i32::MAX,
            i32::MIN < z < i32::MAX,
        ensures
            final(self).chunks == old(self).chunks,
            final(self).edits == old(self).edits,
            final(self).seed == old(self).seed,
            final(self).water_queue@ == old(self).water_queue@ + cell_and_neighbours(x, y, z),
    {
        let ghost q0 = self.water_queue@;
        self.water_queue.push_back((x, y, z));
        let mut d: usize = 0;
        while d < 6
            invariant
                d <= 6,
                i32::MIN < x < i32::MAX,
                i32::MIN < y < i32::MAX,
                i32::MIN < z < i32::MAX,
                self.chunks == old(self).chunks,
                self.edits == old(self).edits,
                self.seed == old(self).seed,
                self.water_queue@.len() == q0.len() + 1 + d,
                self.water_queue@.subrange(0, q0.len() as int) == q0,
                self.water_queue@[q0.len() as int] == (x, y, z),
                forall|j: int| 0 <= j < d ==> self.water_queue@[q0.len() + 1 + j] == (
                    (x + spec_dir(j).0) as i32,
                    (y + spec_dir(j).1) as i32,
                    (z + spec_dir(j).2) as i32,
                ),
            decreases 6 - d,
        {
            let (dx, dy, dz) = dir(d);
            self.water_queue.push_back((x + dx, y + dy, z + dz));
            d += 1;
        }
        assert(self.water_queue@ =~= q0 + cell_and_neighbours(x, y, z));
    }

    /// Stores block `b` at (x, y, z) of a loaded chunk, records the edit,
    /// clears the cell's water unless `b` is water, updates the column height
    /// and marks the affected chunks dirty.
    fn write_block(&mut self, x: i32, y: i32, z: i32, b: Block)
        requires
            old(self).wf(),
            0 <= y < CH,
            m_col_loaded(old(self).chunks@, x as int, z as int),
        ensures
            final(self).wf(),
            final(self).seed == old(self).seed,
            final(self).water_queue == old(self).water_queue,
            forall|cx: int, cz: int| #[trigger] m_loaded(final(self).chunks@, cx, cz) == m_loaded(
                old(self).chunks@,
                cx,
                cz,
            ),
            old(self).heights_ok() ==> final(self).heights_ok(),
            old(self).heights_exact() && y >= 1 ==> final(self).heights_exact(),
            y >= 1 ==> exact_heights_kept(old(self).chunks@, final(self).chunks@),
            forall|ch: LightChannel, x2: int, y2: int, z2: int| #[trigger] m_chan(final(self).chunks@, ch, x2, y2, z2)
                == m_chan(old(self).chunks@, ch, x2, y2, z2),
            final(self).block(x as int, y as int, z as int) == b,
            final(self).water(x as int, y as int, z as int) == if b is Water {
                old(self).water(x as int, y as int, z as int)
            } else {
                0
            },
            final(self).edit(x, y, z) == Some(block_id(b)),
            forall|x2: int, y2: int, z2: int|
                !(x2 == x && y2 == y && z2 == z) ==> #[trigger] m_block(final(self).chunks@, x2, y2, z2)
                    == m_block(old(self).chunks@, x2, y2, z2) && m_water(final(self).chunks@, x2, y2, z2)
                    == m_water(old(self).chunks@, x2, y2, z2),
            forall|x2: i32, y2: i32, z2: i32|
                !(x2 == x && y2 == y && z2 == z) ==> #[trigger] final(self).edit(x2, y2, z2) == old(
                    self,
                ).edit(x2, y2, z2),
    {
        let (cx, lx) = split(x);
        let (cz, lz) = split(z);
        let key = chunk_key(cx, cz);
        let ghost m0 = self.chunks@;
        let mut c = match self.chunks.remove(&key) {
            None => {
                assert(false);
                return ;
            },
            Some(c) => c,
        };
        assert(chunk_ok(m0[key]));
        proof {
            lemma_cell_index(lx as int, y as int, lz as int);
        }
        c.set_local(lx, y, lz, b);
        let ghost c1 = c;
        self.chunks.insert(key, c);
        let ghost m1 = self.chunks@;
        proof {
            assert(m1 == m0.insert(key, c1));
            lemma_replace_chunk_cells(m0, m1, x as int, z as int, c1);
            assert forall|k: u64| m1.contains_key(k) implies #[trigger] chunk_ok(m1[k]) by {
                if k != key {
                    assert(chunk_ok(m0[k]));
                }
            }
            assert forall|cx2: int, cz2: int| #[trigger] m_loaded(m1, cx2, cz2) implies m_loaded(m0, cx2, cz2) by {}
            if map_heights_exact(m0) && y >= 1 {
                assert forall|k: u64| m1.contains_key(k) implies (#[trigger] m1[k]).heights_exact() by {
                    if k != key {
                        assert(m0[k].heights_exact());
                    } else {
                        assert(m0[key].heights_exact());
                    }
                }
            }
            if y >= 1 {
                assert forall|k: u64| m0.contains_key(k) && (#[trigger] m0[k]).heights_exact() implies m1.contains_key(k)
                    && m1[k].heights_exact() by {
                    if k != key {
                        assert(m1[k] == m0[k]);
                    } else {
                        assert(m0[key].heights_exact());
                    }
                }
            }
            if map_heights_ok(m0) {
                assert forall|k: u64| m1.contains_key(k) implies (#[trigger] m1[k]).heights_ok() by {
                    if k != key {
                        assert(m0[k].heights_ok());
                    } else {
                        assert(m0[key].heights_ok());
                    }
                }
            }
            let i0 = local_index(x as int, y as int, z as int);
            assert forall|x2: int, y2: int, z2: int|
                !(x2 == x && y2 == y && z2 == z) implies #[trigger] m_block(m1, x2, y2, z2) == m_block(m0, x2, y2, z2)
                    && m_water(m1, x2, y2, z2) == m_water(m0, x2, y2, z2) by {
                if 0 <= y2 < CH && x2 / 16 == x / 16 && z2 / 16 == z / 16 {
                    lemma_cell_index(x2 % 16, y2, z2 % 16);
                    if local_index(x2, y2, z2) == i0 {
                        lemma_same_local_cell(x as int, y as int, z as int, x2, y2, z2);
                    }
                }
            }
            crate::blocks::lemma_block_id_roundtrip(b);
        }
        let ek = edit_key(x, y, z);
        let ghost e0 = self.edits@;
        self.edits.insert(ek, (x, y, z, b.to_u8()));
        proof {
            assert forall|x2: i32, y2: i32, z2: i32| !(x2 == x && y2 == y && z2 == z)
                implies #[trigger] self.edit(x2, y2, z2) == old(self).edit(x2, y2, z2) by {
                if edit_key_of(x2 as int, y2 as int, z2 as int) as u128 == ek {
                    lemma_edit_key_injective((x2, y2, z2), (x, y, z));
                }
            }
        }
        self.mark_dirty_around(x, z);
        proof {
            lemma_same_content_frame(m1, self.chunks@);
            lemma_frame_cells(m1, self.chunks@);
            if map_heights_ok(m0) {
                lemma_frame_heights(m1, self.chunks@);
            }
            if map_heights_exact(m0) && y >= 1 {
                lemma_frame_heights_exact(m1, self.chunks@);
            }
            if y >= 1 {
                lemma_frame_exact_kept(m1, self.chunks@);
                lemma_exact_kept_trans(m0, m1, self.chunks@);
            }
            assert forall|ch: LightChannel, x2: int, y2: int, z2: int| #[trigger] m_chan(self.chunks@, ch, x2, y2, z2)
                == m_chan(m0, ch, x2, y2, z2) by {
                if 0 <= y2 < CH && m_col_loaded(m0, x2, z2) {
                    let k2 = key_u64(x2 / 16, z2 / 16);
                    assert(content_eq(m1[k2], self.chunks@[k2]));
                    if k2 == key {
                        assert(c1.light@ == m0[key].light@ && c1.skylight@ == m0[key].skylight@);
                    }
                    assert(chan_seq(self.chunks@[k2], ch) == chan_seq(m0[k2], ch));
                }
            }
        }
    }

    /// Applies an effective edit: stores the block (see [`World::write_block`]),
    /// updates light and queues the cell and its neighbours for water flow.
    fn apply_edit(&mut self, x: i32, y: i32, z: i32, old_b: Block, b: Block)
        requires
            old(self).wf(),
            0 <= y < CH,
            m_col_loaded(old(self).chunks@, x as int, z as int),
            old_b == old(self).block(x as int, y as int, z as int),
        ensures
            final(self).wf(),
            final(self).seed == old(self).seed,
            forall|cx: int, cz: int| #[trigger] final(self).loaded(cx, cz) == old(self).loaded(cx, cz),
            old(self).heights_ok() ==> final(self).heights_ok(),
            old(self).heights_exact() && y >= 1 ==> final(self).heights_exact(),
            y >= 1 ==> exact_heights_kept(old(self).chunks@, final(self).chunks@),
            final(self).block(x as int, y as int, z as int) == b,
            final(self).edit(x, y, z) == Some(block_id(b)),
            final(self).water(x as int, y as int, z as int) == if b is Water {
                old(self).water(x as int, y as int, z as int)
            } else {
                0
            },
            spec_emission(b) > 0 ==> final(self).chan(LightChannel::Torch, x as int, y as int, z as int)
                >= spec_emission(b),
            spec_emission(b) > 0 && final(self).chan(LightChannel::Torch, x as int, y as int, z as int)
                == spec_emission(b) ==> passes_on(final(self).chunks@, LightChannel::Torch, x as int, y as int, z as int),
            only_cell_changed(*old(self), *final(self), x, y, z),
            final(self).water_queue@ == old(self).water_queue@ + cell_and_neighbours(x, y, z),
            spec_emission(old_b) > 0 && spec_emission(b) == 0 ==> final(self).chan(LightChannel::Torch, x as int, y as int, z as int)
                == 0 || lit_by_nb(final(self).chunks@, LightChannel::Torch, x as int, y as int, z as int),
            spec_is_opaque(b) && !spec_is_opaque(old_b) ==> final(self).chan(LightChannel::Torch, x as int, y as int, z as int) == 0
                && final(self).chan(LightChannel::Sky, x as int, y as int, z as int) == 0,
            spec_emission(b) > 0 && spec_emission(old_b) == 0 ==> forall|x2: int, y2: int, z2: int|
                #[trigger] torch_raise_ok(old(self).chunks@, final(self).chunks@, x as int, y as int, z as int, x2, y2, z2),
            spec_emission(b) > 0 && spec_emission(old_b) == 0 ==> forall|x2: int, y2: int, z2: int|
                #[trigger] rise_passes(old(self).chunks@, final(self).chunks@, LightChannel::Torch, x2, y2, z2),
            torch_bounded(old(self).chunks@) ==> torch_bounded(final(self).chunks@),
            torch_bounded(old(self).chunks@) && spec_emission(b) > 0 ==> final(self).chan(
                LightChannel::Torch,
                x as int,
                y as int,
                z as int,
            ) == spec_emission(b),
            dark_opaque(old(self).chunks@) ==> dark_opaque(final(self).chunks@),
            spec_is_opaque(old_b) && !spec_is_opaque(b) ==> opened_lit(old(self).chunks@, final(self).chunks@, x as int, y as int, z as int, b),
            spec_emission(old_b) > 0 && spec_emission(b) == 0 && !spec_is_opaque(b) ==> exists|mc: Map<u64, Chunk>|
                #[trigger] light_removed(old(self).chunks@, mc, final(self).chunks@, LightChannel::Torch, x as int, y as int, z as int),
            spec_is_opaque(b) && !spec_is_opaque(old_b) ==> exists|mc: Map<u64, Chunk>|
                #[trigger] light_removed(old(self).chunks@, mc, final(self).chunks@, LightChannel::Torch, x as int, y as int, z as int),
            spec_is_opaque(b) && !spec_is_opaque(old_b) ==> exists|mc: Map<u64, Chunk>|
                #[trigger] light_removed(old(self).chunks@, mc, final(self).chunks@, LightChannel::Sky, x as int, y as int, z as int),
    {
        proof {
            lemma_loaded_coords(self.chunks@, x as int, z as int);
        }
        self.write_block(x, y, z, b);
        let ghost s1 = *self;
        proof {
            let m_old = old(self).chunks@;
            assert(forall|ch: LightChannel, a: int, b2: int, c: int| #[trigger] m_chan(s1.chunks@, ch, a, b2, c) == m_chan(m_old, ch, a, b2, c));
            if torch_bounded(m_old) {
                assert forall|a: int, b2: int, c: int| #[trigger] m_chan(s1.chunks@, LightChannel::Torch, a, b2, c) <= TORCH_LIGHT by {
                    assert(m_chan(m_old, LightChannel::Torch, a, b2, c) <= TORCH_LIGHT);
                }
            }
            if dark_opaque(m_old) {
                assert forall|a: int, b2: int, c: int|
                    #[trigger] m_chan(s1.chunks@, LightChannel::Torch, a, b2, c) > 0 && !(a == x && b2 == y && c == z)
                    implies !spec_is_opaque(m_block(s1.chunks@, a, b2, c)) by {
                    assert(m_chan(m_old, LightChannel::Torch, a, b2, c) > 0);
                }
                assert forall|a: int, b2: int, c: int|
                    #[trigger] m_chan(s1.chunks@, LightChannel::Sky, a, b2, c) > 0 && !(a == x && b2 == y && c == z)
                    implies !spec_is_opaque(m_block(s1.chunks@, a, b2, c)) by {
                    assert(m_chan(m_old, LightChannel::Sky, a, b2, c) > 0);
                }
                if spec_is_opaque(old_b) {
                    assert(m_chan(m_old, LightChannel::Torch, x as int, y as int, z as int) == 0);
                    assert(m_chan(m_old, LightChannel::Sky, x as int, y as int, z as int) == 0);
                }
            }
        }
        self.relight_after_edit(x, y, z, old_b, b);
        proof {
            let m_old = old(self).chunks@;
            if spec_emission(b) > 0 && spec_emission(old_b) == 0 {
                assert forall|x2: int, y2: int, z2: int| #[trigger] rise_passes(m_old, self.chunks@, LightChannel::Torch, x2, y2, z2) by {
                    assert(rise_passes(s1.chunks@, self.chunks@, LightChannel::Torch, x2, y2, z2));
                    assert(m_chan(s1.chunks@, LightChannel::Torch, x2, y2, z2) == m_chan(m_old, LightChannel::Torch, x2, y2, z2));
                }
            }
            if spec_is_opaque(old_b) && !spec_is_opaque(b) {
                assert(opened_lit(s1.chunks@, self.chunks@, x as int, y as int, z as int, b));
                assert forall|x2: int, y2: int, z2: int| #[trigger] rise_passes(m_old, self.chunks@, LightChannel::Sky, x2, y2, z2) by {
                    assert(rise_passes(s1.chunks@, self.chunks@, LightChannel::Sky, x2, y2, z2));
                    assert(m_chan(s1.chunks@, LightChannel::Sky, x2, y2, z2) == m_chan(m_old, LightChannel::Sky, x2, y2, z2));
                }
                if spec_emission(b) == 0 {
                    assert forall|x2: int, y2: int, z2: int| #[trigger] rise_passes(m_old, self.chunks@, LightChannel::Torch, x2, y2, z2) by {
                        assert(rise_passes(s1.chunks@, self.chunks@, LightChannel::Torch, x2, y2, z2));
                        assert(m_chan(s1.chunks@, LightChannel::Torch, x2, y2, z2) == m_chan(m_old, LightChannel::Torch, x2, y2, z2));
                    }
                }
                assert forall|x2: int, y2: int, z2: int| #[trigger] m_chan(self.chunks@, LightChannel::Sky, x2, y2, z2) >= m_chan(m_old, LightChannel::Sky, x2, y2, z2) by {
                    assert(m_chan(s1.chunks@, LightChannel::Sky, x2, y2, z2) == m_chan(m_old, LightChannel::Sky, x2, y2, z2));
                }
                assert forall|x2: int, y2: int, z2: int| #[trigger] m_chan(self.chunks@, LightChannel::Torch, x2, y2, z2) >= m_chan(m_old, LightChannel::Torch, x2, y2, z2) by {
                    assert(m_chan(s1.chunks@, LightChannel::Torch, x2, y2, z2) == m_chan(m_old, LightChannel::Torch, x2, y2, z2));
                }
                assert forall|x2: int, y2: int, z2: int| #[trigger] sky_rise_ok(m_old, self.chunks@, x as int, y as int, z as int, x2, y2, z2) by {
                    assert(sky_rise_ok(s1.chunks@, self.chunks@, x as int, y as int, z as int, x2, y2, z2));
                    assert(m_chan(s1.chunks@, LightChannel::Sky, x2, y2, z2) == m_chan(m_old, LightChannel::Sky, x2, y2, z2));
                }
                if spec_emission(b) == 0 {
                    assert forall|x2: int, y2: int, z2: int| #[trigger] rise_by_nb(m_old, self.chunks@, LightChannel::Torch, x2, y2, z2) by {
                        assert(rise_by_nb(s1.chunks@, self.chunks@, LightChannel::Torch, x2, y2, z2));
                        assert(m_chan(s1.chunks@, LightChannel::Torch, x2, y2, z2) == m_chan(m_old, LightChannel::Torch, x2, y2, z2));
                    }
                }
                assert(opened_lit(m_old, self.chunks@, x as int, y as int, z as int, b));
            }
            if (spec_emission(old_b) > 0 && spec_emission(b) == 0 && !spec_is_opaque(b)) || (spec_is_opaque(b) && !spec_is_opaque(old_b)) {
                let mc = choose|mc: Map<u64, Chunk>|
                    #[trigger] light_removed(s1.chunks@, mc, self.chunks@, LightChannel::Torch, x as int, y as int, z as int);
                lemma_light_removed_same_light(s1.chunks@, m_old, mc, self.chunks@, LightChannel::Torch, x as int, y as int, z as int);
            }
            if spec_is_opaque(b) && !spec_is_opaque(old_b) {
                let mc = choose|mc: Map<u64, Chunk>|
                    #[trigger] light_removed(s1.chunks@, mc, self.chunks@, LightChannel::Sky, x as int, y as int, z as int);
                lemma_light_removed_same_light(s1.chunks@, m_old, mc, self.chunks@, LightChannel::Sky, x as int, y as int, z as int);
            }
        }
        proof {
            if spec_emission(b) > 0 && spec_emission(old_b) == 0 {
                assert forall|x2: int, y2: int, z2: int|
                    #[trigger] torch_raise_ok(old(self).chunks@, self.chunks@, x as int, y as int, z as int, x2, y2, z2) by {
                    assert(torch_raise_ok(s1.chunks@, self.chunks@, x as int, y as int, z as int, x2, y2, z2));
                    assert(m_chan(s1.chunks@, LightChannel::Torch, x2, y2, z2) == m_chan(old(self).chunks@, LightChannel::Torch, x2, y2, z2));
                }
            }
        }
        proof {
            lemma_frame_cells(s1.chunks@, self.chunks@);
            if s1.heights_ok() {
                lemma_frame_heights(s1.chunks@, self.chunks@);
            }
            if s1.heights_exact() {
                lemma_frame_heights_exact(s1.chunks@, self.chunks@);
            }
            if y >= 1 {
                lemma_frame_exact_kept(s1.chunks@, self.chunks@);
                lemma_exact_kept_trans(old(self).chunks@, s1.chunks@, self.chunks@);
            }
        }
        self.enqueue_water_neighbors(x, y, z);
        proof {
            reveal(only_cell_changed);
            assert forall|x2: int, y2: int, z2: int|
                !(x2 == x && y2 == y && z2 == z) implies #[trigger] self.block(x2, y2, z2) == old(self).block(x2, y2, z2)
                    && self.water(x2, y2, z2) == old(self).water(x2, y2, z2) by {
                assert(m_block(s1.chunks@, x2, y2, z2) == m_block(old(self).chunks@, x2, y2, z2));
                assert(m_water(s1.chunks@, x2, y2, z2) == m_water(old(self).chunks@, x2, y2, z2));
            }
            assert(self.edits == s1.edits);
            assert forall|x2: i32, y2: i32, z2: i32|
                !(x2 == x && y2 == y && z2 == z) implies #[trigger] self.edit(x2, y2, z2) == old(self).edit(x2, y2, z2) by {
                assert(s1.edit(x2, y2, z2) == old(self).edit(x2, y2, z2));
            }
        }
    }

    /// Places block `b` at (x, y, z). Nothing happens outside the world, in
    /// an unloaded chunk, or when the block is already `b`. Otherwise the
    /// block is stored and recorded as an edit, the cell loses its water
    /// unless `b` is water, the column height is updated, the chunks around
    /// are marked dirty, light is updated, the cell and its neighbours are
    /// queued for water flow, and a torch or plant standing on the cell breaks
    /// (recursively) when `b` is not solid.
    ///
    /// Light: a placed torch holds exactly a torch's light and every cell it
    /// brightened passes its light on; a broken torch's light is removed as
    /// described by [`light_removed`]; a placed opaque block is dark; an
    /// opened cell takes in the light of its neighbours. Torch light never
    /// exceeds a torch's light and opaque blocks stay dark when that held
    /// before.
    pub fn set_block(&mut self, x: i32, y: i32, z: i32, b: Block)
        requires
            old(self).wf(),
        ensures
            final(self).wf(),
            final(self).seed == old(self).seed,
            forall|cx: int, cz: int| #[trigger] final(self).loaded(cx, cz) == old(self).loaded(cx, cz),
            old(self).heights_ok() ==> final(self).heights_ok(),
            old(self).heights_exact() && y >= 1 ==> final(self).heights_exact(),
            y >= 1 ==> exact_heights_kept(old(self).chunks@, final(self).chunks@),
            !(0 <= y < CH && m_col_loaded(old(self).chunks@, x as int, z as int)) || old(self).block(
                x as int,
                y as int,
                z as int,
            ) == b ==> {
                &&& final(self).chunks@ == old(self).chunks@
                &&& final(self).edits@ == old(self).edits@
                &&& final(self).water_queue@ == old(self).water_queue@
            },
            0 <= y < CH && m_col_loaded(old(self).chunks@, x as int, z as int) ==> final(self).block(
                x as int,
                y as int,
                z as int,
            ) == b,
            0 <= y < CH && m_col_loaded(old(self).chunks@, x as int, z as int) && old(self).block(
                x as int,
                y as int,
                z as int,
            ) != b ==> {
                &&& final(self).edit(x, y, z) == Some(block_id(b))
                &&& final(self).water(x as int, y as int, z as int) == if b is Water {
                    old(self).water(x as int, y as int, z as int)
                } else {
                    0
                }
                &&& (spec_emission(b) > 0 && !spec_is_cross(
                    old(self).block(x as int, y + 1, z as int),
                ) ==> final(self).chan(LightChannel::Torch, x as int, y as int, z as int)
                    >= spec_emission(b))
                &&& (spec_emission(b) > 0 && !spec_is_cross(old(self).block(x as int, y + 1, z as int))
                    && final(self).chan(LightChannel::Torch, x as int, y as int, z as int) == spec_emission(b)
                    ==> passes_on(final(self).chunks@, LightChannel::Torch, x as int, y as int, z as int))
                &&& (spec_emission(b) > 0 && spec_emission(old(self).block(x as int, y as int, z as int)) == 0
                    && !spec_is_cross(old(self).block(x as int, y + 1, z as int)) ==> forall|x2: int, y2: int, z2: int|
                    #[trigger] torch_raise_ok(old(self).chunks@, final(self).chunks@, x as int, y as int, z as int, x2, y2, z2))
                &&& (spec_is_opaque(b) && !spec_is_opaque(old(self).block(x as int, y as int, z as int)) ==> {
                    &&& final(self).chan(LightChannel::Torch, x as int, y as int, z as int) == 0
                    &&& final(self).chan(LightChannel::Sky, x as int, y as int, z as int) == 0
                })
                &&& (spec_emission(old(self).block(x as int, y as int, z as int)) > 0 && spec_emission(b) == 0
                    && !spec_is_cross(old(self).block(x as int, y + 1, z as int)) ==> final(self).chan(
                    LightChannel::Torch,
                    x as int,
                    y as int,
                    z as int,
                ) == 0 || lit_by_nb(final(self).chunks@, LightChannel::Torch, x as int, y as int, z as int))
                &&& (torch_bounded(old(self).chunks@) && spec_emission(b) > 0 && !spec_is_cross(
                    old(self).block(x as int, y + 1, z as int),
                ) ==> final(self).chan(LightChannel::Torch, x as int, y as int, z as int) == spec_emission(b))
                &&& (spec_emission(b) > 0 && spec_emission(old(self).block(x as int, y as int, z as int)) == 0
                    && !spec_is_cross(old(self).block(x as int, y + 1, z as int)) ==> forall|x2: int, y2: int, z2: int|
                    #[trigger] rise_passes(old(self).chunks@, final(self).chunks@, LightChannel::Torch, x2, y2, z2))
                &&& (spec_is_opaque(old(self).block(x as int, y as int, z as int)) && !spec_is_opaque(b) && !spec_is_cross(
                    old(self).block(x as int, y + 1, z as int),
                ) ==> opened_lit(old(self).chunks@, final(self).chunks@, x as int, y as int, z as int, b))
                &&& (spec_emission(old(self).block(x as int, y as int, z as int)) > 0 && spec_emission(b) == 0 && !spec_is_opaque(b)
                    && !spec_is_cross(old(self).block(x as int, y + 1, z as int)) ==> exists|mc: Map<u64, Chunk>|
                    #[trigger] light_removed(old(self).chunks@, mc, final(self).chunks@, LightChannel::Torch, x as int, y as int, z as int))
                &&& (spec_is_opaque(b) && !spec_is_opaque(old(self).block(x as int, y as int, z as int)) ==> {
                    &&& exists|mc: Map<u64, Chunk>|
                        #[trigger] light_removed(old(self).chunks@, mc, final(self).chunks@, LightChannel::Torch, x as int, y as int, z as int)
                    &&& exists|mc: Map<u64, Chunk>|
                        #[trigger] light_removed(old(self).chunks@, mc, final(self).chunks@, LightChannel::Sky, x as int, y as int, z as int)
                })
            },
            torch_bounded(old(self).chunks@) ==> torch_bounded(final(self).chunks@),
            dark_opaque(old(self).chunks@) ==> dark_opaque(final(self).chunks@),
            old(self).water_ok() ==> final(self).water_ok(),
            kept_outside_column(*old(self), *final(self), x, y, z),
            0 <= y < CH && m_col_loaded(old(self).chunks@, x as int, z as int) && old(self).block(
                x as int,
                y as int,
                z as int,
            ) != b ==> {
                &&& (!spec_is_solid(b) && spec_is_cross(old(self).block(x as int, y + 1, z as int)) ==> {
                    &&& final(self).block(x as int, y + 1, z as int) == Block::Air
                    &&& final(self).edit(x, (y + 1) as i32, z) == Some(block_id(Block::Air))
                })
                &&& column_above_broken(*old(self), *final(self), x, y, z, cascade_len(*old(self), x, y as int, z, b))
                &&& final(self).water_queue@ == old(self).water_queue@ + edit_queue(*old(self), x, y as int, z, b)
            },
        decreases CH - y,
    {
        if y < 0 || y >= CH {
            return ;
        }
        let old_b = self.get_block(x, y, z);
        let (cx, _lx) = split(x);
        let (cz, _lz) = split(z);
        if !self.chunks.contains_key(&chunk_key(cx, cz)) || old_b == b {
            return ;
        }
        self.apply_edit(x, y, z, old_b, b);
        let ghost s2 = *self;
        proof {
            lemma_only_cell_changed_frames(*old(self), s2, x, y, z);
            if old(self).water_ok() {
                lemma_cell_water_ok(*old(self), s2, x, y, z);
            }
        }
        proof {
            reveal(only_cell_changed);
            lemma_cascade_same(s2, *old(self), x, y + 1, z, Block::Air);
            assert(s2.block(x as int, y + 1, z as int) == old(self).block(x as int, y + 1, z as int));
        }
        if !b.is_solid() && self.get_block(x, y + 1, z).needs_support() {
            self.set_block(x, y + 1, z, Block::Air);
            proof {
                let n = cascade_len(s2, x, y + 1, z, Block::Air);
                assert(n >= 0) by {
                    lemma_cascade_nonneg(s2, x, y + 1, z, Block::Air);
                }
                lemma_cascade_frames(*old(self), s2, *self, x, y, z, n);
                if y >= 1 {
                    lemma_exact_kept_trans(old(self).chunks@, s2.chunks@, self.chunks@);
                }
                assert(cascade_len(*old(self), x, y as int, z, b) == 1 + n);
                assert(edit_queue(*old(self), x, y as int, z, b) == cell_and_neighbours(x, y, z) + edit_queue(
                    *old(self),
                    x,
                    y + 1,
                    z,
                    Block::Air,
                ));
                assert(self.water_queue@ =~= old(self).water_queue@ + edit_queue(*old(self), x, y as int, z, b));
            }
        } else {
            proof {
                assert(cascade_len(*old(self), x, y as int, z, b) == 0);
                assert(edit_queue(*old(self), x, y as int, z, b) == cell_and_neighbours(x, y, z));
            }
        }
    }

    /// The height from which column (x, z) sees the open sky.
    fn sky_floor(&self, x: i32, z: i32) -> (r: i32)
        requires
            self.wf(),
        ensures
            r == m_sky_floor(self.chunks@, x as int, z as int),
    {
        let (cx, lx) = split(x);
        let (cz, lz) = split(z);
        match self.chunks.get(&chunk_key(cx, cz)) {
            Some(c) => {
                assert(chunk_ok(self.chunks@[key_u64(cx as int, cz as int)]));
                c.height(lx, lz) + 1
            },
            None => CH,
        }
    }

    /// Lights column (lx, lz) of chunk (cx, cz) with full sky light from its
    /// sky floor up, and queues as sky-light seeds the cells of the column that
    /// lie below the sky floor of a loaded neighbouring column (from where the
    /// light spreads sideways).
    fn fill_sky_column(&mut self, cx: i32, cz: i32, lx: i32, lz: i32, sq: &mut VecDeque<(i32, i32, i32, u8)>)
        requires
            old(self).wf(),
            old(self).loaded(cx as int, cz as int),
            heights_in_range(old(self).chunks@[key_u64(cx as int, cz as int)]),
            0 <= lx < CS,
            0 <= lz < CS,
            forall|j: int| 0 <= j < old(sq)@.len() ==> (#[trigger] old(sq)@[j]).3 <= SKY_LIGHT_MAX,
        ensures
            final(self).wf(),
            final(self).edits == old(self).edits,
            final(self).water_queue == old(self).water_queue,
            final(self).seed == old(self).seed,
            frame_ok(old(self).chunks@, final(self).chunks@),
            torch_same(old(self).chunks@, final(self).chunks@),
            forall|j: int| 0 <= j < final(sq)@.len() ==> (#[trigger] final(sq)@[j]).3 <= SKY_LIGHT_MAX,
            final(sq)@.len() >= old(sq)@.len(),
            forall|j: int| 0 <= j < old(sq)@.len() ==> final(sq)@[j] == old(sq)@[j],
            forall|j: int| old(sq)@.len() <= j < final(sq)@.len() ==> sky_seed_ok(old(self).chunks@, cx as int, cz as int, #[trigger] final(sq)@[j]),
            side_seeded(final(sq)@, old(self).chunks@, cx * 16 + lx, cz * 16 + lz),
            forall|x2: int, y2: int, z2: int| #[trigger]
                final(self).chan(LightChannel::Sky, x2, y2, z2) == if x2 == cx * 16 + lx && z2 == cz * 16
                    + lz && 0 <= y2 < CH && y2 >= m_sky_floor(old(self).chunks@, x2, z2) {
                    SKY_LIGHT_MAX
                } else {
                    old(self).chan(LightChannel::Sky, x2, y2, z2)
                },
    {
        proof {
            assert(m_loaded(self.chunks@, cx as int, cz as int));
        }
        let x = cx * CS + lx;
        let z = cz * CS + lz;
        let ghost m0 = self.chunks@;
        let f0 = self.sky_floor(x, z);
        let f = if f0 < CH { f0 } else { CH };
        let mut fmax = f;
        let mut d: usize = 0;
        while d < 4
            invariant
                self.wf(),
                self.chunks@ == m0,
                d <= 4,
                -0x7fff_fff0 < x < 0x7fff_fff0,
                -0x7fff_fff0 < z < 0x7fff_fff0,
                f <= fmax <= CH,
                x as int == cx * 16 + lx,
                z as int == cz * 16 + lz,
                forall|e: int|
                    0 <= e < d ==> !m_col_loaded(m0, x + side_off(e).0, z + side_off(e).1) || fmax >= side_floor(
                        m0,
                        x + side_off(e).0,
                        z + side_off(e).1,
                    ),
            decreases 4 - d,
        {
            let (dx, dz) = match d {
                0 => (1i32, 0i32),
                1 => (-1i32, 0i32),
                2 => (0i32, 1i32),
                _ => (0i32, -1i32),
            };
            let nx = x + dx;
            let nz = z + dz;
            let ghost fb = fmax;
            proof {
                assert((dx as int, dz as int) == side_off(d as int));
            }
            let (ncx, _a) = split(nx);
            let (ncz, _b) = split(nz);
            if self.chunks.contains_key(&chunk_key(ncx, ncz)) {
                let nf0 = self.sky_floor(nx, nz);
                let nf = if nf0 < CH { nf0 } else { CH };
                if nf > fmax {
                    fmax = nf;
                }
                proof {
                    assert(fmax >= side_floor(m0, nx as int, nz as int));
                }
            } else {
                proof {
                    assert(!m_col_loaded(m0, nx as int, nz as int));
                }
            }
            d += 1;
        }
        let key = chunk_key(cx, cz);
        let mut c = match self.chunks.remove(&key) {
            Some(c) => c,
            None => {
                assert(false);
                return ;
            },
        };
        assert(chunk_ok(m0[key]));
        assert(c.heights@[col_index(lx as int, lz as int)] >= -1);
        let mut y: i32 = if f < 0 { 0 } else { f };
        while y < CH
            invariant
                c.wf(),
                c.light_bounded(),
                c.blocks@ == m0[key].blocks@,
                c.water_level@ == m0[key].water_level@,
                c.heights@ == m0[key].heights@,
                c.light@ == m0[key].light@,
                0 <= f <= y <= CH || (f < 0 && 0 <= y <= CH),
                0 <= lx < CS,
                0 <= lz < CS,
                forall|i: int| 0 <= i < VOL ==> #[trigger] c.skylight@[i] == if exists|yy: int| f <= yy < y && i == cell_index(lx as int, yy, lz as int) {
                    SKY_LIGHT_MAX
                } else {
                    m0[key].skylight@[i]
                },
            decreases CH - y,
        {
            proof {
                lemma_cell_index(lx as int, y as int, lz as int);
            }
            let i = idx(lx, y, lz);
            let ghost before = c.skylight@;
            c.skylight.set(i, SKY_LIGHT_MAX);
            proof {
                assert forall|i2: int| 0 <= i2 < VOL implies #[trigger] c.skylight@[i2] == if exists|yy: int| f <= yy < y + 1 && i2 == cell_index(lx as int, yy, lz as int) {
                    SKY_LIGHT_MAX
                } else {
                    m0[key].skylight@[i2]
                } by {
                    if i2 == i as int {
                        assert(f <= y && i2 == cell_index(lx as int, y as int, lz as int));
                    } else {
                        if exists|yy: int| f <= yy < y + 1 && i2 == cell_index(lx as int, yy, lz as int) {
                            let yy = choose|yy: int| f <= yy < y + 1 && i2 == cell_index(lx as int, yy, lz as int);
                            assert(yy != y);
                            assert(f <= yy < y && i2 == cell_index(lx as int, yy, lz as int));
                        }
                    }
                }
            }
            y += 1;
        }
        let ghost c1 = c;
        self.chunks.insert(key, c);
        // Seeds for sideways flow below higher neighbouring floors.
        proof {
            assert(x as int / 16 == cx && x as int % 16 == lx);
            assert(z as int / 16 == cz && z as int % 16 == lz);
            assert(m0[key].heights@[col_index(lx as int, lz as int)] >= -1);
            assert(f0 >= 0);
            assert(side_ceiling(m0, x as int, z as int) <= fmax) by {
                assert(side_off(0) == (1int, 0int));
                assert(side_off(1) == (-1int, 0int));
                assert(side_off(2) == (0int, 1int));
                assert(side_off(3) == (0int, -1int));
            }
        }
        let ghost sq0 = sq@;
        let mut yy: i32 = if f < 0 { 0 } else { f };
        while yy < fmax
            invariant
                fmax <= CH,
                0 <= yy <= CH,
                -0x7fff_fff0 < x < 0x7fff_fff0,
                -0x7fff_fff0 < z < 0x7fff_fff0,
                forall|j: int| 0 <= j < sq@.len() ==> (#[trigger] sq@[j]).3 <= SKY_LIGHT_MAX,
                sq0 == old(sq)@,
                sq@.len() >= sq0.len(),
                forall|j: int| 0 <= j < sq0.len() ==> sq@[j] == sq0[j],
                forall|j: int| sq0.len() <= j < sq@.len() ==> sky_seed_ok(m0, cx as int, cz as int, #[trigger] sq@[j]),
                x as int == cx * 16 + lx,
                z as int == cz * 16 + lz,
                0 <= lx < CS,
                0 <= lz < CS,
                f0 == m_sky_floor(m0, x as int, z as int),
                f <= yy,
                f0 < CH ==> f == f0,
                f0 >= CH ==> f == CH,
                f < 0 ==> 0 <= yy,
                forall|y2: int| (if f < 0 { 0 } else { f as int }) <= y2 < yy ==> #[trigger] holds_entry(sq@, x as int, y2, z as int, SKY_LIGHT_MAX as int),
                side_ceiling(m0, x as int, z as int) <= fmax,
            decreases fmax - yy,
        {
            let ghost sb = sq@;
            sq.push_back((x, yy, z, SKY_LIGHT_MAX));
            proof {
                assert(x as int / 16 == cx && z as int / 16 == cz);
                assert forall|j: int| sq0.len() <= j < sq@.len() implies sky_seed_ok(m0, cx as int, cz as int, #[trigger] sq@[j]) by {
                    if j < sb.len() {
                        assert(sq@[j] == sb[j]);
                    }
                }
                assert forall|j: int| 0 <= j < sq0.len() implies sq@[j] == sq0[j] by {
                    assert(sq@[j] == sb[j]);
                }
                assert forall|j: int| 0 <= j < sq@.len() implies (#[trigger] sq@[j]).3 <= SKY_LIGHT_MAX by {
                    if j < sb.len() {
                        assert(sq@[j] == sb[j]);
                    }
                }
                assert forall|y2: int| (if f < 0 { 0 } else { f as int }) <= y2 < yy + 1 implies #[trigger] holds_entry(sq@, x as int, y2, z as int, SKY_LIGHT_MAX as int) by {
                    if y2 < yy {
                        assert(holds_entry(sb, x as int, y2, z as int, SKY_LIGHT_MAX as int));
                        let j = choose|j: int| 0 <= j < sb.len() && (#[trigger] sb[j]).0 == x && sb[j].1 == y2 && sb[j].2 == z && sb[j].3 == SKY_LIGHT_MAX as int;
                        assert(sq@[j] == sb[j]);
                    } else {
                        assert(sq@[sb.len() as int] == (x, yy, z, SKY_LIGHT_MAX));
                    }
                }
            }
            yy += 1;
        }
        proof {
            assert forall|y2: int|
                0 <= y2 < CH && m_sky_floor(m0, x as int, z as int) <= y2 < side_ceiling(m0, x as int, z as int)
                implies #[trigger] holds_entry(sq@, x as int, y2, z as int, SKY_LIGHT_MAX as int) by {
                assert((if f < 0 { 0 } else { f as int }) <= y2 < yy);
            }
        }
        proof {
            let m1 = self.chunks@;
            assert(m1 == m0.insert(key, c1));
            assert forall|k: u64| m1.contains_key(k) implies #[trigger] chunk_ok(m1[k]) by {
                if k != key {
                    assert(chunk_ok(m0[k]));
                } else {
                    assert forall|i: int| 0 <= i < c1.skylight@.len() implies #[trigger] c1.skylight@[i] <= SKY_LIGHT_MAX by {
                        assert(chunk_ok(m0[key]));
                    }
                }
            }
            assert forall|cx2: int, cz2: int| #[trigger] m_loaded(m1, cx2, cz2) implies m_loaded(m0, cx2, cz2) by {}
            assert forall|k: u64| m0.contains_key(k) implies {
                &&& (#[trigger] m1[k]).blocks@ == m0[k].blocks@
                &&& m1[k].water_level@ == m0[k].water_level@
                &&& m1[k].heights@ == m0[k].heights@
            } by {}
            assert forall|k: u64| m0.contains_key(k) implies (#[trigger] m1[k]).light@ == m0[k].light@ by {}
            assert forall|x2: int, y2: int, z2: int| #[trigger]
                m_chan(m1, LightChannel::Sky, x2, y2, z2) == if x2 == cx * 16 + lx && z2 == cz * 16
                    + lz && 0 <= y2 < CH && y2 >= m_sky_floor(m0, x2, z2) {
                    SKY_LIGHT_MAX
                } else {
                    m_chan(m0, LightChannel::Sky, x2, y2, z2)
                } by {
                if 0 <= y2 < CH && m_col_loaded(m0, x2, z2) {
                    let k2 = key_u64(x2 / 16, z2 / 16);
                    if k2 == key {
                        lemma_key_injective(cx as int, cz as int, x2 / 16, z2 / 16);
                        lemma_cell_index(x2 % 16, y2, z2 % 16);
                        let i2 = local_index(x2, y2, z2);
                        if x2 == cx * 16 + lx && z2 == cz * 16 + lz {
                            assert(x2 % 16 == lx as int);
                            assert(z2 % 16 == lz as int);
                            assert(m_sky_floor(m0, x2, z2) == f0);
                            if y2 >= f0 {
                                assert(f <= y2 < CH && i2 == cell_index(lx as int, y2, lz as int));
                            } else {
                                if exists|yy: int| f <= yy < CH && i2 == cell_index(lx as int, yy, lz as int) {
                                    let yy = choose|yy: int| f <= yy < CH && i2 == cell_index(lx as int, yy, lz as int);
                                    lemma_cell_index_injective((lx as int, yy, lz as int), (x2 % 16, y2, z2 % 16));
                                }
                            }
                        } else {
                            if exists|yy: int| f <= yy < CH && i2 == cell_index(lx as int, yy, lz as int) {
                                let yy = choose|yy: int| f <= yy < CH && i2 == cell_index(lx as int, yy, lz as int);
                                lemma_cell_index_injective((lx as int, yy, lz as int), (x2 % 16, y2, z2 % 16));
                                vstd::arithmetic::div_mod::lemma_fundamental_div_mod(x2, 16);
                                vstd::arithmetic::div_mod::lemma_fundamental_div_mod(z2, 16);
                            }
                        }
                    } else {
                        if x2 == cx * 16 + lx && z2 == cz * 16 + lz {
                            assert(x2 / 16 == cx as int);
                            assert(z2 / 16 == cz as int);
                        }
                    }
                } else {
                    if x2 == cx * 16 + lx && z2 == cz * 16 + lz {
                        assert(x2 / 16 == cx as int);
                        assert(z2 / 16 == cz as int);
                    }
                }
            }
        }
    }

    /// Lights every column of chunk (cx, cz) from its sky floor up (see
    /// [`World::fill_sky_column`]) and marks the chunk dirty.
    fn fill_sky_chunk(&mut self, cx: i32, cz: i32, sq: &mut VecDeque<(i32, i32, i32, u8)>)
        requires
            old(self).wf(),
            old(self).loaded(cx as int, cz as int),
            heights_in_range(old(self).chunks@[key_u64(cx as int, cz as int)]),
            forall|j: int| 0 <= j < old(sq)@.len() ==> (#[trigger] old(sq)@[j]).3 <= SKY_LIGHT_MAX,
        ensures
            final(self).wf(),
            final(self).edits == old(self).edits,
            final(self).water_queue == old(self).water_queue,
            final(self).seed == old(self).seed,
            frame_ok(old(self).chunks@, final(self).chunks@),
            torch_same(old(self).chunks@, final(self).chunks@),
            forall|j: int| 0 <= j < final(sq)@.len() ==> (#[trigger] final(sq)@[j]).3 <= SKY_LIGHT_MAX,
            final(sq)@.len() >= old(sq)@.len(),
            forall|lx: int, lz: int| 0 <= lx < CS && 0 <= lz < CS ==> #[trigger] side_seeded(final(sq)@, old(self).chunks@, cx * 16 + lx, cz * 16 + lz),
            forall|j: int| 0 <= j < old(sq)@.len() ==> final(sq)@[j] == old(sq)@[j],
            forall|j: int| old(sq)@.len() <= j < final(sq)@.len() ==> sky_seed_ok(old(self).chunks@, cx as int, cz as int, #[trigger] final(sq)@[j]),
            forall|lx: int, lz: int, y: int|
                0 <= lx < CS && 0 <= lz < CS && m_sky_floor(old(self).chunks@, cx * 16 + lx, cz * 16 + lz)
                    <= y < CH ==> #[trigger] final(self).chan(LightChannel::Sky, cx * 16 + lx, y, cz * 16 + lz)
                    == SKY_LIGHT_MAX,
            forall|x2: int, y2: int, z2: int|
                !(x2 / 16 == cx && z2 / 16 == cz && y2 >= m_sky_floor(old(self).chunks@, x2, z2))
                    ==> #[trigger] final(self).chan(LightChannel::Sky, x2, y2, z2) == old(self).chan(
                    LightChannel::Sky,
                    x2,
                    y2,
                    z2,
                ),
    {
        let ghost m0 = self.chunks@;
        let ghost s0 = *self;
        proof {
            assert forall|k: u64| m0.contains_key(k) implies {
                &&& (#[trigger] m0[k]).blocks@ == m0[k].blocks@
                &&& m0[k].water_level@ == m0[k].water_level@
                &&& m0[k].heights@ == m0[k].heights@
            } by {}
        }
        let mut lz: i32 = 0;
        while lz < CS
            invariant
                self.wf(),
                self.edits == old(self).edits,
                self.water_queue == old(self).water_queue,
                self.seed == old(self).seed,
                m0 == old(self).chunks@,
                map_ok(m0),
                m_loaded(m0, cx as int, cz as int),
                heights_in_range(m0[key_u64(cx as int, cz as int)]),
                frame_ok(m0, self.chunks@),
                torch_same(m0, self.chunks@),
                0 <= lz <= CS,
                forall|j: int| 0 <= j < sq@.len() ==> (#[trigger] sq@[j]).3 <= SKY_LIGHT_MAX,
                sq@.len() >= old(sq)@.len(),
                forall|j: int| 0 <= j < old(sq)@.len() ==> sq@[j] == old(sq)@[j],
                forall|j: int| old(sq)@.len() <= j < sq@.len() ==> sky_seed_ok(m0, cx as int, cz as int, #[trigger] sq@[j]),
                s0 == *old(self),
                forall|x2: int, y2: int, z2: int|
                    !(x2 / 16 == cx && z2 / 16 == cz && y2 >= m_sky_floor(m0, x2, z2)) ==> #[trigger] self.chan(LightChannel::Sky, x2, y2, z2)
                        == s0.chan(LightChannel::Sky, x2, y2, z2),
                forall|lx2: int, lz2: int, y: int|
                    0 <= lx2 < CS && 0 <= lz2 < lz && m_sky_floor(m0, cx * 16 + lx2, cz * 16 + lz2) <= y < CH
                        ==> #[trigger] self.chan(LightChannel::Sky, cx * 16 + lx2, y, cz * 16 + lz2) == SKY_LIGHT_MAX,
                forall|lx2: int, lz2: int| 0 <= lx2 < CS && 0 <= lz2 < lz ==> #[trigger] side_seeded(sq@, m0, cx * 16 + lx2, cz * 16 + lz2),
            decreases CS - lz,
        {
            let mut lx: i32 = 0;
            while lx < CS
                invariant
                    self.wf(),
                    self.edits == old(self).edits,
                    self.water_queue == old(self).water_queue,
                    self.seed == old(self).seed,
                    m0 == old(self).chunks@,
                    map_ok(m0),
                    m_loaded(m0, cx as int, cz as int),
                    heights_in_range(m0[key_u64(cx as int, cz as int)]),
                    frame_ok(m0, self.chunks@),
                    torch_same(m0, self.chunks@),
                    0 <= lz < CS,
                    0 <= lx <= CS,
                    forall|j: int| 0 <= j < sq@.len() ==> (#[trigger] sq@[j]).3 <= SKY_LIGHT_MAX,
                    sq@.len() >= old(sq)@.len(),
                    forall|j: int| 0 <= j < old(sq)@.len() ==> sq@[j] == old(sq)@[j],
                    forall|j: int| old(sq)@.len() <= j < sq@.len() ==> sky_seed_ok(m0, cx as int, cz as int, #[trigger] sq@[j]),
                    s0 == *old(self),
                    forall|x2: int, y2: int, z2: int|
                        !(x2 / 16 == cx && z2 / 16 == cz && y2 >= m_sky_floor(m0, x2, z2)) ==> #[trigger] self.chan(LightChannel::Sky, x2, y2, z2)
                            == s0.chan(LightChannel::Sky, x2, y2, z2),
                    forall|lx2: int, lz2: int, y: int|
                        0 <= lx2 < CS && (0 <= lz2 < lz || (lz2 == lz && 0 <= lx2 < lx)) && m_sky_floor(
                            m0,
                            cx * 16 + lx2,
                            cz * 16 + lz2,
                        ) <= y < CH ==> #[trigger] self.chan(LightChannel::Sky, cx * 16 + lx2, y, cz * 16 + lz2)
                            == SKY_LIGHT_MAX,
                    forall|lx2: int, lz2: int|
                        0 <= lx2 < CS && (0 <= lz2 < lz || (lz2 == lz && 0 <= lx2 < lx)) ==> #[trigger] side_seeded(
                            sq@,
                            m0,
                            cx * 16 + lx2,
                            cz * 16 + lz2,
                        ),
                decreases CS - lx,
            {
                let ghost mb = self.chunks@;
                let ghost sb = *self;
                let ghost sqb = sq@;
                proof {
                    assert(m_loaded(mb, cx as int, cz as int));
                    assert(mb[key_u64(cx as int, cz as int)].heights@ == m0[key_u64(cx as int, cz as int)].heights@);
                }
                self.fill_sky_column(cx, cz, lx, lz, sq);
                proof {
                    assert forall|x2: int, y2: int, z2: int|
                        !(x2 / 16 == cx && z2 / 16 == cz && y2 >= m_sky_floor(m0, x2, z2)) implies #[trigger] self.chan(LightChannel::Sky, x2, y2, z2)
                            == s0.chan(LightChannel::Sky, x2, y2, z2) by {
                        assert(sb.chan(LightChannel::Sky, x2, y2, z2) == s0.chan(LightChannel::Sky, x2, y2, z2));
                        assert(m_sky_floor(mb, x2, z2) == m_sky_floor(m0, x2, z2));
                    }
                    lemma_frame_trans(m0, mb, self.chunks@);
                    assert forall|j: int| old(sq)@.len() <= j < sq@.len() implies sky_seed_ok(m0, cx as int, cz as int, #[trigger] sq@[j]) by {
                        if j < sqb.len() {
                            assert(sq@[j] == sqb[j]);
                        } else {
                            assert(sky_seed_ok(mb, cx as int, cz as int, sq@[j]));
                            if m_col_loaded(m0, sq@[j].0 as int, sq@[j].2 as int) {
                                assert(mb[key_u64(sq@[j].0 as int / 16, sq@[j].2 as int / 16)].heights@
                                    == m0[key_u64(sq@[j].0 as int / 16, sq@[j].2 as int / 16)].heights@);
                            }
                        }
                    }
                    assert forall|j: int| 0 <= j < old(sq)@.len() implies sq@[j] == old(sq)@[j] by {
                        assert(sq@[j] == sqb[j]);
                    }
                    assert forall|k: u64| m0.contains_key(k) implies (#[trigger] self.chunks@[k]).light@ == m0[k].light@ by {
                        assert(mb[k].light@ == m0[k].light@);
                    }
                    assert forall|x2: int, z2: int| #[trigger] m_sky_floor(mb, x2, z2) == m_sky_floor(m0, x2, z2) by {
                        if m_col_loaded(m0, x2, z2) {
                            assert(mb[key_u64(x2 / 16, z2 / 16)].heights@ == m0[key_u64(x2 / 16, z2 / 16)].heights@);
                        }
                    }
                    assert forall|lx2: int, lz2: int, y: int|
                        0 <= lx2 < CS && (0 <= lz2 < lz || (lz2 == lz && 0 <= lx2 < lx + 1)) && m_sky_floor(
                            m0,
                            cx * 16 + lx2,
                            cz * 16 + lz2,
                        ) <= y < CH implies #[trigger] self.chan(LightChannel::Sky, cx * 16 + lx2, y, cz * 16 + lz2)
                            == SKY_LIGHT_MAX by {
                        assert(m_sky_floor(mb, cx * 16 + lx2, cz * 16 + lz2) == m_sky_floor(m0, cx * 16 + lx2, cz * 16 + lz2));
                        let xx = cx * 16 + lx2;
                        let zz = cz * 16 + lz2;
                        assert(xx / 16 == cx as int && xx % 16 == lx2);
                        assert(zz / 16 == cz as int && zz % 16 == lz2);
                        assert(chunk_ok(m0[key_u64(cx as int, cz as int)]));
                        assert(0 <= col_index(lx2, lz2) < COLS);
                        assert(m0[key_u64(cx as int, cz as int)].heights@[col_index(lx2, lz2)] >= -1);
                        assert(y >= 0);
                        assert(self.chan(LightChannel::Sky, xx, y, zz) == if xx == cx * 16 + lx && zz == cz * 16
                            + lz && 0 <= y < CH && y >= m_sky_floor(mb, xx, zz) {
                            SKY_LIGHT_MAX
                        } else {
                            sb.chan(LightChannel::Sky, xx, y, zz)
                        });
                        if !(lz2 == lz && lx2 == lx) {
                            assert(sb.chan(LightChannel::Sky, cx * 16 + lx2, y, cz * 16 + lz2) == SKY_LIGHT_MAX);
                            assert(cx * 16 + lx2 != cx * 16 + lx || cz * 16 + lz2 != cz * 16 + lz);
                        }
                    }
                    lemma_side_seeded_frame(sq@, m0, mb, cx * 16 + lx, cz * 16 + lz);
                    assert forall|lx2: int, lz2: int|
                        0 <= lx2 < CS && (0 <= lz2 < lz || (lz2 == lz && 0 <= lx2 < lx + 1)) implies #[trigger] side_seeded(
                            sq@,
                            m0,
                            cx * 16 + lx2,
                            cz * 16 + lz2,
                        ) by {
                        if !(lz2 == lz && lx2 == lx) {
                            lemma_side_seeded_extend(sqb, sq@, m0, cx * 16 + lx2, cz * 16 + lz2);
                        }
                    }
                }
                lx += 1;
            }
            lz += 1;
        }
        let key = chunk_key(cx, cz);
        let ghost m1 = self.chunks@;
        let ghost s1 = *self;
        match self.chunks.remove(&key) {
            Some(mut c) => {
                c.dirty = true;
                self.chunks.insert(key, c);
                proof {
                    assert(self.chunks@ == m1.insert(key, c));
                    assert forall|k: u64| self.chunks@.contains_key(k) implies #[trigger] chunk_ok(self.chunks@[k]) by {
                        assert(chunk_ok(m1[k]));
                    }
                    assert forall|cx2: int, cz2: int| #[trigger] m_loaded(self.chunks@, cx2, cz2) implies m_loaded(m1, cx2, cz2) by {}
                    assert forall|k: u64| m1.contains_key(k) implies #[trigger] content_eq(m1[k], self.chunks@[k]) by {}
                    assert(self.chunks@.dom() =~= m1.dom());
                    lemma_same_content_frame(m1, self.chunks@);
                    lemma_frame_trans(m0, m1, self.chunks@);
                    assert forall|k: u64| m0.contains_key(k) implies (#[trigger] self.chunks@[k]).light@ == m0[k].light@ by {
                        assert(m1[k].light@ == m0[k].light@);
                    }
                    assert forall|x2: int, y2: int, z2: int| #[trigger] m_chan(self.chunks@, LightChannel::Sky, x2, y2, z2)
                        == m_chan(m1, LightChannel::Sky, x2, y2, z2) by {
                        if 0 <= y2 < CH && m_col_loaded(m1, x2, z2) {
                            assert(content_eq(m1[key_u64(x2 / 16, z2 / 16)], self.chunks@[key_u64(x2 / 16, z2 / 16)]));
                        }
                    }
                    assert forall|lx: int, lz: int, y: int|
                        0 <= lx < CS && 0 <= lz < CS && m_sky_floor(m0, cx * 16 + lx, cz * 16 + lz) <= y < CH
                        implies #[trigger] self.chan(LightChannel::Sky, cx * 16 + lx, y, cz * 16 + lz) == SKY_LIGHT_MAX by {
                        assert(s1.chan(LightChannel::Sky, cx * 16 + lx, y, cz * 16 + lz) == SKY_LIGHT_MAX);
                        assert(m_chan(self.chunks@, LightChannel::Sky, cx * 16 + lx, y, cz * 16 + lz) == m_chan(m1, LightChannel::Sky, cx * 16 + lx, y, cz * 16 + lz));
                    }
                    assert forall|x2: int, y2: int, z2: int|
                        !(x2 / 16 == cx && z2 / 16 == cz && y2 >= m_sky_floor(m0, x2, z2)) implies #[trigger] self.chan(LightChannel::Sky, x2, y2, z2)
                            == old(self).chan(LightChannel::Sky, x2, y2, z2) by {
                        assert(m_chan(self.chunks@, LightChannel::Sky, x2, y2, z2) == m_chan(m1, LightChannel::Sky, x2, y2, z2));
                        assert(s1.chan(LightChannel::Sky, x2, y2, z2) == s0.chan(LightChannel::Sky, x2, y2, z2));
                    }
                }
            },
            None => {
                assert(false);
            },
        }
    }

    /// Queue of the torches of chunk (cx, cz) as light seeds at their emission level.
    fn torch_seeds(&self, cx: i32, cz: i32) -> (q: VecDeque<(i32, i32, i32, u8)>)
        requires
            self.wf(),
            self.loaded(cx as int, cz as int),
        ensures
            forall|j: int| 0 <= j < q@.len() ==> (#[trigger] q@[j]).3 <= SKY_LIGHT_MAX,
            forall|j: int| 0 <= j < q@.len() ==> torch_seed_ok(self.chunks@, cx as int, cz as int, #[trigger] q@[j]),
            forall|lx: int, y: int, lz: int|
                in_chunk(lx, y, lz) && spec_emission(
                    #[trigger] self.chunks@[key_u64(cx as int, cz as int)].block_at(lx, y, lz),
                ) > 0 ==> exists|j: int|
                    0 <= j < q@.len() && q@[j] == ((cx * 16 + lx) as i32, y as i32, (cz * 16 + lz) as i32, spec_emission(
                        self.chunks@[key_u64(cx as int, cz as int)].block_at(lx, y, lz),
                    )),
    {
        let mut q: VecDeque<(i32, i32, i32, u8)> = VecDeque::new();
        let key = chunk_key(cx, cz);
        let c = match self.chunks.get(&key) {
            Some(c) => c,
            None => {
                assert(false);
                return q;
            },
        };
        let ghost ck = self.chunks@[key];
        assert(chunk_ok(ck));
        proof {
            assert(m_loaded(self.chunks@, cx as int, cz as int));
        }
        let mut y: i32 = 0;
        while y < CH
            invariant
                *c == ck,
                c.wf(),
                -CHUNK_LIMIT <= cx <= CHUNK_LIMIT,
                -CHUNK_LIMIT <= cz <= CHUNK_LIMIT,
                0 <= y <= CH,
                forall|j: int| 0 <= j < q@.len() ==> torch_seed_ok(self.chunks@, cx as int, cz as int, #[trigger] q@[j]),
                self.chunks@[key_u64(cx as int, cz as int)] == ck,
                forall|j: int| 0 <= j < q@.len() ==> (#[trigger] q@[j]).3 <= SKY_LIGHT_MAX,
                forall|lx: int, y2: int, lz: int|
                    in_chunk(lx, y2, lz) && y2 < y && spec_emission(#[trigger] ck.block_at(lx, y2, lz)) > 0 ==> exists|j: int|
                        0 <= j < q@.len() && q@[j] == ((cx * 16 + lx) as i32, y2 as i32, (cz * 16 + lz) as i32, spec_emission(
                            ck.block_at(lx, y2, lz),
                        )),
            decreases CH - y,
        {
            let mut lz: i32 = 0;
            while lz < CS
                invariant
                    *c == ck,
                    c.wf(),
                    -CHUNK_LIMIT <= cx <= CHUNK_LIMIT,
                    -CHUNK_LIMIT <= cz <= CHUNK_LIMIT,
                    0 <= y < CH,
                    0 <= lz <= CS,
                    forall|j: int| 0 <= j < q@.len() ==> torch_seed_ok(self.chunks@, cx as int, cz as int, #[trigger] q@[j]),
                    self.chunks@[key_u64(cx as int, cz as int)] == ck,
                    forall|j: int| 0 <= j < q@.len() ==> (#[trigger] q@[j]).3 <= SKY_LIGHT_MAX,
                    forall|lx: int, y2: int, lz2: int|
                        in_chunk(lx, y2, lz2) && (y2 < y || (y2 == y && lz2 < lz)) && spec_emission(#[trigger] ck.block_at(lx, y2, lz2))
                            > 0 ==> exists|j: int|
                            0 <= j < q@.len() && q@[j] == ((cx * 16 + lx) as i32, y2 as i32, (cz * 16 + lz2) as i32, spec_emission(
                                ck.block_at(lx, y2, lz2),
                            )),
                decreases CS - lz,
            {
                let mut lx: i32 = 0;
                while lx < CS
                    invariant
                        *c == ck,
                        c.wf(),
                        -CHUNK_LIMIT <= cx <= CHUNK_LIMIT,
                        -CHUNK_LIMIT <= cz <= CHUNK_LIMIT,
                        0 <= y < CH,
                        0 <= lz < CS,
                        0 <= lx <= CS,
                        forall|j: int| 0 <= j < q@.len() ==> torch_seed_ok(self.chunks@, cx as int, cz as int, #[trigger] q@[j]),
                        self.chunks@[key_u64(cx as int, cz as int)] == ck,
                        forall|j: int| 0 <= j < q@.len() ==> (#[trigger] q@[j]).3 <= SKY_LIGHT_MAX,
                        forall|lx2: int, y2: int, lz2: int|
                            in_chunk(lx2, y2, lz2) && (y2 < y || (y2 == y && lz2 < lz) || (y2 == y && lz2 == lz && lx2 < lx))
                                && spec_emission(#[trigger] ck.block_at(lx2, y2, lz2)) > 0 ==> exists|j: int|
                                0 <= j < q@.len() && q@[j] == ((cx * 16 + lx2) as i32, y2 as i32, (cz * 16 + lz2) as i32, spec_emission(
                                    ck.block_at(lx2, y2, lz2),
                                )),
                    decreases CS - lx,
                {
                    let b = c.get(lx, y, lz);
                    let e = b.emission();
                    if e > 0 {
                        let ghost qb = q@;
                        q.push_back((cx * CS + lx, y, cz * CS + lz, e));
                        proof {
                            assert forall|j: int| 0 <= j < q@.len() implies (#[trigger] q@[j]).3 <= SKY_LIGHT_MAX by {
                                if j < qb.len() {
                                    assert(q@[j] == qb[j]);
                                }
                            }
                            assert forall|j: int| 0 <= j < q@.len() implies torch_seed_ok(self.chunks@, cx as int, cz as int, #[trigger] q@[j]) by {
                                if j < qb.len() {
                                    assert(q@[j] == qb[j]);
                                } else {
                                    assert(q@[j] == ((cx * 16 + lx) as i32, y, (cz * 16 + lz) as i32, e));
                                }
                            }
                            assert forall|lx2: int, y2: int, lz2: int|
                                in_chunk(lx2, y2, lz2) && (y2 < y || (y2 == y && lz2 < lz) || (y2 == y && lz2 == lz && lx2 < lx + 1))
                                    && spec_emission(#[trigger] ck.block_at(lx2, y2, lz2)) > 0 implies exists|j: int|
                                    0 <= j < q@.len() && q@[j] == ((cx * 16 + lx2) as i32, y2 as i32, (cz * 16 + lz2) as i32, spec_emission(
                                        ck.block_at(lx2, y2, lz2),
                                    )) by {
                                if y2 == y && lz2 == lz && lx2 == lx {
                                    assert(q@[qb.len() as int] == ((cx * 16 + lx2) as i32, y2 as i32, (cz * 16 + lz2) as i32, spec_emission(
                                        ck.block_at(lx2, y2, lz2))));
                                } else {
                                    let j = choose|j: int| 0 <= j < qb.len() && qb[j] == ((cx * 16 + lx2) as i32, y2 as i32, (cz * 16 + lz2) as i32, spec_emission(
                                        ck.block_at(lx2, y2, lz2)));
                                    assert(q@[j] == qb[j]);
                                }
                            }
                        }
                    }
                    lx += 1;
                }
                lz += 1;
            }
            y += 1;
        }
        q
    }

    /// Queues, for each loaded chunk next to chunk (cx, cz), the light that
    /// leaks across the shared border: every non-opaque border cell of chunk
    /// (cx, cz) is seeded with its outside neighbour's torch light and sky
    /// light, minus one, where that is above 0.
    fn border_seeds(
        &self,
        cx: i32,
        cz: i32,
        tq: &mut VecDeque<(i32, i32, i32, u8)>,
        sq: &mut VecDeque<(i32, i32, i32, u8)>,
    )
        requires
            self.wf(),
            i32::MIN < cx < i32::MAX,
            i32::MIN < cz < i32::MAX,
            forall|j: int| 0 <= j < old(tq)@.len() ==> (#[trigger] old(tq)@[j]).3 <= SKY_LIGHT_MAX,
            forall|j: int| 0 <= j < old(sq)@.len() ==> (#[trigger] old(sq)@[j]).3 <= SKY_LIGHT_MAX,
        ensures
            forall|j: int| 0 <= j < final(tq)@.len() ==> (#[trigger] final(tq)@[j]).3 <= SKY_LIGHT_MAX,
            forall|j: int| 0 <= j < final(sq)@.len() ==> (#[trigger] final(sq)@[j]).3 <= SKY_LIGHT_MAX,
            final(tq)@.len() >= old(tq)@.len(),
            forall|j: int| 0 <= j < old(tq)@.len() ==> final(tq)@[j] == old(tq)@[j],
            final(sq)@.len() >= old(sq)@.len(),
            forall|j: int| 0 <= j < old(sq)@.len() ==> final(sq)@[j] == old(sq)@[j],
            forall|j: int| old(tq)@.len() <= j < final(tq)@.len() ==> seed_in_chunk(cx as int, cz as int, #[trigger] final(tq)@[j]),
            forall|j: int| old(tq)@.len() <= j < final(tq)@.len() ==> border_seed_ok(self.chunks@, LightChannel::Torch, #[trigger] final(tq)@[j]),
            forall|j: int| old(sq)@.len() <= j < final(sq)@.len() ==> seed_in_chunk(cx as int, cz as int, #[trigger] final(sq)@[j]),
            forall|j: int| old(sq)@.len() <= j < final(sq)@.len() ==> border_seed_ok(self.chunks@, LightChannel::Sky, #[trigger] final(sq)@[j]),
            border_seeded(*self, LightChannel::Torch, cx as int, cz as int, final(tq)@, 6144),
            border_seeded(*self, LightChannel::Sky, cx as int, cz as int, final(sq)@, 6144),
    {
        let mut d: usize = 0;
        while d < 4
            invariant
                self.wf(),
                d <= 4,
                i32::MIN < cx < i32::MAX,
                i32::MIN < cz < i32::MAX,
                forall|j: int| 0 <= j < tq@.len() ==> (#[trigger] tq@[j]).3 <= SKY_LIGHT_MAX,
                forall|j: int| 0 <= j < sq@.len() ==> (#[trigger] sq@[j]).3 <= SKY_LIGHT_MAX,
                tq@.len() >= old(tq)@.len(),
                forall|j: int| 0 <= j < old(tq)@.len() ==> tq@[j] == old(tq)@[j],
                sq@.len() >= old(sq)@.len(),
                forall|j: int| 0 <= j < old(sq)@.len() ==> sq@[j] == old(sq)@[j],
                forall|j: int| old(tq)@.len() <= j < tq@.len() ==> seed_in_chunk(cx as int, cz as int, #[trigger] tq@[j]),
                forall|j: int| old(tq)@.len() <= j < tq@.len() ==> border_seed_ok(self.chunks@, LightChannel::Torch, #[trigger] tq@[j]),
                forall|j: int| old(sq)@.len() <= j < sq@.len() ==> seed_in_chunk(cx as int, cz as int, #[trigger] sq@[j]),
                forall|j: int| old(sq)@.len() <= j < sq@.len() ==> border_seed_ok(self.chunks@, LightChannel::Sky, #[trigger] sq@[j]),
                border_seeded(*self, LightChannel::Torch, cx as int, cz as int, tq@, d * 1536),
                border_seeded(*self, LightChannel::Sky, cx as int, cz as int, sq@, d * 1536),
            decreases 4 - d,
        {
            let (dx, dz) = match d {
                0 => (-1i32, 0i32),
                1 => (1i32, 0i32),
                2 => (0i32, -1i32),
                _ => (0i32, 1i32),
            };
            let ghost side = d as int;
            d += 1;
            if !self.chunks.contains_key(&chunk_key(cx + dx, cz + dz)) {
                proof {
                    lemma_border_skip(*self, LightChannel::Torch, cx as int, cz as int, tq@, side, dx as int, dz as int);
                    lemma_border_skip(*self, LightChannel::Sky, cx as int, cz as int, sq@, side, dx as int, dz as int);
                }
                continue ;
            }
            proof {
                assert(m_loaded(self.chunks@, cx + dx, cz + dz));
            }
            let mut y: i32 = 0;
            while y < CH
                invariant
                    self.wf(),
                    0 <= y <= CH,
                    -CHUNK_LIMIT - 1 <= cx <= CHUNK_LIMIT + 1,
                    -CHUNK_LIMIT - 1 <= cz <= CHUNK_LIMIT + 1,
                    0 <= side < 4,
                    d == side + 1,
                    (dx, dz) == (if side == 0 { (-1i32, 0i32) } else if side == 1 { (1i32, 0i32) } else if side == 2 { (0i32, -1i32) } else { (0i32, 1i32) }),
                    forall|j: int| 0 <= j < tq@.len() ==> (#[trigger] tq@[j]).3 <= SKY_LIGHT_MAX,
                    forall|j: int| 0 <= j < sq@.len() ==> (#[trigger] sq@[j]).3 <= SKY_LIGHT_MAX,
                    tq@.len() >= old(tq)@.len(),
                    forall|j: int| 0 <= j < old(tq)@.len() ==> tq@[j] == old(tq)@[j],
                    sq@.len() >= old(sq)@.len(),
                    forall|j: int| 0 <= j < old(sq)@.len() ==> sq@[j] == old(sq)@[j],
                    forall|j: int| old(tq)@.len() <= j < tq@.len() ==> seed_in_chunk(cx as int, cz as int, #[trigger] tq@[j]),
                    forall|j: int| old(tq)@.len() <= j < tq@.len() ==> border_seed_ok(self.chunks@, LightChannel::Torch, #[trigger] tq@[j]),
                    forall|j: int| old(sq)@.len() <= j < sq@.len() ==> seed_in_chunk(cx as int, cz as int, #[trigger] sq@[j]),
                    forall|j: int| old(sq)@.len() <= j < sq@.len() ==> border_seed_ok(self.chunks@, LightChannel::Sky, #[trigger] sq@[j]),
                    border_seeded(*self, LightChannel::Torch, cx as int, cz as int, tq@, side * 1536 + y * 16),
                    border_seeded(*self, LightChannel::Sky, cx as int, cz as int, sq@, side * 1536 + y * 16),
                decreases CH - y,
            {
                let mut t: i32 = 0;
                while t < CS
                    invariant
                        self.wf(),
                        0 <= y < CH,
                        0 <= t <= CS,
                        -CHUNK_LIMIT - 1 <= cx <= CHUNK_LIMIT + 1,
                        -CHUNK_LIMIT - 1 <= cz <= CHUNK_LIMIT + 1,
                        0 <= side < 4,
                        d == side + 1,
                        (dx, dz) == (if side == 0 { (-1i32, 0i32) } else if side == 1 { (1i32, 0i32) } else if side == 2 { (0i32, -1i32) } else { (0i32, 1i32) }),
                        forall|j: int| 0 <= j < tq@.len() ==> (#[trigger] tq@[j]).3 <= SKY_LIGHT_MAX,
                        forall|j: int| 0 <= j < sq@.len() ==> (#[trigger] sq@[j]).3 <= SKY_LIGHT_MAX,
                        tq@.len() >= old(tq)@.len(),
                        forall|j: int| 0 <= j < old(tq)@.len() ==> tq@[j] == old(tq)@[j],
                        sq@.len() >= old(sq)@.len(),
                        forall|j: int| 0 <= j < old(sq)@.len() ==> sq@[j] == old(sq)@[j],
                        forall|j: int| old(tq)@.len() <= j < tq@.len() ==> seed_in_chunk(cx as int, cz as int, #[trigger] tq@[j]),
                        forall|j: int| old(tq)@.len() <= j < tq@.len() ==> border_seed_ok(self.chunks@, LightChannel::Torch, #[trigger] tq@[j]),
                        forall|j: int| old(sq)@.len() <= j < sq@.len() ==> seed_in_chunk(cx as int, cz as int, #[trigger] sq@[j]),
                        forall|j: int| old(sq)@.len() <= j < sq@.len() ==> border_seed_ok(self.chunks@, LightChannel::Sky, #[trigger] sq@[j]),
                        border_seeded(*self, LightChannel::Torch, cx as int, cz as int, tq@, side * 1536 + y * 16 + t),
                        border_seeded(*self, LightChannel::Sky, cx as int, cz as int, sq@, side * 1536 + y * 16 + t),
                    decreases CS - t,
                {
                    let (wx, wz) = if dx == -1 {
                        (cx * CS, cz * CS + t)
                    } else if dx == 1 {
                        (cx * CS + CS - 1, cz * CS + t)
                    } else if dz == -1 {
                        (cx * CS + t, cz * CS)
                    } else {
                        (cx * CS + t, cz * CS + CS - 1)
                    };
                    let ghost cur = side * 1536 + y * 16 + t;
                    let ghost tq0 = tq@;
                    let ghost sq0 = sq@;
                    proof {
                        assert(on_border(cx as int, cz as int, wx as int, wz as int, dx as int, dz as int));
                        assert(border_key(cx as int, cz as int, wx as int, wz as int, dx as int, dz as int, y as int) == cur);
                    }
                    proof {
                        assert(seed_in_chunk(cx as int, cz as int, (wx, y, wz, 0u8)));
                    }
                    t += 1;
                    let opaque = self.get_block(wx, y, wz).is_opaque();
                    if !opaque {
                        assert(!spec_is_opaque(m_block(self.chunks@, wx as int, y as int, wz as int)));
                        let l = self.get_light(wx + dx, y, wz + dz);
                        if l > 1 {
                            let ghost qb = tq@;
                            tq.push_back((wx, y, wz, l - 1));
                            proof {
                                let dd: int = if dx == 1 { 0 } else if dx == -1 { 1 } else if dz == 1 { 4 } else { 5 };
                                assert(spec_dir(dd) == (dx, 0i32, dz));
                                assert(nb(wx as int, y as int, wz as int, dd) == (wx + dx, y as int, wz + dz));
                                assert(m_chan(self.chunks@, LightChannel::Torch, wx + dx, y as int, wz + dz) == l);
                                assert(m_col_loaded(self.chunks@, wx + dx, wz + dz));
                                assert(lit_from_level(self.chunks@, LightChannel::Torch, wx as int, y as int, wz as int, dd, (l - 1) as int));
                                assert forall|j: int| old(tq)@.len() <= j < tq@.len() implies border_seed_ok(self.chunks@, LightChannel::Torch, #[trigger] tq@[j]) by {
                                    if j < qb.len() {
                                        assert(tq@[j] == qb[j]);
                                    } else {
                                        assert(tq@[j] == (wx, y, wz, (l - 1) as u8));
                                        assert(lit_from_level(self.chunks@, LightChannel::Torch, tq@[j].0 as int, tq@[j].1 as int, tq@[j].2 as int, dd, tq@[j].3 as int));
                                    }
                                }
                                assert forall|j: int| old(tq)@.len() <= j < tq@.len() implies seed_in_chunk(cx as int, cz as int, #[trigger] tq@[j]) by {
                                    if j < qb.len() {
                                        assert(tq@[j] == qb[j]);
                                    }
                                }
                                assert forall|j: int| 0 <= j < old(tq)@.len() implies tq@[j] == old(tq)@[j] by {
                                    assert(tq@[j] == qb[j]);
                                }
                                assert forall|j: int| 0 <= j < tq@.len() implies (#[trigger] tq@[j]).3 <= SKY_LIGHT_MAX by {
                                    if j < qb.len() {
                                        assert(tq@[j] == qb[j]);
                                    }
                                }
                            }
                        }
                        let sl = self.get_skylight(wx + dx, y, wz + dz);
                        if sl > 1 {
                            let ghost qb = sq@;
                            sq.push_back((wx, y, wz, sl - 1));
                            proof {
                                let dd: int = if dx == 1 { 0 } else if dx == -1 { 1 } else if dz == 1 { 4 } else { 5 };
                                assert(spec_dir(dd) == (dx, 0i32, dz));
                                assert(nb(wx as int, y as int, wz as int, dd) == (wx + dx, y as int, wz + dz));
                                assert(m_chan(self.chunks@, LightChannel::Sky, wx + dx, y as int, wz + dz) == sl);
                                assert(m_col_loaded(self.chunks@, wx + dx, wz + dz));
                                assert(lit_from_level(self.chunks@, LightChannel::Sky, wx as int, y as int, wz as int, dd, (sl - 1) as int));
                                assert forall|j: int| old(sq)@.len() <= j < sq@.len() implies border_seed_ok(self.chunks@, LightChannel::Sky, #[trigger] sq@[j]) by {
                                    if j < qb.len() {
                                        assert(sq@[j] == qb[j]);
                                    } else {
                                        assert(sq@[j] == (wx, y, wz, (sl - 1) as u8));
                                        assert(lit_from_level(self.chunks@, LightChannel::Sky, sq@[j].0 as int, sq@[j].1 as int, sq@[j].2 as int, dd, sq@[j].3 as int));
                                    }
                                }
                                assert forall|j: int| old(sq)@.len() <= j < sq@.len() implies seed_in_chunk(cx as int, cz as int, #[trigger] sq@[j]) by {
                                    if j < qb.len() {
                                        assert(sq@[j] == qb[j]);
                                    }
                                }
                                assert forall|j: int| 0 <= j < old(sq)@.len() implies sq@[j] == old(sq)@[j] by {
                                    assert(sq@[j] == qb[j]);
                                }
                                assert forall|j: int| 0 <= j < sq@.len() implies (#[trigger] sq@[j]).3 <= SKY_LIGHT_MAX by {
                                    if j < qb.len() {
                                        assert(sq@[j] == qb[j]);
                                    }
                                }
                            }
                        }
                    }
                    proof {
                        lemma_border_step(*self, LightChannel::Torch, cx as int, cz as int, tq0, tq@, cur, wx as int, y as int, wz as int, dx as int, dz as int);
                        lemma_border_step(*self, LightChannel::Sky, cx as int, cz as int, sq0, sq@, cur, wx as int, y as int, wz as int, dx as int, dz as int);
                    }
                }
                y += 1;
            }
        }
    }

    /// Lights a freshly generated (or reloaded) chunk: its torches are lit,
    /// each column is filled with full sky light from its sky floor up, and
    /// the torch light and sky light of loaded neighbouring chunks flow in
    /// across the borders; everything then spreads as in the light flood fill.
    /// Light only grows; every raised level comes from a source of the chunk
    /// or from a neighbour ([`relight_ok`]); opaque cells stay as they were
    /// when the stored heights are exact; an unloaded chunk changes nothing.
    #[verifier::spinoff_prover]
    #[verifier::rlimit(80)]
    pub fn relight_chunk(&mut self, cx: i32, cz: i32)
        requires
            old(self).wf(),
            i32::MIN < cx < i32::MAX,
            i32::MIN < cz < i32::MAX,
            old(self).loaded(cx as int, cz as int) ==> heights_in_range(
                old(self).chunks@[key_u64(cx as int, cz as int)],
            ),
        ensures
            final(self).wf(),
            final(self).edits == old(self).edits,
            final(self).water_queue == old(self).water_queue,
            final(self).seed == old(self).seed,
            frame_ok(old(self).chunks@, final(self).chunks@),
            !old(self).loaded(cx as int, cz as int) ==> final(self).chunks@ == old(self).chunks@,
            forall|ch: LightChannel, x: int, y: int, z: int|
                0 <= y < CH && m_col_loaded(final(self).chunks@, x, z) && final(self).chan(ch, x, y, z) > old(self).chan(
                    ch,
                    x,
                    y,
                    z,
                ) ==> #[trigger] relight_ok(*old(self), final(self).chunks@, ch, cx as int, cz as int, x, y, z),
            old(self).heights_exact() ==> forall|ch: LightChannel, x: int, y: int, z: int|
                0 <= y < CH && spec_is_opaque(old(self).block(x, y, z)) ==> #[trigger] final(self).chan(ch, x, y, z)
                    == old(self).chan(ch, x, y, z),
            forall|ch: LightChannel, x: int, y: int, z: int| #[trigger] final(self).chan(ch, x, y, z) >= old(self).chan(
                ch,
                x,
                y,
                z,
            ),
            torch_bounded(old(self).chunks@) ==> torch_bounded(final(self).chunks@),
            old(self).loaded(cx as int, cz as int) ==> forall|lx: int, lz: int, y: int|
                0 <= lx < CS && 0 <= lz < CS && m_sky_floor(old(self).chunks@, cx * 16 + lx, cz * 16 + lz)
                    <= y < CH ==> #[trigger] final(self).chan(LightChannel::Sky, cx * 16 + lx, y, cz * 16 + lz)
                    == SKY_LIGHT_MAX,
            old(self).loaded(cx as int, cz as int) ==> forall|lx: int, y: int, lz: int|
                in_chunk(lx, y, lz) && spec_emission(
                    #[trigger] old(self).chunks@[key_u64(cx as int, cz as int)].block_at(lx, y, lz),
                ) > 0 ==> final(self).chan(LightChannel::Torch, cx * 16 + lx, y, cz * 16 + lz) >= spec_emission(
                    old(self).chunks@[key_u64(cx as int, cz as int)].block_at(lx, y, lz),
                ),
            old(self).loaded(cx as int, cz as int) ==> forall|x: int, y: int, z: int, dx: int, dz: int|
                #[trigger] inflow_seed(*old(self), LightChannel::Torch, cx as int, cz as int, x, y, z, dx, dz)
                    ==> final(self).chan(LightChannel::Torch, x, y, z) >= old(self).chan(
                    LightChannel::Torch,
                    x + dx,
                    y,
                    z + dz,
                ) - 1,
            old(self).loaded(cx as int, cz as int) ==> forall|x: int, y: int, z: int, dx: int, dz: int|
                #[trigger] inflow_seed(*old(self), LightChannel::Sky, cx as int, cz as int, x, y, z, dx, dz)
                    ==> final(self).chan(LightChannel::Sky, x, y, z) >= old(self).chan(
                    LightChannel::Sky,
                    x + dx,
                    y,
                    z + dz,
                ) - 1,
            forall|x: int, y: int, z: int|
                0 <= y < CH && m_col_loaded(final(self).chunks@, x, z) && final(self).chan(LightChannel::Torch, x, y, z)
                    > old(self).chan(LightChannel::Torch, x, y, z) ==> #[trigger] passes_on(
                    final(self).chunks@,
                    LightChannel::Torch,
                    x,
                    y,
                    z,
                ),
            old(self).loaded(cx as int, cz as int) ==> forall|lx: int, y: int, lz: int|
                in_chunk(lx, y, lz) && spec_emission(
                    #[trigger] old(self).chunks@[key_u64(cx as int, cz as int)].block_at(lx, y, lz),
                ) > 0 && final(self).chan(LightChannel::Torch, cx * 16 + lx, y, cz * 16 + lz) == spec_emission(
                    old(self).chunks@[key_u64(cx as int, cz as int)].block_at(lx, y, lz),
                ) ==> passes_on(final(self).chunks@, LightChannel::Torch, cx * 16 + lx, y, cz * 16 + lz),
            old(self).loaded(cx as int, cz as int) ==> forall|lx: int, lz: int, y: int, e: int|
                0 <= lx < CS && 0 <= lz < CS && 0 <= e < 4 && m_sky_floor(old(self).chunks@, cx * 16 + lx, cz * 16 + lz) <= y
                    < CH ==> #[trigger] side_lit(old(self).chunks@, final(self).chunks@, cx * 16 + lx, y, cz * 16 + lz, e),
            forall|x: int, y: int, z: int|
                0 <= y < CH && m_col_loaded(final(self).chunks@, x, z) && !(x / 16 == cx && z / 16 == cz && y
                    >= m_sky_floor(old(self).chunks@, x, z)) && final(self).chan(LightChannel::Sky, x, y, z) > old(
                    self,
                ).chan(LightChannel::Sky, x, y, z) ==> #[trigger] passes_on(
                    final(self).chunks@,
                    LightChannel::Sky,
                    x,
                    y,
                    z,
                ),
    {
        let ghost m0 = self.chunks@;
        let ghost s0 = *self;
        proof {
            assert forall|k: u64| m0.contains_key(k) implies {
                &&& (#[trigger] m0[k]).blocks@ == m0[k].blocks@
                &&& m0[k].water_level@ == m0[k].water_level@
                &&& m0[k].heights@ == m0[k].heights@
            } by {}
        }
        let loaded = self.chunks.contains_key(&chunk_key(cx, cz));
        let mut tq: VecDeque<(i32, i32, i32, u8)> = if loaded {
            self.torch_seeds(cx, cz)
        } else {
            VecDeque::new()
        };
        let ghost tq0 = tq@;
        let mut sq: VecDeque<(i32, i32, i32, u8)> = VecDeque::new();
        if loaded {
            self.fill_sky_chunk(cx, cz, &mut sq);
        }
        let ghost m1 = self.chunks@;
        let ghost s1 = *self;
        let ghost sqf = sq@;
        self.border_seeds(cx, cz, &mut tq, &mut sq);
        let ghost tq1 = tq@;
        let ghost sq1 = sq@;
        self.flood_add(LightChannel::Torch, tq);
        let ghost m2 = self.chunks@;
        let ghost s2 = *self;
        proof {
            lemma_grown_frame(m1, m2, LightChannel::Torch);
            lemma_frame_trans(m0, m1, m2);
            lemma_light_grown_cells(m1, m2, LightChannel::Torch);
        }
        self.flood_add(LightChannel::Sky, sq);
        proof {
            if !loaded {
                assert(m1 == m0);
                assert forall|j: int| 0 <= j < tq1.len() implies seed_dead(m1, #[trigger] tq1[j]) by {
                    assert(seed_in_chunk(cx as int, cz as int, tq1[j]));
                    assert(!m_loaded(m1, cx as int, cz as int));
                }
                assert(m2 == m1);
                assert forall|j: int| 0 <= j < sq1.len() implies seed_dead(m2, #[trigger] sq1[j]) by {
                    assert(seed_in_chunk(cx as int, cz as int, sq1[j]));
                    assert(!m_loaded(m2, cx as int, cz as int));
                }
            }
            lemma_light_grown_cells(m1, m2, LightChannel::Torch);
            lemma_light_grown_cells(m2, self.chunks@, LightChannel::Sky);
            lemma_grown_frame(m2, self.chunks@, LightChannel::Sky);
            lemma_grown_frame(m1, m2, LightChannel::Torch);
            lemma_changed_other_cells(m1, m2, LightChannel::Torch);
            lemma_changed_other_cells(m2, self.chunks@, LightChannel::Sky);
            assert(other_chan(LightChannel::Sky) == LightChannel::Torch);
            assert(other_chan(LightChannel::Torch) == LightChannel::Sky);
            assert forall|lx: int, lz: int, y: int|
                loaded && 0 <= lx < CS && 0 <= lz < CS && m_sky_floor(m0, cx * 16 + lx, cz * 16 + lz) <= y < CH
                implies #[trigger] m_chan(m1, LightChannel::Sky, cx * 16 + lx, y, cz * 16 + lz) == SKY_LIGHT_MAX by {
                assert(s1.chan(LightChannel::Sky, cx * 16 + lx, y, cz * 16 + lz) == SKY_LIGHT_MAX);
            }
            assert forall|x2: int, y2: int, z2: int|
                !(loaded && x2 / 16 == cx && z2 / 16 == cz && y2 >= m_sky_floor(m0, x2, z2))
                implies #[trigger] m_chan(m1, LightChannel::Sky, x2, y2, z2) == m_chan(m0, LightChannel::Sky, x2, y2, z2) by {
                if loaded {
                    assert(s1.chan(LightChannel::Sky, x2, y2, z2) == s0.chan(LightChannel::Sky, x2, y2, z2));
                }
            }
            lemma_relight_torch_sources(s0, m0, m1, m2, self.chunks@, cx, cz, loaded, tq0, tq1);
            if torch_bounded(m0) {
                lemma_relight_torch_capped(m0, m1, m2, self.chunks@, cx, cz, tq0, tq1);
            }
            lemma_relight_sky_sources(s0, m0, m1, m2, self.chunks@, cx, cz, loaded, sqf, sq1);
            assert forall|ch: LightChannel, x: int, y: int, z: int|
                0 <= y < CH && m_col_loaded(self.chunks@, x, z) && self.chan(ch, x, y, z) > s0.chan(ch, x, y, z)
                implies #[trigger] relight_ok(s0, self.chunks@, ch, cx as int, cz as int, x, y, z) by {
                match ch {
                    LightChannel::Torch => {},
                    LightChannel::Sky => {},
                }
            }
            assert forall|ch: LightChannel, x: int, y: int, z: int| #[trigger] self.chan(ch, x, y, z) >= s0.chan(
                ch,
                x,
                y,
                z,
            ) by {
                if 0 <= y < CH && m_col_loaded(m0, x, z) {
                    let k = key_u64(x / 16, z / 16);
                    assert(chunk_ok(m0[k]));
                    lemma_cell_index(x % 16, y, z % 16);
                    if ch == LightChannel::Torch {
                        assert(m1[k].light@ == m0[k].light@);
                        assert(m_chan(m1, ch, x, y, z) == m_chan(m0, ch, x, y, z));
                        assert(m_chan(m2, ch, x, y, z) >= m_chan(m1, ch, x, y, z));
                        assert(other_chan(LightChannel::Sky) == LightChannel::Torch);
                        assert(m_chan(self.chunks@, ch, x, y, z) == m_chan(m2, ch, x, y, z));
                    } else {
                        if loaded && x / 16 == cx && z / 16 == cz && y >= m_sky_floor(m0, x, z) {
                            let lx = x % 16;
                            let lz = z % 16;
                            assert(x == cx * 16 + lx && z == cz * 16 + lz);
                            assert(s1.chan(LightChannel::Sky, cx * 16 + lx, y, cz * 16 + lz) == SKY_LIGHT_MAX);
                            assert(m0[k].light_bounded());
                            assert(s0.chan(LightChannel::Sky, x, y, z) <= SKY_LIGHT_MAX);
                        }
                        assert(s1.chan(LightChannel::Sky, x, y, z) >= s0.chan(LightChannel::Sky, x, y, z));
                        assert(other_chan(LightChannel::Torch) == LightChannel::Sky);
                        assert(m_chan(m2, ch, x, y, z) == m_chan(m1, ch, x, y, z));
                        assert(m_chan(self.chunks@, ch, x, y, z) >= m_chan(m2, ch, x, y, z));
                    }
                }
            }
            lemma_grown_frame(m2, self.chunks@, LightChannel::Sky);
            lemma_frame_trans(m0, m2, self.chunks@);
            lemma_light_grown_cells(m2, self.chunks@, LightChannel::Sky);
            if s0.heights_exact() {
                assert forall|ch: LightChannel, x: int, y: int, z: int|
                    0 <= y < CH && spec_is_opaque(s0.block(x, y, z)) implies #[trigger] self.chan(ch, x, y, z) == s0.chan(
                    ch,
                    x,
                    y,
                    z,
                ) by {
                    assert(self.chan(ch, x, y, z) >= s0.chan(ch, x, y, z));
                    if m_col_loaded(self.chunks@, x, z) && self.chan(ch, x, y, z) > s0.chan(ch, x, y, z) {
                        assert(relight_ok(s0, self.chunks@, ch, cx as int, cz as int, x, y, z));
                    }
                    lemma_relight_keeps_opaque_dark(s0, self.chunks@, cx as int, cz as int, ch, x, y, z);
                }
            }
            if loaded {
                let key = key_u64(cx as int, cz as int);
                assert(m_loaded(m0, cx as int, cz as int));
                assert forall|lx: int, lz: int, y: int|
                    0 <= lx < CS && 0 <= lz < CS && m_sky_floor(m0, cx * 16 + lx, cz * 16 + lz) <= y < CH
                    implies #[trigger] self.chan(LightChannel::Sky, cx * 16 + lx, y, cz * 16 + lz) == SKY_LIGHT_MAX by {
                    let xx = cx * 16 + lx;
                    let zz = cz * 16 + lz;
                    assert(s1.chan(LightChannel::Sky, xx, y, zz) == SKY_LIGHT_MAX);
                    assert(s2.chan(LightChannel::Sky, xx, y, zz) == SKY_LIGHT_MAX);
                    assert(xx / 16 == cx as int && xx % 16 == lx);
                    assert(zz / 16 == cz as int && zz % 16 == lz);
                    assert(m_col_loaded(self.chunks@, xx, zz));
                    assert(chunk_ok(self.chunks@[key]));
                    lemma_cell_index(lx, y, lz);
                    assert(self.chan(LightChannel::Sky, xx, y, zz) <= SKY_LIGHT_MAX);
                }
                assert forall|lx: int, y: int, lz: int|
                    in_chunk(lx, y, lz) && spec_emission(#[trigger] m0[key].block_at(lx, y, lz)) > 0
                    implies self.chan(LightChannel::Torch, cx * 16 + lx, y, cz * 16 + lz) >= spec_emission(
                        m0[key].block_at(lx, y, lz),
                    ) by {
                    let xx = cx * 16 + lx;
                    let zz = cz * 16 + lz;
                    assert(xx / 16 == cx as int && xx % 16 == lx);
                    assert(zz / 16 == cz as int && zz % 16 == lz);
                    let j = choose|j: int| 0 <= j < tq0.len() && tq0[j] == ((cx * 16 + lx) as i32, y as i32, (cz * 16 + lz) as i32, spec_emission(
                        m0[key].block_at(lx, y, lz)));
                    assert(tq1[j] == tq0[j]);
                    assert(m_col_loaded(m1, xx, zz));
                    assert(s2.chan(LightChannel::Torch, xx, y, zz) >= spec_emission(m0[key].block_at(lx, y, lz)));
                    assert(self.chan(LightChannel::Torch, xx, y, zz) == s2.chan(LightChannel::Torch, xx, y, zz));
                }
                assert forall|x: int, y: int, z: int, dx: int, dz: int|
                    #[trigger] inflow_seed(s0, LightChannel::Torch, cx as int, cz as int, x, y, z, dx, dz)
                    implies self.chan(LightChannel::Torch, x, y, z) >= s0.chan(LightChannel::Torch, x + dx, y, z + dz) - 1 by {
                    lemma_inflow_kept(s0, s1, LightChannel::Torch, cx as int, cz as int, x, y, z, dx, dz);
                    assert(inflow_seed(s1, LightChannel::Torch, cx as int, cz as int, x, y, z, dx, dz));
                    let l = s1.chan(LightChannel::Torch, x + dx, y, z + dz);
                    let j = choose|j: int| 0 <= j < tq1.len() && tq1[j] == (x as i32, y as i32, z as i32, (l - 1) as u8);
                    assert(m_col_loaded(m1, tq1[j].0 as int, tq1[j].2 as int));
                    assert(s2.chan(LightChannel::Torch, x, y, z) >= tq1[j].3);
                    assert(self.chan(LightChannel::Torch, x, y, z) == s2.chan(LightChannel::Torch, x, y, z));
                }
                assert forall|x: int, y: int, z: int, dx: int, dz: int|
                    #[trigger] inflow_seed(s0, LightChannel::Sky, cx as int, cz as int, x, y, z, dx, dz)
                    implies self.chan(LightChannel::Sky, x, y, z) >= s0.chan(LightChannel::Sky, x + dx, y, z + dz) - 1 by {
                    lemma_inflow_kept(s0, s1, LightChannel::Sky, cx as int, cz as int, x, y, z, dx, dz);
                    assert(inflow_seed(s1, LightChannel::Sky, cx as int, cz as int, x, y, z, dx, dz));
                    let l = s1.chan(LightChannel::Sky, x + dx, y, z + dz);
                    let j = choose|j: int| 0 <= j < sq1.len() && sq1[j] == (x as i32, y as i32, z as i32, (l - 1) as u8);
                    assert(m_col_loaded(m2, sq1[j].0 as int, sq1[j].2 as int));
                }
                assert forall|lx: int, y: int, lz: int|
                    in_chunk(lx, y, lz) && spec_emission(#[trigger] m0[key].block_at(lx, y, lz)) > 0
                        && self.chan(LightChannel::Torch, cx * 16 + lx, y, cz * 16 + lz) == spec_emission(m0[key].block_at(lx, y, lz))
                    implies passes_on(self.chunks@, LightChannel::Torch, cx * 16 + lx, y, cz * 16 + lz) by {
                    let xx = cx * 16 + lx;
                    let zz = cz * 16 + lz;
                    assert(xx / 16 == cx as int && xx % 16 == lx);
                    assert(zz / 16 == cz as int && zz % 16 == lz);
                    let j = choose|j: int| 0 <= j < tq0.len() && tq0[j] == ((cx * 16 + lx) as i32, y as i32, (cz * 16 + lz) as i32, spec_emission(
                        m0[key].block_at(lx, y, lz)));
                    assert(tq1[j] == tq0[j]);
                    assert(s2.chan(LightChannel::Torch, xx, y, zz) == self.chan(LightChannel::Torch, xx, y, zz));
                    assert(tq1[j] == (xx as i32, y as i32, zz as i32, s2.chan(LightChannel::Torch, xx, y, zz)));
                    assert(m_col_loaded(m2, xx, zz));
                    assert(passes_on(m2, LightChannel::Torch, xx, y, zz));
                    lemma_passes_on_mono(m2, self.chunks@, LightChannel::Torch, xx, y, zz);
                }
                assert forall|lx: int, lz: int| 0 <= lx < CS && 0 <= lz < CS implies #[trigger] side_seeded(sq1, m0, cx * 16 + lx, cz * 16 + lz) by {
                    assert(side_seeded(sqf, m0, cx * 16 + lx, cz * 16 + lz));
                    lemma_side_seeded_extend(sqf, sq1, m0, cx * 16 + lx, cz * 16 + lz);
                }
                assert forall|lx2: int, lz2: int, y2: int|
                    0 <= lx2 < CS && 0 <= lz2 < CS && m_sky_floor(m0, cx * 16 + lx2, cz * 16 + lz2) <= y2 < CH
                    implies #[trigger] m_chan(self.chunks@, LightChannel::Sky, cx * 16 + lx2, y2, cz * 16 + lz2) == SKY_LIGHT_MAX by {
                    assert(self.chan(LightChannel::Sky, cx * 16 + lx2, y2, cz * 16 + lz2) == SKY_LIGHT_MAX);
                }
                assert forall|lx: int, lz: int, y: int, e: int|
                    0 <= lx < CS && 0 <= lz < CS && 0 <= e < 4 && m_sky_floor(m0, cx * 16 + lx, cz * 16 + lz) <= y < CH
                    implies #[trigger] side_lit(m0, self.chunks@, cx * 16 + lx, y, cz * 16 + lz, e) by {
                    lemma_relight_side_sky(m0, m2, self.chunks@, sq1, cx as int, cz as int, lx, lz, y, e);
                }
            }
            assert forall|x: int, y: int, z: int|
                0 <= y < CH && m_col_loaded(self.chunks@, x, z) && self.chan(LightChannel::Torch, x, y, z) > s0.chan(
                    LightChannel::Torch,
                    x,
                    y,
                    z,
                ) implies #[trigger] passes_on(self.chunks@, LightChannel::Torch, x, y, z) by {
                assert(s1.chan(LightChannel::Torch, x, y, z) == s0.chan(LightChannel::Torch, x, y, z)) by {
                    if 0 <= y < CH && m_col_loaded(m0, x, z) {
                        let k = key_u64(x / 16, z / 16);
                        assert(m1[k].light@ == m0[k].light@);
                    }
                }
                assert(s2.chan(LightChannel::Torch, x, y, z) == self.chan(LightChannel::Torch, x, y, z));
                assert(m_col_loaded(m2, x, z));
                assert(passes_on(m2, LightChannel::Torch, x, y, z));
                lemma_passes_on_mono(m2, self.chunks@, LightChannel::Torch, x, y, z);
            }
            assert forall|x: int, y: int, z: int|
                0 <= y < CH && m_col_loaded(self.chunks@, x, z) && !(x / 16 == cx && z / 16 == cz && y >= m_sky_floor(
                    m0,
                    x,
                    z,
                )) && self.chan(LightChannel::Sky, x, y, z) > s0.chan(LightChannel::Sky, x, y, z)
                implies #[trigger] passes_on(self.chunks@, LightChannel::Sky, x, y, z) by {
                assert(s1.chan(LightChannel::Sky, x, y, z) == s0.chan(LightChannel::Sky, x, y, z));
                assert(s2.chan(LightChannel::Sky, x, y, z) == s1.chan(LightChannel::Sky, x, y, z));
            }
        }
    }

    /// All recorded edits as (x, y, z, block id), each once.
    pub fn edit_list(&self) -> (r: Vec<(i32, i32, i32, u8)>)
        requires
            self.wf(),
        ensures
            forall|j: int| 0 <= j < r@.len() ==> self.edit((#[trigger] r@[j]).0, r@[j].1, r@[j].2) == Some(r@[j].3),
            forall|x: i32, y: i32, z: i32| #[trigger] self.edit(x, y, z) is Some ==> exists|j: int|
                0 <= j < r@.len() && r@[j] == (x, y, z, self.edit(x, y, z).unwrap()),
            r@.len() == self.edits@.len(),
    {
        let mut r: Vec<(i32, i32, i32, u8)> = Vec::new();
        let ghost spec_it = spec_hash_map_iter(&self.edits).remaining();
        for item in it: self.edits.iter()
            invariant
                self.wf(),
                r@.len() == it.index(),
                it.seq() == spec_it,
                forall|j: int| 0 <= j < r@.len() ==> r@[j] == *(#[trigger] it.seq()[j]).1,
        {
            let (_k, v) = item;
            r.push(*v);
        }
        proof {
            let v = spec_it;
            assert(r@.len() == v.len());
            assert forall|j: int| 0 <= j < r@.len() implies self.edit((#[trigger] r@[j]).0, r@[j].1, r@[j].2) == Some(r@[j].3) by {
                let k = *v[j].0;
                assert(self.edits@.contains_key(k) && self.edits@[k] == *v[j].1);
                assert(r@[j] == *v[j].1);
            }
            assert forall|x: i32, y: i32, z: i32| #[trigger] self.edit(x, y, z) is Some implies exists|j: int|
                0 <= j < r@.len() && r@[j] == (x, y, z, self.edit(x, y, z).unwrap()) by {
                let k = edit_key_of(x as int, y as int, z as int) as u128;
                assert(self.edits@.contains_key(k));
                assert(v.contains((&k, &self.edits@[k])));
                let j = choose|j: int| 0 <= j < v.len() && v[j] == (&k, &self.edits@[k]);
                assert(r@[j] == self.edits@[k]);
                let e = self.edits@[k];
                assert(k as int == edit_key_of(e.0 as int, e.1 as int, e.2 as int));
                lemma_edit_key_injective((e.0, e.1, e.2), (x, y, z));
            }
        }
        r
    }

    /// Writes the recorded edits that fall into chunk (cx, cz) into `c`, a
    /// freshly generated copy of that chunk: each edited cell gets its block,
    /// and its water level becomes full for water and 0 otherwise (the flow
    /// simulation settles it). If any edit applied, all column heights are
    /// recomputed. Every edited cell and its neighbours are queued for water
    /// flow. Edits outside the world's height are skipped.
    #[verifier::spinoff_prover]
    #[verifier::rlimit(40)]
    pub fn apply_edits_to(&mut self, c: &mut Chunk, cx: i32, cz: i32)
        requires
            old(self).wf(),
            old(c).wf(),
            forall|x: i32, y: i32, z: i32|
                edit_applies(x, y, z, cx, cz) && (#[trigger] old(self).edit(x, y, z)) is Some ==> i32::MIN < x < i32::MAX
                    && i32::MIN < z < i32::MAX,
        ensures
            final(self).wf(),
            final(self).chunks == old(self).chunks,
            final(self).edits == old(self).edits,
            final(self).seed == old(self).seed,
            final(c).wf(),
            final(c).light@ == old(c).light@,
            final(c).skylight@ == old(c).skylight@,
            final(c).dirty == old(c).dirty,
            forall|x: i32, y: i32, z: i32|
                edit_applies(x, y, z, cx, cz) && (#[trigger] old(self).edit(x, y, z)) is Some ==> {
                    &&& final(c).blocks@[local_index(x as int, y as int, z as int)] == old(self).edit(x, y, z).unwrap()
                    &&& final(c).water_level@[local_index(x as int, y as int, z as int)] == if block_of(
                        old(self).edit(x, y, z).unwrap(),
                    ) is Water {
                        WATER_MAX
                    } else {
                        0
                    }
                    &&& forall|i: int| 0 <= i < 7 ==> final(self).water_queue@.contains(
                        #[trigger] cell_and_neighbours(x, y, z)[i],
                    )
                },
            forall|i: int|
                0 <= i < VOL && !(exists|x: i32, y: i32, z: i32|
                    edit_applies(x, y, z, cx, cz) && (#[trigger] old(self).edit(x, y, z)) is Some && i == local_index(
                        x as int,
                        y as int,
                        z as int,
                    )) ==> #[trigger] final(c).blocks@[i] == old(c).blocks@[i] && final(c).water_level@[i]
                    == old(c).water_level@[i],
            (exists|x: i32, y: i32, z: i32|
                edit_applies(x, y, z, cx, cz) && (#[trigger] old(self).edit(x, y, z)) is Some) ==> forall|lx: int, lz: int|
                0 <= lx < CS && 0 <= lz < CS ==> #[trigger] final(c).heights@[col_index(lx, lz)] == top_opaque(
                    final(c).blocks@,
                    lx,
                    lz,
                ),
            !(exists|x: i32, y: i32, z: i32|
                edit_applies(x, y, z, cx, cz) && (#[trigger] old(self).edit(x, y, z)) is Some) ==> final(c).heights@
                == old(c).heights@,
            final(self).water_queue@.len() >= old(self).water_queue@.len(),
            forall|j: int| 0 <= j < old(self).water_queue@.len() ==> final(self).water_queue@[j] == old(self).water_queue@[j],
    {
        let list = self.edit_list();
        let ghost c0 = *c;
        let ghost mut wmap: Map<int, u8> = Map::empty();
        let mut requeue: Vec<(i32, i32, i32)> = Vec::new();
        let mut touched = false;
        let mut n: usize = 0;
        while n < list.len()
            invariant
                self == old(self),
                self.wf(),
                forall|x: i32, y: i32, z: i32|
                    edit_applies(x, y, z, cx, cz) && (#[trigger] self.edit(x, y, z)) is Some ==> i32::MIN < x < i32::MAX
                        && i32::MIN < z < i32::MAX,
                c0 == *old(c),
                c0.wf(),
                c.wf(),
                c.light@ == c0.light@,
                c.skylight@ == c0.skylight@,
                c.heights@ == c0.heights@,
                c.dirty == c0.dirty,
                n <= list@.len(),
                forall|j: int| 0 <= j < list@.len() ==> self.edit((#[trigger] list@[j]).0, list@[j].1, list@[j].2) == Some(list@[j].3),
                forall|i: int| #[trigger] wmap.contains_key(i) ==> 0 <= i < VOL && c.blocks@[i] == wmap[i] && c.water_level@[i] == if block_of(wmap[i]) is Water {
                    WATER_MAX
                } else {
                    0
                },
                forall|i: int| 0 <= i < VOL && !wmap.contains_key(i) ==> #[trigger] c.blocks@[i] == c0.blocks@[i] && c.water_level@[i] == c0.water_level@[i],
                forall|i: int| #[trigger] wmap.contains_key(i) ==> exists|x: i32, y: i32, z: i32|
                    edit_applies(x, y, z, cx, cz) && (#[trigger] self.edit(x, y, z)) == Some(wmap[i]) && i == local_index(x as int, y as int, z as int),
                forall|j: int|
                    0 <= j < n && edit_applies((#[trigger] list@[j]).0, list@[j].1, list@[j].2, cx, cz) ==> {
                        &&& wmap.contains_key(local_index(list@[j].0 as int, list@[j].1 as int, list@[j].2 as int))
                        &&& requeue@.contains((list@[j].0, list@[j].1, list@[j].2))
                    },
                touched == (wmap.dom().len() > 0),
                wmap.dom().finite(),
                forall|j: int| 0 <= j < requeue@.len() ==> i32::MIN < (#[trigger] requeue@[j]).0 < i32::MAX
                    && 0 <= requeue@[j].1 < CH && i32::MIN < requeue@[j].2 < i32::MAX,
            decreases list@.len() - n,
        {
            let (x, y, z, b) = list[n];
            let (ecx, lx) = split(x);
            let (ecz, lz) = split(z);
            let ghost rb = requeue@;
            let ghost wb = wmap;
            if ecx == cx && ecz == cz && 0 <= y && y < CH {
                proof {
                    lemma_cell_index(lx as int, y as int, lz as int);
                }
                let i = idx(lx, y, lz);
                c.blocks.set(i, b);
                let wl = if Block::from_u8(b) == Block::Water {
                    WATER_MAX
                } else {
                    0
                };
                c.water_level.set(i, wl);
                requeue.push((x, y, z));
                touched = true;
                proof {
                    wmap = wmap.insert(i as int, b);
                    lemma_edit_write_step(*self, list@, n as int, wb, wmap, rb, requeue@, cx, cz);
                }
            } else {
                proof {
                    assert forall|j: int|
                        0 <= j < n + 1 && edit_applies((#[trigger] list@[j]).0, list@[j].1, list@[j].2, cx, cz) implies {
                            &&& wmap.contains_key(local_index(list@[j].0 as int, list@[j].1 as int, list@[j].2 as int))
                            &&& requeue@.contains((list@[j].0, list@[j].1, list@[j].2))
                        } by {
                        if j == n {
                            assert(list@[j] == (x, y, z, b));
                        }
                    }
                }
            }
            n += 1;
        }
        proof {
            assert forall|x: i32, y: i32, z: i32|
                edit_applies(x, y, z, cx, cz) && (#[trigger] old(self).edit(x, y, z)) is Some implies
                    wmap.contains_key(local_index(x as int, y as int, z as int)) && wmap[local_index(x as int, y as int, z as int)]
                        == old(self).edit(x, y, z).unwrap() && requeue@.contains((x, y, z)) by {
                let j = choose|j: int| 0 <= j < list@.len() && list@[j] == (x, y, z, old(self).edit(x, y, z).unwrap());
                assert(edit_applies(list@[j].0, list@[j].1, list@[j].2, cx, cz));
                let i = local_index(x as int, y as int, z as int);
                let (x2, y2, z2) = choose|x2: i32, y2: i32, z2: i32|
                    edit_applies(x2, y2, z2, cx, cz) && (#[trigger] self.edit(x2, y2, z2)) is Some && i == local_index(x2 as int, y2 as int, z2 as int);
                lemma_same_local_cell(x as int, y as int, z as int, x2 as int, y2 as int, z2 as int);
            }
        }
        let ghost cb = *c;
        if touched {
            let mut lz: i32 = 0;
            while lz < CS
                invariant
                    c.wf(),
                    c.blocks@ == cb.blocks@,
                    c.water_level@ == cb.water_level@,
                    c.light@ == cb.light@,
                    c.skylight@ == cb.skylight@,
                    c.dirty == cb.dirty,
                    0 <= lz <= CS,
                    forall|lx2: int, lz2: int|
                        0 <= lx2 < CS && 0 <= lz2 < lz ==> #[trigger] c.heights@[col_index(lx2, lz2)]
                            == top_opaque(cb.blocks@, lx2, lz2),
                decreases CS - lz,
            {
                let mut lx: i32 = 0;
                while lx < CS
                    invariant
                        c.wf(),
                        c.blocks@ == cb.blocks@,
                        c.water_level@ == cb.water_level@,
                        c.light@ == cb.light@,
                        c.skylight@ == cb.skylight@,
                        c.dirty == cb.dirty,
                        0 <= lz < CS,
                        0 <= lx <= CS,
                        forall|lx2: int, lz2: int|
                            0 <= lx2 < CS && (0 <= lz2 < lz || (lz2 == lz && lx2 < lx)) ==> #[trigger] c.heights@[col_index(lx2, lz2)]
                                == top_opaque(cb.blocks@, lx2, lz2),
                    decreases CS - lx,
                {
                    c.recompute_height(lx, lz);
                    proof {
                        crate::chunk::lemma_top_opaque_from_props(cb.blocks@, lx as int, lz as int, CH - 1);
                        assert forall|lx2: int, lz2: int|
                            0 <= lx2 < CS && (0 <= lz2 < lz || (lz2 == lz && lx2 < lx + 1)) implies #[trigger] c.heights@[col_index(lx2, lz2)]
                                == top_opaque(cb.blocks@, lx2, lz2) by {
                            if !(lx2 == lx && lz2 == lz) {
                                assert(col_index(lx2, lz2) != col_index(lx as int, lz as int));
                            }
                        }
                    }
                    lx += 1;
                }
                lz += 1;
            }
        }
        let ghost q0 = self.water_queue@;
        let mut k: usize = 0;
        while k < requeue.len()
            invariant
                self.wf(),
                self.chunks == old(self).chunks,
                self.edits == old(self).edits,
                self.seed == old(self).seed,
                q0 == old(self).water_queue@,
                k <= requeue@.len(),
                forall|j: int| 0 <= j < requeue@.len() ==> i32::MIN < (#[trigger] requeue@[j]).0 < i32::MAX
                    && 0 <= requeue@[j].1 < CH && i32::MIN < requeue@[j].2 < i32::MAX,
                self.water_queue@.len() >= q0.len(),
                forall|j: int| 0 <= j < q0.len() ==> self.water_queue@[j] == q0[j],
                forall|j: int, i: int| 0 <= j < k && 0 <= i < 7 ==> self.water_queue@.contains(
                    #[trigger] cell_and_neighbours(requeue@[j].0, requeue@[j].1, requeue@[j].2)[i],
                ),
            decreases requeue@.len() - k,
        {
            let (x, y, z) = requeue[k];
            let ghost qb = self.water_queue@;
            self.enqueue_water_neighbors(x, y, z);
            proof {
                assert forall|j: int, i: int| 0 <= j < k + 1 && 0 <= i < 7 implies self.water_queue@.contains(
                    #[trigger] cell_and_neighbours(requeue@[j].0, requeue@[j].1, requeue@[j].2)[i],
                ) by {
                    let e = cell_and_neighbours(requeue@[j].0, requeue@[j].1, requeue@[j].2)[i];
                    if j < k {
                        assert(qb.contains(e));
                        let jj = choose|jj: int| 0 <= jj < qb.len() && qb[jj] == e;
                        assert(self.water_queue@[jj] == qb[jj]);
                    } else {
                        assert(self.water_queue@[qb.len() + i] == e);
                    }
                }
            }
            k += 1;
        }
        proof {
            assert forall|x: i32, y: i32, z: i32|
                edit_applies(x, y, z, cx, cz) && (#[trigger] old(self).edit(x, y, z)) is Some implies {
                    &&& c.blocks@[local_index(x as int, y as int, z as int)] == old(self).edit(x, y, z).unwrap()
                    &&& c.water_level@[local_index(x as int, y as int, z as int)] == if block_of(
                        old(self).edit(x, y, z).unwrap(),
                    ) is Water {
                        WATER_MAX
                    } else {
                        0
                    }
                    &&& forall|i: int| 0 <= i < 7 ==> self.water_queue@.contains(
                        #[trigger] cell_and_neighbours(x, y, z)[i],
                    )
                } by {
                let i = local_index(x as int, y as int, z as int);
                assert(wmap.contains_key(i));
                let jj = choose|jj: int| 0 <= jj < requeue@.len() && requeue@[jj] == (x, y, z);
                assert forall|i: int| 0 <= i < 7 implies self.water_queue@.contains(
                    #[trigger] cell_and_neighbours(x, y, z)[i],
                ) by {
                    assert(cell_and_neighbours(requeue@[jj].0, requeue@[jj].1, requeue@[jj].2)[i] == cell_and_neighbours(x, y, z)[i]);
                }
            }
            assert forall|i: int|
                0 <= i < VOL && !(exists|x: i32, y: i32, z: i32|
                    edit_applies(x, y, z, cx, cz) && (#[trigger] old(self).edit(x, y, z)) is Some && i == local_index(
                        x as int,
                        y as int,
                        z as int,
                    )) implies #[trigger] c.blocks@[i] == c0.blocks@[i] && c.water_level@[i] == c0.water_level@[i] by {
                if wmap.contains_key(i) {
                    let (x, y, z) = choose|x: i32, y: i32, z: i32|
                        edit_applies(x, y, z, cx, cz) && (#[trigger] self.edit(x, y, z)) == Some(wmap[i]) && i
                            == local_index(x as int, y as int, z as int);
                    assert(old(self).edit(x, y, z) == self.edit(x, y, z));
                    assert(false);
                }
            }
            if exists|x: i32, y: i32, z: i32| edit_applies(x, y, z, cx, cz) && (#[trigger] old(self).edit(x, y, z)) is Some {
                let (x, y, z) = choose|x: i32, y: i32, z: i32| edit_applies(x, y, z, cx, cz) && (#[trigger] old(self).edit(x, y, z)) is Some;
                assert(wmap.contains_key(local_index(x as int, y as int, z as int)));
                assert(wmap.dom().len() > 0);
            } else {
                if wmap.dom().len() > 0 {
                    let i = wmap.dom().choose();
                    assert(wmap.contains_key(i));
                }
            }
        }
    }

    /// Sets the water level at (x, y, z) to `v` (no effect outside the world
    /// or in unloaded chunks); the cell becomes water when `v` is positive and
    /// air otherwise, and the chunks around are marked dirty. Light is not
    /// updated.
    pub fn set_water_level(&mut self, x: i32, y: i32, z: i32, v: u8)
        requires
            old(self).wf(),
        ensures
            final(self).wf(),
            final(self).edits == old(self).edits,
            final(self).water_queue == old(self).water_queue,
            final(self).seed == old(self).seed,
            forall|cx: int, cz: int| #[trigger] final(self).loaded(cx, cz) == old(self).loaded(cx, cz),
            forall|ch: LightChannel, x2: int, y2: int, z2: int| #[trigger] final(self).chan(ch, x2, y2, z2)
                == old(self).chan(ch, x2, y2, z2),
            !(0 <= y < CH && m_col_loaded(old(self).chunks@, x as int, z as int)) ==> final(self).chunks@
                == old(self).chunks@,
            0 <= y < CH && m_col_loaded(old(self).chunks@, x as int, z as int) ==> {
                &&& final(self).block(x as int, y as int, z as int) == if v > 0 {
                    Block::Water
                } else {
                    Block::Air
                }
                &&& final(self).water(x as int, y as int, z as int) == v
            },
            forall|x2: int, y2: int, z2: int|
                !(x2 == x && y2 == y && z2 == z) ==> #[trigger] final(self).block(x2, y2, z2) == old(self).block(
                    x2,
                    y2,
                    z2,
                ) && final(self).water(x2, y2, z2) == old(self).water(x2, y2, z2),
            old(self).heights_ok() && !spec_is_opaque(old(self).block(x as int, y as int, z as int))
                ==> final(self).heights_ok(),
            old(self).water_ok() ==> final(self).water_ok(),
    {
        if y < 0 || y >= CH {
            assert forall|x2: int, y2: int, z2: int| !(#[trigger] self.block(x2, y2, z2) is Water) && old(self).water_ok()
                implies self.water(x2, y2, z2) == 0 by {
                assert(old(self).block(x2, y2, z2) == self.block(x2, y2, z2));
            }
            return ;
        }
        let (cx, lx) = split(x);
        let (cz, lz) = split(z);
        let key = chunk_key(cx, cz);
        let ghost m0 = self.chunks@;
        let mut c = match self.chunks.remove(&key) {
            None => {
                assert(self.chunks@ =~= m0);
                assert forall|x2: int, y2: int, z2: int| !(#[trigger] self.block(x2, y2, z2) is Water) && old(self).water_ok()
                    implies self.water(x2, y2, z2) == 0 by {
                    assert(old(self).block(x2, y2, z2) == self.block(x2, y2, z2));
                }
                return ;
            },
            Some(c) => c,
        };
        assert(chunk_ok(m0[key]));
        proof {
            lemma_cell_index(lx as int, y as int, lz as int);
        }
        c.set_water_cell(lx, y, lz, v);
        let ghost c1 = c;
        self.chunks.insert(key, c);
        let ghost m1 = self.chunks@;
        proof {
            assert(m1 == m0.insert(key, c1));
            lemma_replace_chunk_cells(m0, m1, x as int, z as int, c1);
            assert forall|k: u64| m1.contains_key(k) implies #[trigger] chunk_ok(m1[k]) by {
                if k != key {
                    assert(chunk_ok(m0[k]));
                }
            }
            assert forall|cx2: int, cz2: int| #[trigger] m_loaded(m1, cx2, cz2) implies m_loaded(m0, cx2, cz2) by {}
            if map_heights_ok(m0) && !spec_is_opaque(m_block(m0, x as int, y as int, z as int)) {
                assert forall|k: u64| m1.contains_key(k) implies (#[trigger] m1[k]).heights_ok() by {
                    if k != key {
                        assert(m0[k].heights_ok());
                    } else {
                        assert(m0[key].heights_ok());
                    }
                }
            }
            let i0 = local_index(x as int, y as int, z as int);
            assert forall|x2: int, y2: int, z2: int|
                !(x2 == x && y2 == y && z2 == z) implies #[trigger] m_block(m1, x2, y2, z2) == m_block(m0, x2, y2, z2)
                    && m_water(m1, x2, y2, z2) == m_water(m0, x2, y2, z2) by {
                if 0 <= y2 < CH && x2 / 16 == x / 16 && z2 / 16 == z / 16 {
                    lemma_cell_index(x2 % 16, y2, z2 % 16);
                    if local_index(x2, y2, z2) == i0 {
                        lemma_same_local_cell(x as int, y as int, z as int, x2, y2, z2);
                    }
                }
            }
            assert(m_block(m1, x as int, y as int, z as int) == if v > 0 { Block::Water } else { Block::Air });
            assert forall|ch: LightChannel, x2: int, y2: int, z2: int| #[trigger] m_chan(m1, ch, x2, y2, z2)
                == m_chan(m0, ch, x2, y2, z2) by {
                if 0 <= y2 < CH && m_col_loaded(m0, x2, z2) {
                    if key_u64(x2 / 16, z2 / 16) == key {
                        assert(chan_seq(m1[key], ch) == chan_seq(m0[key], ch));
                    }
                }
            }
        }
        self.mark_dirty_around(x, z);
        proof {
            let m2 = self.chunks@;
            lemma_same_content_frame(m1, m2);
            lemma_frame_cells(m1, m2);
            if map_heights_ok(m0) && !spec_is_opaque(m_block(m0, x as int, y as int, z as int)) {
                lemma_frame_heights(m1, m2);
            }
            assert forall|ch: LightChannel, x2: int, y2: int, z2: int| #[trigger] m_chan(m2, ch, x2, y2, z2)
                == m_chan(m1, ch, x2, y2, z2) by {
                if 0 <= y2 < CH && m_col_loaded(m1, x2, z2) {
                    assert(content_eq(m1[key_u64(x2 / 16, z2 / 16)], m2[key_u64(x2 / 16, z2 / 16)]));
                    assert(chan_seq(m1[key_u64(x2 / 16, z2 / 16)], ch) == chan_seq(m2[key_u64(x2 / 16, z2 / 16)], ch));
                }
            }
            if old(self).water_ok() {
                assert forall|x2: int, y2: int, z2: int| !(#[trigger] self.block(x2, y2, z2) is Water)
                    implies self.water(x2, y2, z2) == 0 by {
                    if !(x2 == x && y2 == y && z2 == z) {
                        assert(old(self).block(x2, y2, z2) == self.block(x2, y2, z2));
                    }
                }
            }
        }
    }

    /// The water level that should flow into (x, y, z) from its neighbours.
    fn compute_flow_level(&self, x: i32, y: i32, z: i32) -> (r: u8)
        requires
            self.wf(),
            i32::MIN < x < i32::MAX,
            i32::MIN < y < i32::MAX,
            i32::MIN < z < i32::MAX,
        ensures
            r as int == flow_level(*self, x as int, y as int, z as int),
    {
        if self.get_block(x, y + 1, z) == Block::Water {
            return WATER_MAX;
        }
        let mut best: u8 = 0;
        let mut d: usize = 0;
        while d < 4
            invariant
                self.wf(),
                d <= 4,
                i32::MIN < x < i32::MAX,
                i32::MIN < y < i32::MAX,
                i32::MIN < z < i32::MAX,
                !(self.block(x as int, y + 1, z as int) is Water),
                best as int == if d == 0 {
                    0
                } else if d == 1 {
                    max_int(0, lateral_level(*self, x + 1, y as int, z as int))
                } else if d == 2 {
                    max_int(lateral_level(*self, x + 1, y as int, z as int), lateral_level(*self, x - 1, y as int, z as int))
                } else if d == 3 {
                    max_int(
                        max_int(lateral_level(*self, x + 1, y as int, z as int), lateral_level(*self, x - 1, y as int, z as int)),
                        lateral_level(*self, x as int, y as int, z + 1),
                    )
                } else {
                    max_int(
                        max_int(lateral_level(*self, x + 1, y as int, z as int), lateral_level(*self, x - 1, y as int, z as int)),
                        max_int(lateral_level(*self, x as int, y as int, z + 1), lateral_level(*self, x as int, y as int, z - 1)),
                    )
                },
            decreases 4 - d,
        {
            let (dx, dz) = match d {
                0 => (1i32, 0i32),
                1 => (-1i32, 0i32),
                2 => (0i32, 1i32),
                _ => (0i32, -1i32),
            };
            let nx = x + dx;
            let nz = z + dz;
            if self.get_block(nx, y, nz) == Block::Water {
                let nl = self.water_level_at(nx, y, nz);
                if nl > 0 && nl - 1 > best {
                    best = nl - 1;
                }
            }
            proof {
                let l = lateral_level(*self, nx as int, y as int, nz as int);
                lemma_lateral_nonneg(*self, nx as int, y as int, nz as int);
                lemma_lateral_nonneg(*self, x + 1, y as int, z as int);
            }
            d += 1;
        }
        best
    }

    /// Full level for sea water (water at or below sea level), else 0.
    fn source_level(&self, x: i32, y: i32, z: i32) -> (r: u8)
        requires
            self.wf(),
        ensures
            r as int == source_level_of(*self, x as int, y as int, z as int),
    {
        if y <= SEA && self.get_block(x, y, z) == Block::Water {
            WATER_MAX
        } else {
            0
        }
    }

    /// Queues the four side neighbours of (x, y, z) (when `sideways`) and the
    /// cell below it for water-flow re-evaluation.
    fn push_flow_targets(&mut self, x: i32, y: i32, z: i32, sideways: bool)
        requires
            i32::MIN < x < i32::MAX,
            i32::MIN < y,
            i32::MIN < z < i32::MAX,
        ensures
            final(self).chunks == old(self).chunks,
            final(self).edits == old(self).edits,
            final(self).seed == old(self).seed,
            final(self).water_queue@ == old(self).water_queue@ + flow_targets(x, y, z, sideways),
    {
        let ghost q0 = self.water_queue@;
        if sideways {
            self.water_queue.push_back((x + 1, y, z));
            self.water_queue.push_back((x - 1, y, z));
            self.water_queue.push_back((x, y, z + 1));
            self.water_queue.push_back((x, y, z - 1));
        }
        self.water_queue.push_back((x, y - 1, z));
        assert(self.water_queue@ =~= q0 + flow_targets(x, y, z, sideways));
    }

    /// Re-evaluates the water at (x, y, z): a water cell takes the level that
    /// flows into it or, for sea water, the full source level, and dries up
    /// (becoming air) when that is 0; a replaceable non-water cell floods with
    /// the level that flows into it when that is positive. Changed cells queue
    /// their neighbours.
    fn flow_cell(&mut self, x: i32, y: i32, z: i32)
        requires
            old(self).wf(),
        ensures
            final(self).wf(),
            water_flow_step(*old(self), *final(self)),
            old(self).heights_ok() ==> final(self).heights_ok(),
            old(self).water_ok() ==> final(self).water_ok(),
            final(self).water_queue@ == old(self).water_queue@ + flow_pushes(*old(self), (x, y, z)),
            cell_flowed(*old(self), *final(self), (x, y, z)),
    {
        let ghost w0 = *self;
        proof {
            lemma_water_flow_step_refl(w0);
        }
        if y < 0 || y >= CH {
            return ;
        }
        let (cx, _lx) = split(x);
        let (cz, _lz) = split(z);
        if !self.chunks.contains_key(&chunk_key(cx, cz)) {
            return ;
        }
        proof {
            lemma_loaded_coords(self.chunks@, x as int, z as int);
        }
        let b = self.get_block(x, y, z);
        proof {
            lemma_block_property_relations(b);
        }
        if b == Block::Water {
            let f = self.compute_flow_level(x, y, z);
            let src = self.source_level(x, y, z);
            let want = if f >= src { f } else { src };
            let cur = self.water_level_at(x, y, z);
            if want == 0 {
                self.set_water_level(x, y, z, 0);
                let ghost w1 = *self;
                proof {
                    lemma_cell_flow_step(w0, w1, x, y, z);
                }
                self.enqueue_water_neighbors(x, y, z);
                proof {
                    lemma_same_content_world(w1, *self);
                    lemma_water_flow_step_trans(w0, w1, *self);
                }
            } else if want != cur {
                self.set_water_level(x, y, z, want);
                let ghost w1 = *self;
                proof {
                    lemma_cell_flow_step(w0, w1, x, y, z);
                }
                self.push_flow_targets(x, y, z, want > 1);
                proof {
                    lemma_same_content_world(w1, *self);
                    lemma_water_flow_step_trans(w0, w1, *self);
                }
            }
        } else if b.replaceable() {
            let want = self.compute_flow_level(x, y, z);
            if want > 0 {
                self.set_water_level(x, y, z, want);
                let ghost w1 = *self;
                proof {
                    lemma_cell_flow_step(w0, w1, x, y, z);
                }
                self.mark_dirty_around(x, z);
                let ghost w2 = *self;
                proof {
                    lemma_same_content_world(w1, w2);
                    lemma_water_flow_step_trans(w0, w1, w2);
                }
                self.push_flow_targets(x, y, z, true);
                proof {
                    lemma_same_content_world(w2, *self);
                    lemma_water_flow_step_trans(w0, w2, *self);
                }
            }
        }
    }

    /// Processes up to `budget` entries of the water queue, front first,
    /// re-evaluating each cell as [`World::flow_cell`] does; stops early when
    /// the queue runs empty. Cells that change queue their neighbours at the
    /// back, so a spreading flow continues on later calls. The contract names
    /// the cells taken off the queue, in order, the worlds between the single
    /// re-evaluations (see [`cell_flowed`]) and the cells each of them queued
    /// (see [`flow_pushes`]).
    pub fn tick_water(&mut self, budget: i32)
        requires
            old(self).wf(),
        ensures
            final(self).wf(),
            water_flow_step(*old(self), *final(self)),
            old(self).heights_ok() ==> final(self).heights_ok(),
            old(self).water_ok() ==> final(self).water_ok(),
            water_levels_bounded(*old(self)) ==> water_levels_bounded(*final(self)),
            budget <= 0 || old(self).water_queue@.len() == 0 ==> *final(self) == *old(self),
            exists|ws: Seq<World>, taken: Seq<(i32, i32, i32)>|
                #![trigger flow_trace(ws, taken)]
                {
                    &&& flow_trace(ws, taken)
                    &&& ws[0] == *old(self)
                    &&& ws.last() == *final(self)
                    &&& old(self).water_queue@ + trace_pushes(ws, taken) == taken + final(self).water_queue@
                    &&& (budget <= 0 ==> taken.len() == 0)
                    &&& (budget > 0 ==> taken.len() <= budget)
                    &&& (taken.len() < budget ==> final(self).water_queue@.len() == 0)
                },
    {
        let ghost w0 = *self;
        let ghost q0 = self.water_queue@;
        let ghost mut ws: Seq<World> = seq![w0];
        let ghost mut taken: Seq<(i32, i32, i32)> = Seq::empty();
        proof {
            lemma_water_flow_step_refl(w0);
            assert(q0 + trace_pushes(ws, taken) =~= taken + q0);
        }
        let mut n: i32 = 0;
        while n < budget
            invariant
                self.wf(),
                0 <= n,
                budget > 0 ==> n <= budget,
                budget <= 0 ==> n == 0,
                q0 == w0.water_queue@,
                q0.len() == 0 ==> n == 0,
                n == 0 ==> *self == w0,
                water_flow_step(w0, *self),
                w0.heights_ok() ==> self.heights_ok(),
                w0.water_ok() ==> self.water_ok(),
                water_levels_bounded(w0) ==> water_levels_bounded(*self),
                taken.len() == n,
                flow_trace(ws, taken),
                ws[0] == w0,
                ws.last() == *self,
                q0 + trace_pushes(ws, taken) == taken + self.water_queue@,
            ensures
                n >= budget || self.water_queue@.len() == 0,
                self.wf(),
                0 <= n,
                budget > 0 ==> n <= budget,
                budget <= 0 ==> n == 0,
                q0 == w0.water_queue@,
                q0.len() == 0 ==> n == 0,
                n == 0 ==> *self == w0,
                water_flow_step(w0, *self),
                w0.heights_ok() ==> self.heights_ok(),
                w0.water_ok() ==> self.water_ok(),
                water_levels_bounded(w0) ==> water_levels_bounded(*self),
                taken.len() == n,
                flow_trace(ws, taken),
                ws[0] == w0,
                ws.last() == *self,
                q0 + trace_pushes(ws, taken) == taken + self.water_queue@,
            decreases budget - n,
        {
            if self.water_queue.len() == 0 {
                break;
            }
            let ghost wb = *self;
            let ghost qb = self.water_queue@;
            assert(n == 0 ==> qb == q0);
            match self.water_queue.pop_front() {
                None => {
                    assert(false);
                },
                Some(e) => {
                    let (x, y, z) = e;
                    n += 1;
                    let ghost qp = self.water_queue@;
                    let ghost wp = *self;
                    proof {
                        lemma_same_content_world(wb, wp);
                        lemma_water_flow_step_trans(w0, wb, wp);
                    }
                    self.flow_cell(x, y, z);
                    proof {
                        lemma_cell_flowed_same_chunks(wb, wp, *self, (x, y, z));
                        if water_levels_bounded(w0) {
                            lemma_cell_flowed_bounded(wb, *self, (x, y, z));
                        }
                        lemma_trace_step(ws, taken, q0, qb, qp, *self, (x, y, z));
                        ws = ws.push(*self);
                        taken = taken.push((x, y, z));
                        lemma_water_flow_step_trans(w0, wp, *self);
                    }
                },
            }
        }
        proof {
            assert(flow_trace(ws, taken));
        }
    }

    /// Stores chunk `c` as chunk (cx, cz), replacing any chunk loaded there.
    /// Light is not recomputed (see [`World::relight_chunk`]).
    pub fn insert_chunk(&mut self, cx: i32, cz: i32, c: Chunk)
        requires
            old(self).wf(),
            chunk_ok(c),
            -CHUNK_LIMIT <= cx <= CHUNK_LIMIT,
            -CHUNK_LIMIT <= cz <= CHUNK_LIMIT,
        ensures
            final(self).wf(),
            final(self).chunks@ == old(self).chunks@.insert(key_u64(cx as int, cz as int), c),
            final(self).edits == old(self).edits,
            final(self).water_queue == old(self).water_queue,
            final(self).seed == old(self).seed,
            forall|cx2: int, cz2: int| #[trigger] final(self).loaded(cx2, cz2) == (old(self).loaded(cx2, cz2)
                || (cx2 == cx && cz2 == cz)),
            forall|x: int, y: int, z: int| #[trigger]
                final(self).block(x, y, z) == if 0 <= y < CH && x / 16 == cx && z / 16 == cz {
                    block_of(c.blocks@[local_index(x, y, z)])
                } else {
                    old(self).block(x, y, z)
                },
            forall|x: int, y: int, z: int| #[trigger]
                final(self).water(x, y, z) == if 0 <= y < CH && x / 16 == cx && z / 16 == cz {
                    c.water_level@[local_index(x, y, z)]
                } else {
                    old(self).water(x, y, z)
                },
    {
        let ghost m0 = self.chunks@;
        self.chunks.insert(chunk_key(cx, cz), c);
        proof {
            let m1 = self.chunks@;
            lemma_insert_chunk_cells(m0, m1, cx as int, cz as int, c);
            assert forall|k: u64| m1.contains_key(k) implies #[trigger] chunk_ok(m1[k]) by {
                if k != key_u64(cx as int, cz as int) {
                    assert(chunk_ok(m0[k]));
                }
            }
            assert forall|cx2: int, cz2: int| #[trigger] m_loaded(m1, cx2, cz2) implies -CHUNK_LIMIT <= cx2
                <= CHUNK_LIMIT && -CHUNK_LIMIT <= cz2 <= CHUNK_LIMIT by {
                if !(cx2 == cx && cz2 == cz) {
                    assert(m_loaded(m0, cx2, cz2));
                }
            }
        }
    }

    /// Records that the mesh of chunk (cx, cz) is up to date.
    pub fn mark_clean(&mut self, cx: i32, cz: i32)
        requires
            old(self).wf(),
        ensures
            final(self).wf(),
            same_content(old(self).chunks@, final(self).chunks@),
            final(self).edits == old(self).edits,
            final(self).water_queue == old(self).water_queue,
            final(self).seed == old(self).seed,
            old(self).loaded(cx as int, cz as int) ==> !final(self).chunks@[key_u64(cx as int, cz as int)].dirty,
            forall|k: u64| k != key_u64(cx as int, cz as int) && #[trigger] old(self).chunks@.contains_key(k) ==> final(self).chunks@[k] == old(self).chunks@[k],
    {
        let key = chunk_key(cx, cz);
        let ghost before = self.chunks@;
        match self.chunks.remove(&key) {
            Some(mut c) => {
                c.dirty = false;
                self.chunks.insert(key, c);
                proof {
                    assert(self.chunks@ == before.insert(key, c));
                    assert(content_eq(before[key], c));
                    assert forall|cx2: int, cz2: int| #[trigger] m_loaded(self.chunks@, cx2, cz2) implies m_loaded(before, cx2, cz2) by {}
                    assert forall|k: u64| before.contains_key(k) implies #[trigger] content_eq(before[k], self.chunks@[k]) by {}
                    assert(self.chunks@.dom() =~= before.dom());
                    assert forall|k: u64| self.chunks@.contains_key(k) implies #[trigger] chunk_ok(self.chunks@[k]) by {
                        assert(chunk_ok(before[k]));
                    }
                }
            },
            None => {
                assert(self.chunks@ == before);
            },
        }
    }

    /// The chunk stored as chunk (cx, cz), if it is loaded.
    pub fn chunk(&self, cx: i32, cz: i32) -> (r: Option<&Chunk>)
        ensures
            r is Some == self.loaded(cx as int, cz as int),
            r is Some ==> *r->0 == self.chunks@[key_u64(cx as int, cz as int)],
    {
        self.chunks.get(&chunk_key(cx, cz))
    }

    /// The stored column height at (x, z) when its chunk is loaded (`None`
    /// otherwise, where the caller estimates it from the terrain noise).
    pub fn height_at(&self, x: i32, z: i32) -> (r: Option<i32>)
        requires
            self.wf(),
        ensures
            r is Some == m_col_loaded(self.chunks@, x as int, z as int),
            r is Some ==> r->0 == m_chunk(self.chunks@, x as int, z as int).heights@[col_index(
                x as int % 16,
                z as int % 16,
            )],
    {
        let (cx, lx) = split(x);
        let (cz, lz) = split(z);
        match self.chunks.get(&chunk_key(cx, cz)) {
            Some(c) => {
                assert(chunk_ok(self.chunks@[key_u64(cx as int, cz as int)]));
                Some(c.height(lx, lz))
            },
            None => None,
        }
    }

    /// The recorded edit at (x, y, z), as a block id.
    pub fn get_edit(&self, x: i32, y: i32, z: i32) -> (r: Option<u8>)
        requires
            self.wf(),
        ensures
            r == self.edit(x, y, z),
    {
        match self.edits.get(&edit_key(x, y, z)) {
            Some(e) => Some(e.3),
            None => None,
        }
    }

    /// Records block id `id` as the edit at (x, y, z) (as loading a save does);
    /// the blocks themselves are not changed.
    pub fn record_edit(&mut self, x: i32, y: i32, z: i32, id: u8)
        requires
            old(self).wf(),
        ensures
            final(self).wf(),
            final(self).chunks == old(self).chunks,
            final(self).water_queue == old(self).water_queue,
            final(self).seed == old(self).seed,
            final(self).edit(x, y, z) == Some(id),
            forall|x2: i32, y2: i32, z2: i32|
                !(x2 == x && y2 == y && z2 == z) ==> #[trigger] final(self).edit(x2, y2, z2) == old(self).edit(
                    x2,
                    y2,
                    z2,
                ),
    {
        let k = edit_key(x, y, z);
        self.edits.insert(k, (x, y, z, id));
        proof {
            assert forall|x2: i32, y2: i32, z2: i32|
                !(x2 == x && y2 == y && z2 == z) implies #[trigger] self.edit(x2, y2, z2) == old(self).edit(
                    x2,
                    y2,
                    z2,
                ) by {
                if edit_key_of(x2 as int, y2 as int, z2 as int) as u128 == k {
                    lemma_edit_key_injective((x, y, z), (x2, y2, z2));
                }
            }
        }
    }

    /// The coordinates of all loaded chunks, each once.
    pub fn loaded_chunks(&self) -> (r: Vec<(i32, i32)>)
        requires
            self.wf(),
        ensures
            forall|j: int| 0 <= j < r@.len() ==> self.loaded((#[trigger] r@[j]).0 as int, r@[j].1 as int),
            forall|cx: int, cz: int| #[trigger] self.loaded(cx, cz) ==> exists|j: int|
                0 <= j < r@.len() && r@[j] == (cx as i32, cz as i32),
            r@.len() == self.chunks@.len(),
    {
        let mut r: Vec<(i32, i32)> = Vec::new();
        let ghost spec_it = spec_hash_map_iter(&self.chunks).remaining();
        for item in it: self.chunks.iter()
            invariant
                self.wf(),
                r@.len() == it.index(),
                it.seq() == spec_it,
                forall|j: int| 0 <= j < r@.len() ==> key_u64((#[trigger] r@[j]).0 as int, r@[j].1 as int)
                    == *it.seq()[j].0,
        {
            let (k, _c) = item;
            r.push(key_coords(*k));
        }
        proof {
            let v = spec_it;
            assert forall|j: int| 0 <= j < r@.len() implies self.loaded(
                (#[trigger] r@[j]).0 as int,
                r@[j].1 as int,
            ) by {
                let k = *v[j].0;
                assert(self.chunks@.contains_key(k));
            }
            assert forall|cx: int, cz: int| #[trigger] self.loaded(cx, cz) implies exists|j: int|
                0 <= j < r@.len() && r@[j] == (cx as i32, cz as i32) by {
                let k = key_u64(cx, cz);
                assert(self.chunks@.contains_key(k));
                assert(v.contains((&k, &self.chunks@[k])));
                let j = choose|j: int| 0 <= j < v.len() && v[j] == (&k, &self.chunks@[k]);
                lemma_key_injective(cx, cz, r@[j].0 as int, r@[j].1 as int);
            }
        }
        r
    }

    /// Unloads every chunk farther than `keep` chunks (on either axis) from
    /// chunk (pcx, pcz).
    pub fn drop_far_chunks(&mut self, pcx: i32, pcz: i32, keep: i32)
        requires
            old(self).wf(),
        ensures
            final(self).wf(),
            final(self).edits == old(self).edits,
            final(self).water_queue == old(self).water_queue,
            final(self).seed == old(self).seed,
            forall|cx: int, cz: int| #[trigger] final(self).loaded(cx, cz) == (old(self).loaded(cx, cz) && -keep
                <= cx - pcx <= keep && -keep <= cz - pcz <= keep),
            forall|k: u64| #[trigger] final(self).chunks@.contains_key(k) ==> final(self).chunks@[k]
                == old(self).chunks@[k],
    {
        let list = self.loaded_chunks();
        let ghost m0 = self.chunks@;
        let mut i: usize = 0;
        while i < list.len()
            invariant
                self.wf(),
                i <= list@.len(),
                self.edits == old(self).edits,
                self.water_queue == old(self).water_queue,
                self.seed == old(self).seed,
                m0 == old(self).chunks@,
                forall|j: int| 0 <= j < list@.len() ==> old(self).loaded((#[trigger] list@[j]).0 as int, list@[j].1 as int),
                forall|cx: int, cz: int| #[trigger] old(self).loaded(cx, cz) ==> exists|j: int|
                    0 <= j < list@.len() && list@[j] == (cx as i32, cz as i32),
                forall|cx: int, cz: int| #[trigger] self.loaded(cx, cz) ==> old(self).loaded(cx, cz),
                forall|cx: int, cz: int|
                    old(self).loaded(cx, cz) && -keep <= cx - pcx <= keep && -keep <= cz - pcz <= keep
                        ==> #[trigger] self.loaded(cx, cz),
                forall|j: int|
                    0 <= j < i ==> !(-keep <= (#[trigger] list@[j]).0 - pcx <= keep && -keep <= list@[j].1 - pcz
                        <= keep) ==> !self.loaded(list@[j].0 as int, list@[j].1 as int),
                forall|k: u64| #[trigger] self.chunks@.contains_key(k) ==> self.chunks@[k] == m0[k] && m0.contains_key(k),
            decreases list@.len() - i,
        {
            let (cx, cz) = list[i];
            let dx = cx as i64 - pcx as i64;
            let dz = cz as i64 - pcz as i64;
            let kp = keep as i64;
            if !(-kp <= dx && dx <= kp && -kp <= dz && dz <= kp) {
                let ghost before = self.chunks@;
                let ghost wb = *self;
                let key = chunk_key(cx, cz);
                self.chunks.remove(&key);
                proof {
                    let m1 = self.chunks@;
                    assert(m1 == before.remove(key));
                    assert forall|cx2: int, cz2: int| #[trigger] m_loaded(m1, cx2, cz2) == (m_loaded(before, cx2, cz2)
                        && !(cx2 == cx && cz2 == cz)) by {
                        if in_i32(cx2) && in_i32(cz2) && key_u64(cx2, cz2) == key {
                            lemma_key_injective(cx as int, cz as int, cx2, cz2);
                        }
                    }
                    assert forall|cx2: int, cz2: int|
                        old(self).loaded(cx2, cz2) && -keep <= cx2 - pcx <= keep && -keep <= cz2 - pcz <= keep
                            implies #[trigger] self.loaded(cx2, cz2) by {
                        assert(wb.loaded(cx2, cz2));
                        assert(m_loaded(m1, cx2, cz2));
                    }
                    assert forall|k: u64| m1.contains_key(k) implies #[trigger] chunk_ok(m1[k]) by {
                        assert(chunk_ok(before[k]));
                    }
                    assert forall|cx2: int, cz2: int| #[trigger] m_loaded(m1, cx2, cz2) implies -CHUNK_LIMIT <= cx2
                        <= CHUNK_LIMIT && -CHUNK_LIMIT <= cz2 <= CHUNK_LIMIT by {
                        assert(m_loaded(before, cx2, cz2));
                    }
                }
            }
            i += 1;
        }
        proof {
            assert forall|cx: int, cz: int| #[trigger] self.loaded(cx, cz) implies (old(self).loaded(cx, cz)
                && -keep <= cx - pcx <= keep && -keep <= cz - pcz <= keep) by {
                let j = choose|j: int| 0 <= j < list@.len() && list@[j] == (cx as i32, cz as i32);
                assert(list@[j].0 as int == cx && list@[j].1 as int == cz);
            }
        }
    }

    /// Marks the chunk of column (x, z), and the neighbouring chunks whose
    /// border touches that column, as needing a new mesh.
    fn mark_dirty_around(&mut self, x: i32, z: i32)
        requires
            old(self).wf(),
        ensures
            final(self).wf(),
            same_content(old(self).chunks@, final(self).chunks@),
            forall|cx2: int, cz2: int|
                #[trigger] m_loaded(old(self).chunks@, cx2, cz2) ==> final(self).chunks@[key_u64(cx2, cz2)].dirty == (
                old(self).chunks@[key_u64(cx2, cz2)].dirty || dirty_reach(x as int, z as int, cx2, cz2)),
            final(self).edits == old(self).edits,
            final(self).water_queue == old(self).water_queue,
            final(self).seed == old(self).seed,
    {
        let (cx, lx) = split(x);
        let (cz, lz) = split(z);
        let ghost m0 = self.chunks@;
        let mut dz: i32 = -1;
        while dz <= 1
            invariant
                -1 <= dz <= 2,
                self.wf(),
                same_content(m0, self.chunks@),
                self.edits == old(self).edits,
                self.water_queue == old(self).water_queue,
                self.seed == old(self).seed,
                -0x800_0000 <= cx < 0x800_0000,
                -0x800_0000 <= cz < 0x800_0000,
                0 <= lx < 16,
                0 <= lz < 16,
                cx == x as int / 16,
                cz == z as int / 16,
                lx == x as int % 16,
                lz == z as int % 16,
                forall|cx2: int, cz2: int|
                    #[trigger] m_loaded(m0, cx2, cz2) ==> self.chunks@[key_u64(cx2, cz2)].dirty == (
                    m0[key_u64(cx2, cz2)].dirty || dirty_reach_before(x as int, z as int, cx2, cz2, -1, dz as int)),
            decreases 2 - dz,
        {
            let mut dx: i32 = -1;
            while dx <= 1
                invariant
                    -1 <= dx <= 2,
                    -1 <= dz <= 1,
                    self.wf(),
                    same_content(m0, self.chunks@),
                    self.edits == old(self).edits,
                    self.water_queue == old(self).water_queue,
                    self.seed == old(self).seed,
                    -0x800_0000 <= cx < 0x800_0000,
                    -0x800_0000 <= cz < 0x800_0000,
                    0 <= lx < 16,
                    0 <= lz < 16,
                    cx == x as int / 16,
                    cz == z as int / 16,
                    lx == x as int % 16,
                    lz == z as int % 16,
                    forall|cx2: int, cz2: int|
                        #[trigger] m_loaded(m0, cx2, cz2) ==> self.chunks@[key_u64(cx2, cz2)].dirty == (
                        m0[key_u64(cx2, cz2)].dirty || dirty_reach_before(x as int, z as int, cx2, cz2, dx as int, dz as int)),
                decreases 2 - dx,
            {
                let ghost s_before = self.chunks@;
                let touch_x = dx == 0 || (dx == -1 && lx == 0) || (dx == 1 && lx == CS - 1);
                let touch_z = dz == 0 || (dz == -1 && lz == 0) || (dz == 1 && lz == CS - 1);
                proof {
                    assert(dirty_reach(x as int, z as int, cx + dx, cz + dz) == (touch_x && touch_z));
                }
                if touch_x && touch_z {
                    let key = chunk_key(cx + dx, cz + dz);
                    let ghost before = self.chunks@;
                    match self.chunks.remove(&key) {
                        Some(mut n) => {
                            n.dirty = true;
                            self.chunks.insert(key, n);
                            proof {
                                assert(self.chunks@ == before.insert(key, n));
                                assert(content_eq(before[key], n));
                                assert forall|cx2: int, cz2: int| #[trigger]
                                    m_loaded(self.chunks@, cx2, cz2) implies m_loaded(before, cx2, cz2) by {}
                                assert forall|k: u64| m0.contains_key(k) implies #[trigger] content_eq(
                                    m0[k],
                                    self.chunks@[k],
                                ) by {
                                    assert(content_eq(m0[k], before[k]));
                                }
                                assert(self.chunks@.dom() =~= m0.dom());
                                assert forall|k: u64| self.chunks@.contains_key(k) implies #[trigger] chunk_ok(
                                    self.chunks@[k],
                                ) by {
                                    assert(chunk_ok(before[k]));
                                }
                            }
                        },
                        None => {
                            assert(self.chunks@ == before);
                        },
                    }
                }
                proof {
                    assert forall|cx2: int, cz2: int| #[trigger] m_loaded(m0, cx2, cz2) implies self.chunks@[key_u64(
                        cx2,
                        cz2,
                    )].dirty == (m0[key_u64(cx2, cz2)].dirty || dirty_reach_before(
                        x as int,
                        z as int,
                        cx2,
                        cz2,
                        dx + 1,
                        dz as int,
                    )) by {
                        assert(m_loaded(s_before, cx2, cz2));
                        if cx2 == cx + dx && cz2 == cz + dz {
                        } else {
                            if key_u64(cx2, cz2) == key_u64(cx + dx, cz + dz) {
                                lemma_key_injective(cx2, cz2, cx + dx, cz + dz);
                            }
                            assert(self.chunks@[key_u64(cx2, cz2)].dirty == s_before[key_u64(cx2, cz2)].dirty);
                        }
                    }
                }
                dx += 1;
            }
            dz += 1;
        }
    }
}

} // verus!
