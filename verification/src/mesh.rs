//! The integer side of chunk meshing: a snapshot of a chunk and the ring of
//! columns around it, and the list of faces to draw with their ambient
//! occlusion levels and depth below the surface. Turning a face into
//! vertices (positions, texture coordinates, brightness) is left to the
//! renderer.
use vstd::prelude::*;
use crate::blocks::{Block, block_id, block_of, spec_is_opaque, spec_is_cross, lemma_block_id_roundtrip};
use crate::chunk::{Chunk, CS, CH, VOL, cell_index, col_index, in_chunk, lemma_cell_index, vec_filled};
use crate::world::{World, CHUNK_LIMIT, split, m_col_loaded, m_chunk};

verus! {

/// Width of a snapshot: the chunk plus one column on each side.
pub const SNAP: i32 = 18;

/// Cells in a snapshot (18 * 18 columns of 96).
pub const SNAP_VOL: usize = 31104;

/// Columns in a snapshot.
pub const SNAP_COLS: usize = 324;

/// Column position of snapshot column (sx, sz), for -1 <= sx, sz <= 16.
pub open spec fn snap_col(sx: int, sz: int) -> int {
    (sx + 1) * 18 + (sz + 1)
}

/// Cell position of snapshot cell (sx, y, sz).
pub open spec fn snap_index(sx: int, y: int, sz: int) -> int {
    snap_col(sx, sz) * CH + y
}

pub open spec fn in_ring(sx: int, sz: int) -> bool {
    -1 <= sx <= 16 && -1 <= sz <= 16
}

/// The blocks and column heights of a chunk and of the ring of columns
/// around it, as they were when the snapshot was taken.
pub struct Snapshot {
    pub blocks: Vec<u8>,
    pub heights: Vec<i16>,
}

impl Snapshot {
    pub open spec fn wf(&self) -> bool {
        self.blocks@.len() == SNAP_VOL && self.heights@.len() == SNAP_COLS
    }

    /// The block at (sx, y, sz): stone below the world, air above it.
    pub open spec fn block(&self, sx: int, y: int, sz: int) -> Block {
        if y < 0 {
            Block::Stone
        } else if y >= CH {
            Block::Air
        } else {
            block_of(self.blocks@[snap_index(sx, y, sz)])
        }
    }

    /// The block at (sx, y, sz), for columns of the chunk and its ring.
    pub fn get(&self, sx: i32, y: i32, sz: i32) -> (b: Block)
        requires
            self.wf(),
            in_ring(sx as int, sz as int),
        ensures
            b == self.block(sx as int, y as int, sz as int),
    {
        if y < 0 {
            return Block::Stone;
        }
        if y >= CH {
            return Block::Air;
        }
        Block::from_u8(self.blocks[((((sx + 1) * SNAP) + (sz + 1)) * CH + y) as usize])
    }

    /// The stored height of column (sx, sz).
    pub fn height(&self, sx: i32, sz: i32) -> (h: i32)
        requires
            self.wf(),
            in_ring(sx as int, sz as int),
        ensures
            h == self.heights@[snap_col(sx as int, sz as int)],
    {
        self.heights[(((sx + 1) * SNAP) + (sz + 1)) as usize] as i32
    }
}

/// Copies chunk (cx, cz) and its ring of neighbouring columns out of the
/// world; columns of chunks that are not loaded read as air with height 0.
pub fn snapshot(world: &World, cx: i32, cz: i32) -> (s: Snapshot)
    requires
        world.wf(),
        -CHUNK_LIMIT <= cx <= CHUNK_LIMIT,
        -CHUNK_LIMIT <= cz <= CHUNK_LIMIT,
    ensures
        s.wf(),
        forall|sx: int, y: int, sz: int|
            in_ring(sx, sz) ==> #[trigger] s.block(sx, y, sz) == world.block(cx * 16 + sx, y, cz * 16 + sz),
        forall|sx: int, sz: int|
            in_ring(sx, sz) ==> #[trigger] s.heights@[snap_col(sx, sz)] == if m_col_loaded(
                world.chunks@,
                cx * 16 + sx,
                cz * 16 + sz,
            ) {
                m_chunk(world.chunks@, cx * 16 + sx, cz * 16 + sz).heights@[col_index(
                    (cx * 16 + sx) % 16,
                    (cz * 16 + sz) % 16,
                )]
            } else {
                0
            },
{
    let mut blocks = vec_filled(0u8, SNAP_VOL);
    let mut heights: Vec<i16> = Vec::with_capacity(SNAP_COLS);
    let mut k: usize = 0;
    while k < SNAP_COLS
        invariant
            k <= SNAP_COLS,
            heights@.len() == k,
            forall|j: int| 0 <= j < k ==> heights@[j] == 0,
        decreases SNAP_COLS - k,
    {
        heights.push(0);
        k += 1;
    }
    let mut sx: i32 = -1;
    while sx <= CS
        invariant
            world.wf(),
            -CHUNK_LIMIT <= cx <= CHUNK_LIMIT,
            -CHUNK_LIMIT <= cz <= CHUNK_LIMIT,
            -1 <= sx <= CS + 1,
            blocks@.len() == SNAP_VOL,
            heights@.len() == SNAP_COLS,
            forall|a: int, d: int, y: int|
                in_ring(a, d) && 0 <= y < CH && snap_col(a, d) >= snap_col(sx as int, -1) ==> #[trigger] blocks@[snap_index(a, y, d)] == 0,
            forall|a: int, d: int|
                in_ring(a, d) && snap_col(a, d) >= snap_col(sx as int, -1) ==> #[trigger] heights@[snap_col(a, d)] == 0,
            forall|a: int, d: int, y: int|
                in_ring(a, d) && 0 <= y < CH && snap_col(a, d) < snap_col(sx as int, -1) ==> #[trigger] block_of(
                    blocks@[snap_index(a, y, d)],
                ) == world.block(cx * 16 + a, y, cz * 16 + d),
            forall|a: int, d: int|
                in_ring(a, d) && snap_col(a, d) < snap_col(sx as int, -1) ==> #[trigger] heights@[snap_col(a, d)]
                    == col_height(world, cx * 16 + a, cz * 16 + d),
        decreases CS + 1 - sx,
    {
        let mut sz: i32 = -1;
        while sz <= CS
            invariant
                world.wf(),
                -CHUNK_LIMIT <= cx <= CHUNK_LIMIT,
                -CHUNK_LIMIT <= cz <= CHUNK_LIMIT,
                -1 <= sx <= CS,
                -1 <= sz <= CS + 1,
                blocks@.len() == SNAP_VOL,
                heights@.len() == SNAP_COLS,
                forall|a: int, d: int, y: int|
                    in_ring(a, d) && 0 <= y < CH && snap_col(a, d) >= snap_col(sx as int, sz as int) ==> #[trigger] blocks@[snap_index(a, y, d)] == 0,
                forall|a: int, d: int|
                    in_ring(a, d) && snap_col(a, d) >= snap_col(sx as int, sz as int) ==> #[trigger] heights@[snap_col(a, d)] == 0,
                forall|a: int, d: int, y: int|
                    in_ring(a, d) && 0 <= y < CH && snap_col(a, d) < snap_col(sx as int, sz as int) ==> #[trigger] block_of(
                        blocks@[snap_index(a, y, d)],
                    ) == world.block(cx * 16 + a, y, cz * 16 + d),
                forall|a: int, d: int|
                    in_ring(a, d) && snap_col(a, d) < snap_col(sx as int, sz as int) ==> #[trigger] heights@[snap_col(a, d)]
                        == col_height(world, cx * 16 + a, cz * 16 + d),
            decreases CS + 1 - sz,
        {
            copy_column(world, cx, cz, sx, sz, &mut blocks, &mut heights);
            sz += 1;
        }
        sx += 1;
    }
    let s = Snapshot { blocks, heights };
    proof {
        assert forall|a: int, y: int, d: int| in_ring(a, d) implies #[trigger] s.block(a, y, d) == world.block(
            cx * 16 + a,
            y,
            cz * 16 + d,
        ) by {
            if 0 <= y < CH {
                assert(block_of(s.blocks@[snap_index(a, y, d)]) == world.block(cx * 16 + a, y, cz * 16 + d));
            }
        }
        assert forall|a: int, d: int| in_ring(a, d) implies #[trigger] s.heights@[snap_col(a, d)] == col_height(
            world,
            cx * 16 + a,
            cz * 16 + d,
        ) by {}
    }
    s
}

/// The stored height of world column (x, z), 0 when its chunk is not loaded.
pub open spec fn col_height(world: &World, x: int, z: int) -> int {
    if m_col_loaded(world.chunks@, x, z) {
        m_chunk(world.chunks@, x, z).heights@[col_index(x % 16, z % 16)] as int
    } else {
        0
    }
}

/// Copies world column (cx * 16 + sx, cz * 16 + sz) into snapshot column (sx, sz).
fn copy_column(world: &World, cx: i32, cz: i32, sx: i32, sz: i32, blocks: &mut Vec<u8>, heights: &mut Vec<i16>)
    requires
        world.wf(),
        -CHUNK_LIMIT <= cx <= CHUNK_LIMIT,
        -CHUNK_LIMIT <= cz <= CHUNK_LIMIT,
        in_ring(sx as int, sz as int),
        old(blocks)@.len() == SNAP_VOL,
        old(heights)@.len() == SNAP_COLS,
        forall|y: int| 0 <= y < CH ==> #[trigger] old(blocks)@[snap_index(sx as int, y, sz as int)] == 0,
        old(heights)@[snap_col(sx as int, sz as int)] == 0,
    ensures
        final(blocks)@.len() == SNAP_VOL,
        final(heights)@.len() == SNAP_COLS,
        forall|i: int|
            0 <= i < SNAP_VOL && !(snap_col(sx as int, sz as int) * CH <= i < snap_col(sx as int, sz as int) * CH + CH)
                ==> #[trigger] final(blocks)@[i] == old(blocks)@[i],
        forall|j: int| 0 <= j < SNAP_COLS && j != snap_col(sx as int, sz as int) ==> #[trigger] final(heights)@[j] == old(heights)@[j],
        forall|y: int| 0 <= y < CH ==> #[trigger] block_of(final(blocks)@[snap_index(sx as int, y, sz as int)]) == world.block(
            cx * 16 + sx,
            y,
            cz * 16 + sz,
        ),
        final(heights)@[snap_col(sx as int, sz as int)] == col_height(world, cx * 16 + sx, cz * 16 + sz),
{
    let wx = cx * CS + sx;
    let wz = cz * CS + sz;
    let (ccx, lx) = split(wx);
    let (ccz, lz) = split(wz);
    let dst = ((((sx + 1) * SNAP) + (sz + 1)) * CH) as usize;
    assert(dst + CH <= SNAP_VOL);
    match world.chunk(ccx, ccz) {
        Some(c) => {
            assert(world.chunks@.contains_key(crate::world::key_u64(ccx as int, ccz as int)));
            assert(crate::world::chunk_ok(*c));
            let mut y: i32 = 0;
            while y < CH
                invariant
                    world.wf(),
                    c.wf(),
                    *c == m_chunk(world.chunks@, wx as int, wz as int),
                    m_col_loaded(world.chunks@, wx as int, wz as int),
                    0 <= lx < 16,
                    0 <= lz < 16,
                    lx == wx % 16,
                    lz == wz % 16,
                    0 <= y <= CH,
                    dst == snap_col(sx as int, sz as int) * CH,
                    dst + CH <= SNAP_VOL,
                    blocks@.len() == SNAP_VOL,
                    forall|i: int|
                        0 <= i < SNAP_VOL && !(dst <= i < dst + y) ==> #[trigger] blocks@[i] == old(blocks)@[i],
                    forall|y2: int| 0 <= y2 < y ==> #[trigger] block_of(blocks@[dst + y2]) == world.block(
                        wx as int,
                        y2,
                        wz as int,
                    ),
                decreases CH - y,
            {
                let b = c.get(lx, y, lz);
                proof {
                    lemma_block_id_roundtrip(b);
                }
                blocks.set(dst + y as usize, b.to_u8());
                y += 1;
            }
            heights.set((((sx + 1) * SNAP) + (sz + 1)) as usize, c.height(lx, lz) as i16);
            proof {
                assert forall|y2: int| 0 <= y2 < CH implies #[trigger] block_of(blocks@[snap_index(sx as int, y2, sz as int)])
                    == world.block(cx * 16 + sx, y2, cz * 16 + sz) by {
                    assert(snap_index(sx as int, y2, sz as int) == dst + y2);
                }
            }
        },
        None => {
            assert forall|y2: int| 0 <= y2 < CH implies #[trigger] block_of(blocks@[snap_index(sx as int, y2, sz as int)])
                == world.block(cx * 16 + sx, y2, cz * 16 + sz) by {
                assert(blocks@[snap_index(sx as int, y2, sz as int)] == 0);
            }
        },
    }
}

/// Outward normal of face `f` (0 = +Y, 1 = -Y, 2 = +X, 3 = -X, 4 = +Z, 5 = -Z).
pub open spec fn spec_face_normal(f: int) -> (int, int, int) {
    if f == 0 {
        (0, 1, 0)
    } else if f == 1 {
        (0, -1, 0)
    } else if f == 2 {
        (1, 0, 0)
    } else if f == 3 {
        (-1, 0, 0)
    } else if f == 4 {
        (0, 0, 1)
    } else {
        (0, 0, -1)
    }
}

/// Corner `k` of face `f` as an offset inside the unit cell; the four
/// corners of a cube face (0 to 5) run counter-clockwise seen from outside.
/// Faces 6 and 7 are the two diagonal planes through the cell on which a
/// cross block (torch, tall grass, flower) is drawn.
pub open spec fn spec_face_corner(f: int, k: int) -> (int, int, int) {
    if f == 0 {
        if k == 0 { (0, 1, 0) } else if k == 1 { (0, 1, 1) } else if k == 2 { (1, 1, 1) } else { (1, 1, 0) }
    } else if f == 1 {
        if k == 0 { (0, 0, 0) } else if k == 1 { (1, 0, 0) } else if k == 2 { (1, 0, 1) } else { (0, 0, 1) }
    } else if f == 2 {
        if k == 0 { (1, 0, 0) } else if k == 1 { (1, 1, 0) } else if k == 2 { (1, 1, 1) } else { (1, 0, 1) }
    } else if f == 3 {
        if k == 0 { (0, 0, 0) } else if k == 1 { (0, 0, 1) } else if k == 2 { (0, 1, 1) } else { (0, 1, 0) }
    } else if f == 4 {
        if k == 0 { (0, 0, 1) } else if k == 1 { (1, 0, 1) } else if k == 2 { (1, 1, 1) } else { (0, 1, 1) }
    } else if f == 5 {
        if k == 0 { (0, 0, 0) } else if k == 1 { (0, 1, 0) } else if k == 2 { (1, 1, 0) } else { (1, 0, 0) }
    } else if f == 6 {
        if k == 0 { (0, 0, 0) } else if k == 1 { (1, 0, 1) } else if k == 2 { (1, 1, 1) } else { (0, 1, 0) }
    } else {
        if k == 0 { (1, 0, 0) } else if k == 1 { (0, 0, 1) } else if k == 2 { (0, 1, 1) } else { (1, 1, 0) }
    }
}

/// The normal of face `f`.
pub fn face_normal(f: usize) -> (r: (i32, i32, i32))
    ensures
        (r.0 as int, r.1 as int, r.2 as int) == spec_face_normal(f as int),
{
    match f {
        0 => (0, 1, 0),
        1 => (0, -1, 0),
        2 => (1, 0, 0),
        3 => (-1, 0, 0),
        4 => (0, 0, 1),
        _ => (0, 0, -1),
    }
}

/// Corner `k` of face `f`.
pub fn face_corner(f: usize, k: usize) -> (r: (i32, i32, i32))
    ensures
        (r.0 as int, r.1 as int, r.2 as int) == spec_face_corner(f as int, k as int),
{
    match f {
        0 => match k { 0 => (0, 1, 0), 1 => (0, 1, 1), 2 => (1, 1, 1), _ => (1, 1, 0) },
        1 => match k { 0 => (0, 0, 0), 1 => (1, 0, 0), 2 => (1, 0, 1), _ => (0, 0, 1) },
        2 => match k { 0 => (1, 0, 0), 1 => (1, 1, 0), 2 => (1, 1, 1), _ => (1, 0, 1) },
        3 => match k { 0 => (0, 0, 0), 1 => (0, 0, 1), 2 => (0, 1, 1), _ => (0, 1, 0) },
        4 => match k { 0 => (0, 0, 1), 1 => (1, 0, 1), 2 => (1, 1, 1), _ => (0, 1, 1) },
        5 => match k { 0 => (0, 0, 0), 1 => (0, 1, 0), 2 => (1, 1, 0), _ => (1, 0, 0) },
        6 => match k { 0 => (0, 0, 0), 1 => (1, 0, 1), 2 => (1, 1, 1), _ => (0, 1, 0) },
        _ => match k { 0 => (1, 0, 0), 1 => (0, 0, 1), 2 => (0, 1, 1), _ => (1, 1, 0) },
    }
}

pub open spec fn occupied(s: Snapshot, x: int, y: int, z: int) -> int {
    if spec_is_opaque(s.block(x, y, z)) {
        1
    } else {
        0
    }
}

/// Ambient-occlusion level (0 darkest, 3 open) at corner `k` of face `f` of
/// cell (lx, y, lz): the cells in front of the face next to the corner along
/// each tangent direction and diagonally; two blocked sides give 0.
pub open spec fn spec_ao(s: Snapshot, lx: int, y: int, lz: int, f: int, k: int) -> int {
    let n = spec_face_normal(f);
    let c = spec_face_corner(f, k);
    let bx = lx + n.0;
    let by = y + n.1;
    let bz = lz + n.2;
    let (p1, p2, pc) = if f == 2 || f == 3 {
        let d1 = 2 * c.1 - 1;
        let d2 = 2 * c.2 - 1;
        ((bx, by + d1, bz), (bx, by, bz + d2), (bx, by + d1, bz + d2))
    } else if f == 0 || f == 1 {
        let d1 = 2 * c.0 - 1;
        let d2 = 2 * c.2 - 1;
        ((bx + d1, by, bz), (bx, by, bz + d2), (bx + d1, by, bz + d2))
    } else {
        let d1 = 2 * c.0 - 1;
        let d2 = 2 * c.1 - 1;
        ((bx + d1, by, bz), (bx, by + d2, bz), (bx + d1, by + d2, bz))
    };
    let s1 = occupied(s, p1.0, p1.1, p1.2);
    let s2 = occupied(s, p2.0, p2.1, p2.2);
    let sc = occupied(s, pc.0, pc.1, pc.2);
    if s1 == 1 && s2 == 1 {
        0
    } else {
        3 - (s1 + s2 + sc)
    }
}

/// The ambient-occlusion level at corner `k` of face `f` of a chunk cell.
pub fn ao_level(s: &Snapshot, lx: i32, y: i32, lz: i32, f: usize, k: usize) -> (r: u8)
    requires
        s.wf(),
        in_chunk(lx as int, y as int, lz as int),
        f < 6,
        k < 4,
    ensures
        r as int == spec_ao(*s, lx as int, y as int, lz as int, f as int, k as int),
{
    let n = face_normal(f);
    let c = face_corner(f, k);
    let bx = lx + n.0;
    let by = y + n.1;
    let bz = lz + n.2;
    let (p1, p2, pc) = if f == 2 || f == 3 {
        let d1 = 2 * c.1 - 1;
        let d2 = 2 * c.2 - 1;
        ((bx, by + d1, bz), (bx, by, bz + d2), (bx, by + d1, bz + d2))
    } else if f == 0 || f == 1 {
        let d1 = 2 * c.0 - 1;
        let d2 = 2 * c.2 - 1;
        ((bx + d1, by, bz), (bx, by, bz + d2), (bx + d1, by, bz + d2))
    } else {
        let d1 = 2 * c.0 - 1;
        let d2 = 2 * c.1 - 1;
        ((bx + d1, by, bz), (bx, by + d2, bz), (bx + d1, by + d2, bz))
    };
    let s1: u8 = if s.get(p1.0, p1.1, p1.2).is_opaque() { 1 } else { 0 };
    let s2: u8 = if s.get(p2.0, p2.1, p2.2).is_opaque() { 1 } else { 0 };
    let sc: u8 = if s.get(pc.0, pc.1, pc.2).is_opaque() { 1 } else { 0 };
    if s1 == 1 && s2 == 1 {
        0
    } else {
        3 - (s1 + s2 + sc)
    }
}

/// A face to draw.
#[derive(Clone, Copy, PartialEq, Eq, Debug, Structural)]
pub struct Quad {
    pub lx: i32,
    pub y: i32,
    pub lz: i32,
    pub face: usize,
    pub block: Block,
    /// Ambient-occlusion levels at the four corners (0 darkest, 3 open);
    /// all 3 for water.
    pub ao0: u8,
    pub ao1: u8,
    pub ao2: u8,
    pub ao3: u8,
    /// How far the cell in front of the face lies below the stored height of
    /// its column (0 when at or above it); 0 for water.
    pub depth: i32,
    /// Water lies directly above the cell (false for other blocks).
    pub water_above: bool,
}

/// Depth of cell (x, y, z) below the stored height of its column, at least 0.
pub open spec fn spec_depth(s: Snapshot, x: int, y: int, z: int) -> int {
    let d = s.heights@[snap_col(x, z)] - y;
    if d > 0 {
        d
    } else {
        0
    }
}

/// Face `f` of a solid (neither air nor water) cell shows: the neighbour
/// in front is not opaque, and is not the same merging block (glass).
pub open spec fn solid_face_shows(s: Snapshot, lx: int, y: int, lz: int, f: int) -> bool {
    let n = spec_face_normal(f);
    let b = s.block(lx, y, lz);
    let nb = s.block(lx + n.0, y + n.1, lz + n.2);
    !spec_is_opaque(nb) && !(nb == b && (b is Glass || b is Water))
}

/// Face `f` of a water cell shows: the top face (0) and the four sides
/// (2..=5) show towards a neighbour that is neither water nor opaque; the
/// bottom face never shows.
pub open spec fn water_face_shows(s: Snapshot, lx: int, y: int, lz: int, f: int) -> bool {
    let n = spec_face_normal(f);
    let nb = s.block(lx + n.0, y + n.1, lz + n.2);
    f != 1 && !(nb is Water) && !spec_is_opaque(nb)
}

/// The face record of face `f` of cell (lx, y, lz).
pub open spec fn spec_quad(s: Snapshot, lx: int, y: int, lz: int, f: int) -> Quad {
    let b = s.block(lx, y, lz);
    let n = spec_face_normal(f);
    if b is Water {
        Quad {
            lx: lx as i32,
            y: y as i32,
            lz: lz as i32,
            face: f as usize,
            block: b,
            ao0: 3,
            ao1: 3,
            ao2: 3,
            ao3: 3,
            depth: 0,
            water_above: s.block(lx, y + 1, lz) is Water,
        }
    } else {
        Quad {
            lx: lx as i32,
            y: y as i32,
            lz: lz as i32,
            face: f as usize,
            block: b,
            ao0: spec_ao(s, lx, y, lz, f, 0) as u8,
            ao1: spec_ao(s, lx, y, lz, f, 1) as u8,
            ao2: spec_ao(s, lx, y, lz, f, 2) as u8,
            ao3: spec_ao(s, lx, y, lz, f, 3) as u8,
            depth: spec_depth(s, lx + n.0, y + n.1, lz + n.2) as i32,
            water_above: false,
        }
    }
}

/// Face `f` of cell (lx, y, lz) is drawn.
pub open spec fn face_shows(s: Snapshot, lx: int, y: int, lz: int, f: int) -> bool {
    let b = s.block(lx, y, lz);
    if b is Air {
        false
    } else if b is Water {
        water_face_shows(s, lx, y, lz, f)
    } else {
        solid_face_shows(s, lx, y, lz, f)
    }
}

/// The drawn faces of cell (lx, y, lz) from face `f` on, in face order.
pub open spec fn cell_quads_from(s: Snapshot, lx: int, y: int, lz: int, f: int) -> Seq<Quad>
    decreases 6 - f,
{
    if f >= 6 {
        seq![]
    } else if face_shows(s, lx, y, lz, f) {
        seq![spec_quad(s, lx, y, lz, f)] + cell_quads_from(s, lx, y, lz, f + 1)
    } else {
        cell_quads_from(s, lx, y, lz, f + 1)
    }
}

/// The record of diagonal plane `f` (6 or 7) of the cross block in cell
/// (lx, y, lz): fully open corners, and the depth of the cell itself.
pub open spec fn cross_quad(s: Snapshot, lx: int, y: int, lz: int, f: int) -> Quad {
    Quad {
        lx: lx as i32,
        y: y as i32,
        lz: lz as i32,
        face: f as usize,
        block: s.block(lx, y, lz),
        ao0: 3,
        ao1: 3,
        ao2: 3,
        ao3: 3,
        depth: spec_depth(s, lx, y, lz) as i32,
        water_above: false,
    }
}

/// The drawn faces of cell (lx, y, lz): the two diagonal planes of a cross
/// block, which nothing hides, or the cube faces that show.
pub open spec fn cell_quads(s: Snapshot, lx: int, y: int, lz: int) -> Seq<Quad> {
    if spec_is_cross(s.block(lx, y, lz)) {
        seq![cross_quad(s, lx, y, lz, 6), cross_quad(s, lx, y, lz, 7)]
    } else {
        cell_quads_from(s, lx, y, lz, 0)
    }
}

/// The drawn faces of the first `i` cells of the chunk, in cell order.
pub open spec fn quads_upto(s: Snapshot, i: int) -> Seq<Quad>
    decreases i,
{
    if i <= 0 {
        seq![]
    } else {
        quads_upto(s, i - 1) + cell_quads(s, (i - 1) % 16, (i - 1) / 256, ((i - 1) / 16) % 16)
    }
}

/// What a drawn water face promises: it is not a bottom face and the cell it
/// faces holds no water.
pub open spec fn water_quad_ok(s: Snapshot, q: Quad) -> bool {
    let n = spec_face_normal(q.face as int);
    q.block is Water ==> q.face != 1 && q.face < 6 && !(s.block(q.lx + n.0, q.y + n.1, q.lz + n.2) is Water)
}

proof fn lemma_cell_water_quads(s: Snapshot, lx: int, y: int, lz: int, f: int, j: int)
    requires
        in_chunk(lx, y, lz),
        0 <= f <= 6,
        0 <= j < cell_quads_from(s, lx, y, lz, f).len(),
    ensures
        water_quad_ok(s, cell_quads_from(s, lx, y, lz, f)[j]),
    decreases 6 - f,
{
    if f < 6 {
        if face_shows(s, lx, y, lz, f) {
            if j > 0 {
                lemma_cell_water_quads(s, lx, y, lz, f + 1, j - 1);
            }
        } else {
            lemma_cell_water_quads(s, lx, y, lz, f + 1, j);
        }
    }
}

/// Water is drawn only where it meets something other than water: no drawn
/// face of a water cell is a bottom face or looks into water, so a column of
/// water shows no faces inside it.
pub proof fn lemma_water_faces_away_from_water(s: Snapshot, i: int, j: int)
    requires
        0 <= i <= VOL,
        0 <= j < quads_upto(s, i).len(),
    ensures
        water_quad_ok(s, quads_upto(s, i)[j]),
    decreases i,
{
    if i > 0 {
        let p = quads_upto(s, i - 1);
        let lx = (i - 1) % 16;
        let y = (i - 1) / 256;
        let lz = ((i - 1) / 16) % 16;
        if j < p.len() {
            lemma_water_faces_away_from_water(s, i - 1, j);
        } else if spec_is_cross(s.block(lx, y, lz)) {
            assert(quads_upto(s, i)[j] == cell_quads(s, lx, y, lz)[j - p.len()]);
        } else {
            assert(quads_upto(s, i)[j] == cell_quads_from(s, lx, y, lz, 0)[j - p.len()]);
            lemma_cell_water_quads(s, lx, y, lz, 0, j - p.len());
        }
    }
}

/// Whether face `f` of cell (lx, y, lz) is drawn, and its record.
fn face_quad(s: &Snapshot, lx: i32, y: i32, lz: i32, f: usize) -> (r: Option<Quad>)
    requires
        s.wf(),
        in_chunk(lx as int, y as int, lz as int),
        f < 6,
    ensures
        r is Some == face_shows(*s, lx as int, y as int, lz as int, f as int),
        r matches Some(q) ==> q == spec_quad(*s, lx as int, y as int, lz as int, f as int),
{
    let b = s.get(lx, y, lz);
    let n = face_normal(f);
    let nb = s.get(lx + n.0, y + n.1, lz + n.2);
    if b == Block::Air {
        return None;
    }
    if b == Block::Water {
        if f == 1 || nb == Block::Water || nb.is_opaque() {
            return None;
        }
        let above = s.get(lx, y + 1, lz);
        return Some(
            Quad {
                lx,
                y,
                lz,
                face: f,
                block: b,
                ao0: 3,
                ao1: 3,
                ao2: 3,
                ao3: 3,
                depth: 0,
                water_above: above == Block::Water,
            },
        );
    }
    if nb.is_opaque() || (nb == b && b.merges()) {
        return None;
    }
    let h = s.height(lx + n.0, lz + n.2);
    let d = h - (y + n.1);
    let depth = if d > 0 {
        d
    } else {
        0
    };
    Some(
        Quad {
            lx,
            y,
            lz,
            face: f,
            block: b,
            ao0: ao_level(s, lx, y, lz, f, 0),
            ao1: ao_level(s, lx, y, lz, f, 1),
            ao2: ao_level(s, lx, y, lz, f, 2),
            ao3: ao_level(s, lx, y, lz, f, 3),
            depth,
            water_above: false,
        },
    )
}

/// The faces of the chunk to draw, cell by cell (x fastest, then z, then y)
/// and face by face. Air draws nothing; a cross block draws its two
/// diagonal planes; water draws its top and sides towards cells that are
/// neither water nor opaque; other blocks draw the faces whose neighbour is
/// not opaque, except between two glass blocks.
pub fn chunk_quads(s: &Snapshot) -> (r: Vec<Quad>)
    requires
        s.wf(),
    ensures
        r@ == quads_upto(*s, VOL as int),
        forall|j: int| 0 <= j < r@.len() ==> #[trigger] water_quad_ok(*s, r@[j]),
{
    let mut r: Vec<Quad> = Vec::new();
    let mut i: usize = 0;
    while i < VOL
        invariant
            s.wf(),
            i <= VOL,
            r@ == quads_upto(*s, i as int),
        decreases VOL - i,
    {
        let lx = (i % 16) as i32;
        let lz = ((i / 16) % 16) as i32;
        let y = (i / 256) as i32;
        let ghost r0 = r@;
        let b = s.get(lx, y, lz);
        if b.is_cross() {
            let h = s.height(lx, lz);
            let d = h - y;
            let depth = if d > 0 {
                d
            } else {
                0
            };
            r.push(Quad { lx, y, lz, face: 6, block: b, ao0: 3, ao1: 3, ao2: 3, ao3: 3, depth, water_above: false });
            r.push(Quad { lx, y, lz, face: 7, block: b, ao0: 3, ao1: 3, ao2: 3, ao3: 3, depth, water_above: false });
            proof {
                assert(r@ =~= r0 + cell_quads(*s, lx as int, y as int, lz as int));
            }
            i += 1;
            continue;
        }
        let mut f: usize = 0;
        proof {
            assert(r@ =~= r0 + cell_quads_from(*s, lx as int, y as int, lz as int, 0).take(0));
        }
        while f < 6
            invariant
                s.wf(),
                in_chunk(lx as int, y as int, lz as int),
                f <= 6,
                r@ + cell_quads_from(*s, lx as int, y as int, lz as int, f as int) == r0 + cell_quads_from(
                    *s,
                    lx as int,
                    y as int,
                    lz as int,
                    0,
                ),
            decreases 6 - f,
        {
            let ghost rb = r@;
            match face_quad(s, lx, y, lz, f) {
                Some(q) => {
                    r.push(q);
                    proof {
                        assert(r@ + cell_quads_from(*s, lx as int, y as int, lz as int, f + 1) =~= rb
                            + cell_quads_from(*s, lx as int, y as int, lz as int, f as int));
                    }
                },
                None => {},
            }
            f += 1;
        }
        proof {
            assert(cell_quads_from(*s, lx as int, y as int, lz as int, 6) =~= seq![]);
            assert(r@ =~= r0 + cell_quads(*s, lx as int, y as int, lz as int));
        }
        i += 1;
    }
    proof {
        assert forall|j: int| 0 <= j < r@.len() implies #[trigger] water_quad_ok(*s, r@[j]) by {
            lemma_water_faces_away_from_water(*s, VOL as int, j);
        }
    }
    r
}

} // verus!
