//! Chunk storage: a 16 x 96 x 16 column of blocks with per-cell light,
//! sky light and water level, and the per-column height of the topmost
//! opaque block.
use vstd::prelude::*;
use crate::blocks::{Block, SKY_LIGHT_MAX, block_of, block_id, spec_is_opaque, lemma_block_id_roundtrip};

verus! {

/// Horizontal chunk size.
pub const CS: i32 = 16;
/// World height.
pub const CH: i32 = 96;
/// Sea level.
pub const SEA: i32 = 36;
/// Number of cells in a chunk.
pub const VOL: usize = 24576;
/// Number of columns in a chunk.
pub const COLS: usize = 256;

/// Local coordinates that lie inside a chunk.
pub open spec fn in_chunk(lx: int, y: int, lz: int) -> bool {
    0 <= lx < CS && 0 <= y < CH && 0 <= lz < CS
}

/// Position of cell (lx, y, lz) in the per-cell arrays: x fastest, then z, then y.
pub open spec fn cell_index(lx: int, y: int, lz: int) -> int {
    (y * CS + lz) * CS + lx
}

/// Position of column (lx, lz) in the per-column array.
pub open spec fn col_index(lx: int, lz: int) -> int {
    lz * CS + lx
}

/// The cell index is a bijection between in-chunk coordinates and `0..VOL`.
pub proof fn lemma_cell_index(lx: int, y: int, lz: int)
    requires
        in_chunk(lx, y, lz),
    ensures
        0 <= cell_index(lx, y, lz) < VOL,
        cell_index(lx, y, lz) % 16 == lx,
        (cell_index(lx, y, lz) / 16) % 16 == lz,
        cell_index(lx, y, lz) / 256 == y,
{
}

/// Two in-chunk cells share an index only if they are the same cell.
pub proof fn lemma_cell_index_injective(a: (int, int, int), b: (int, int, int))
    requires
        in_chunk(a.0, a.1, a.2),
        in_chunk(b.0, b.1, b.2),
        cell_index(a.0, a.1, a.2) == cell_index(b.0, b.1, b.2),
    ensures
        a == b,
{
    lemma_cell_index(a.0, a.1, a.2);
    lemma_cell_index(b.0, b.1, b.2);
}

/// Array index of an in-chunk cell.
pub fn idx(lx: i32, y: i32, lz: i32) -> (r: usize)
    requires
        in_chunk(lx as int, y as int, lz as int),
    ensures
        r as int == cell_index(lx as int, y as int, lz as int),
        r < VOL,
{
    ((y * CS + lz) * CS + lx) as usize
}

/// Array index of an in-chunk column.
pub fn col_idx(lx: i32, lz: i32) -> (r: usize)
    requires
        0 <= lx < CS,
        0 <= lz < CS,
    ensures
        r as int == col_index(lx as int, lz as int),
        r < COLS,
{
    (lz * CS + lx) as usize
}

/// One chunk of the world.
pub struct Chunk {
    /// Block ids, `VOL` entries.
    pub blocks: Vec<u8>,
    /// Torch light 0..=15 per cell.
    pub light: Vec<u8>,
    /// Sky light 0..=15 per cell.
    pub skylight: Vec<u8>,
    /// Water level per cell (0 for cells that hold no water).
    pub water_level: Vec<u8>,
    /// Per column: the height of the topmost opaque block (0 if none).
    pub heights: Vec<i16>,
    /// The chunk changed since its mesh was last built.
    pub dirty: bool,
}

/// The block stored at an array position.
pub open spec fn block_in(blocks: Seq<u8>, lx: int, y: int, lz: int) -> Block {
    block_of(blocks[cell_index(lx, y, lz)])
}

/// A stored column height agrees with the column's topmost opaque block.
pub open spec fn height_matches(stored: int, top: int) -> bool {
    stored == top || (stored == -1 && top == 0)
}

/// The highest `y' <= y` (with `y' >= 1`) whose cell in column (lx, lz) is opaque,
/// or 0 when there is none.
pub open spec fn top_opaque_from(blocks: Seq<u8>, lx: int, lz: int, y: int) -> int
    decreases y,
{
    if y <= 0 {
        0
    } else if spec_is_opaque(block_in(blocks, lx, y, lz)) {
        y
    } else {
        top_opaque_from(blocks, lx, lz, y - 1)
    }
}

/// The height of the topmost opaque block in column (lx, lz) (0 if none).
pub open spec fn top_opaque(blocks: Seq<u8>, lx: int, lz: int) -> int {
    top_opaque_from(blocks, lx, lz, CH - 1)
}

impl Chunk {
    /// All arrays have their proper sizes.
    pub open spec fn wf(&self) -> bool {
        &&& self.blocks@.len() == VOL
        &&& self.light@.len() == VOL
        &&& self.skylight@.len() == VOL
        &&& self.water_level@.len() == VOL
        &&& self.heights@.len() == COLS
    }

    /// Every light value is at most the sky-light maximum.
    pub open spec fn light_bounded(&self) -> bool {
        &&& forall|i: int| 0 <= i < self.light@.len() ==> #[trigger] self.light@[i] <= SKY_LIGHT_MAX
        &&& forall|i: int|
            0 <= i < self.skylight@.len() ==> #[trigger] self.skylight@[i] <= SKY_LIGHT_MAX
    }

    /// Each column height is the height of the column's topmost opaque block
    /// (0 when there is none). A column whose only opaque block was the bottom
    /// one and lost it through an edit records -1.
    pub open spec fn heights_ok(&self) -> bool {
        forall|lx: int, lz: int|
            0 <= lx < CS && 0 <= lz < CS ==> height_matches(
                #[trigger] self.heights@[col_index(lx, lz)] as int,
                top_opaque(self.blocks@, lx, lz),
            )
    }

    /// Every stored column height is exactly the height of the column's
    /// topmost opaque block (0 if none).
    pub open spec fn heights_exact(&self) -> bool {
        forall|lx: int, lz: int|
            0 <= lx < CS && 0 <= lz < CS ==> #[trigger] self.heights@[col_index(lx, lz)] as int == top_opaque(
                self.blocks@,
                lx,
                lz,
            )
    }

    /// The block at local coordinates.
    pub open spec fn block_at(&self, lx: int, y: int, lz: int) -> Block {
        block_in(self.blocks@, lx, y, lz)
    }

    /// An empty chunk: all air, no light, no water, all heights 0.
    pub fn empty() -> (c: Chunk)
        ensures
            c.wf(),
            c.light_bounded(),
            c.heights_ok(),
            forall|i: int| 0 <= i < VOL ==> c.blocks@[i] == 0 && c.light@[i] == 0
                && c.skylight@[i] == 0 && c.water_level@[i] == 0,
            c.dirty,
    {
        let blocks = vec_filled(0u8, VOL);
        let mut heights: Vec<i16> = Vec::new();
        let mut k: usize = 0;
        while k < COLS
            invariant
                k <= COLS,
                heights@.len() == k,
                forall|i: int| 0 <= i < k ==> heights@[i] == 0,
            decreases COLS - k,
        {
            heights.push(0);
            k += 1;
        }
        let c = Chunk {
            blocks,
            light: vec_filled(0u8, VOL),
            skylight: vec_filled(0u8, VOL),
            water_level: vec_filled(0u8, VOL),
            heights,
            dirty: true,
        };
        assert forall|lx: int, lz: int| 0 <= lx < CS && 0 <= lz < CS implies #[trigger] c.heights@[col_index(lx, lz)]
            == top_opaque(c.blocks@, lx, lz) by {
            lemma_top_opaque_all_air(c.blocks@, lx, lz, CH - 1);
        }
        c
    }

    /// The block at local coordinates.
    pub fn get(&self, lx: i32, y: i32, lz: i32) -> (b: Block)
        requires
            self.wf(),
            in_chunk(lx as int, y as int, lz as int),
        ensures
            b == self.block_at(lx as int, y as int, lz as int),
    {
        Block::from_u8(self.blocks[idx(lx, y, lz)])
    }

    /// Torch light at local coordinates.
    pub fn light_at(&self, lx: i32, y: i32, lz: i32) -> (r: u8)
        requires
            self.wf(),
            in_chunk(lx as int, y as int, lz as int),
        ensures
            r == self.light@[cell_index(lx as int, y as int, lz as int)],
    {
        self.light[idx(lx, y, lz)]
    }

    /// Sky light at local coordinates.
    pub fn skylight_at(&self, lx: i32, y: i32, lz: i32) -> (r: u8)
        requires
            self.wf(),
            in_chunk(lx as int, y as int, lz as int),
        ensures
            r == self.skylight@[cell_index(lx as int, y as int, lz as int)],
    {
        self.skylight[idx(lx, y, lz)]
    }

    /// Water level at local coordinates.
    pub fn water_level_at(&self, lx: i32, y: i32, lz: i32) -> (r: u8)
        requires
            self.wf(),
            in_chunk(lx as int, y as int, lz as int),
        ensures
            r == self.water_level@[cell_index(lx as int, y as int, lz as int)],
    {
        self.water_level[idx(lx, y, lz)]
    }

    /// Stored height of the topmost opaque block of column (lx, lz).
    pub fn height(&self, lx: i32, lz: i32) -> (r: i32)
        requires
            self.wf(),
            0 <= lx < CS,
            0 <= lz < CS,
        ensures
            r == self.heights@[col_index(lx as int, lz as int)],
    {
        self.heights[col_idx(lx, lz)] as i32
    }

    /// Stores block `b` at (lx, y, lz), clears the water level there unless
    /// `b` is water, and updates the column height: an opaque block above the
    /// stored height raises it; clearing the block at the stored height lowers
    /// it to the next opaque block below (scanning down to 1, else to 0; a
    /// cleared bottom block gives -1).
    pub fn set_local(&mut self, lx: i32, y: i32, lz: i32, b: Block)
        requires
            old(self).wf(),
            in_chunk(lx as int, y as int, lz as int),
        ensures
            final(self).wf(),
            final(self).blocks@ == old(self).blocks@.update(
                cell_index(lx as int, y as int, lz as int),
                block_id(b),
            ),
            final(self).water_level@ == if b is Water {
                old(self).water_level@
            } else {
                old(self).water_level@.update(cell_index(lx as int, y as int, lz as int), 0)
            },
            final(self).light@ == old(self).light@,
            final(self).skylight@ == old(self).skylight@,
            final(self).dirty == old(self).dirty,
            forall|j: int|
                0 <= j < COLS && j != col_index(lx as int, lz as int)
                    ==> #[trigger] final(self).heights@[j] == old(self).heights@[j],
            old(self).heights_ok() ==> final(self).heights_ok(),
            old(self).heights_exact() && y >= 1 ==> final(self).heights_exact(),
    {
        let old_b = self.get(lx, y, lz);
        let i0 = idx(lx, y, lz);
        let ghost ob = self.blocks@;
        self.blocks.set(i0, b.to_u8());
        if b != Block::Water {
            self.water_level.set(i0, 0);
        }
        let ci = col_idx(lx, lz);
        let h = self.heights[ci] as i32;
        let ghost nb = self.blocks@;
        proof {
            lemma_block_id_roundtrip(b);
            assert(block_in(nb, lx as int, y as int, lz as int) == b);
            assert forall|k: int| 0 <= k < CH && k != y implies #[trigger] block_in(nb, lx as int, k, lz as int)
                == block_in(ob, lx as int, k, lz as int) by {
                lemma_cell_index(lx as int, k, lz as int);
                lemma_cell_index(lx as int, y as int, lz as int);
                if cell_index(lx as int, k, lz as int) == cell_index(lx as int, y as int, lz as int) {
                    lemma_cell_index_injective((lx as int, k, lz as int), (lx as int, y as int, lz as int));
                }
            }
        }
        if b.is_opaque() && y > h {
            self.heights.set(ci, y as i16);
        } else if !b.is_opaque() && y == h {
            let mut ny: i32 = y - 1;
            while ny > 0 && !self.get(lx, ny, lz).is_opaque()
                invariant
                    -1 <= ny < y,
                    y >= 1 ==> ny >= 0,
                    self.wf(),
                    self.blocks@ == nb,
                    in_chunk(lx as int, y as int, lz as int),
                    forall|k: int| ny < k < y ==> !spec_is_opaque(#[trigger] block_in(nb, lx as int, k, lz as int)),
                decreases ny + 1,
            {
                ny -= 1;
            }
            self.heights.set(ci, ny as i16);
            assert(y >= 1 ==> self.heights@[ci as int] >= 0);
        }
        proof {
            let lxi = lx as int;
            let lzi = lz as int;
            lemma_cell_index(lxi, y as int, lzi);
            // Columns other than (lx, lz) keep their blocks.
            assert forall|ax: int, az: int| 0 <= ax < CS && 0 <= az < CS && (ax != lxi || az != lzi)
                implies top_opaque(nb, ax, az) == top_opaque(ob, ax, az) by {
                assert forall|k: int| 1 <= k <= CH - 1 implies spec_is_opaque(#[trigger] block_in(nb, ax, k, az))
                    == spec_is_opaque(block_in(ob, ax, k, az)) by {
                    lemma_cell_index(ax, k, az);
                    if cell_index(ax, k, az) == cell_index(lxi, y as int, lzi) {
                        lemma_cell_index_injective((ax, k, az), (lxi, y as int, lzi));
                    }
                }
                lemma_top_opaque_from_agree(nb, ob, ax, az, CH - 1);
            }
            if old(self).heights_exact() {
                assert forall|ax: int, az: int| 0 <= ax < CS && 0 <= az < CS implies height_matches(
                    #[trigger] old(self).heights@[col_index(ax, az)] as int,
                    top_opaque(ob, ax, az),
                ) by {}
            }
            if old(self).heights_ok() {
                let t_old = top_opaque(ob, lxi, lzi);
                let t_new = top_opaque(nb, lxi, lzi);
                lemma_top_opaque_from_props(ob, lxi, lzi, CH - 1);
                lemma_top_opaque_from_props(nb, lxi, lzi, CH - 1);
                assert(height_matches(h as int, t_old));
                if spec_is_opaque(b) && y > h {
                    if y >= 1 {
                        lemma_top_opaque_from_hit(nb, lxi, lzi, CH - 1, y as int);
                    } else {
                        assert(y == 0);
                    }
                } else if !spec_is_opaque(b) && y == h {
                    if y >= 1 {
                        assert forall|k: int| y <= k <= CH - 1 implies !spec_is_opaque(
                            #[trigger] block_in(nb, lxi, k, lzi),
                        ) by {
                            if k > y {
                                assert(block_in(nb, lxi, k, lzi) == block_in(ob, lxi, k, lzi));
                            }
                        }
                        lemma_top_opaque_from_skip(nb, lxi, lzi, CH - 1, (y - 1) as int);
                        let ny = self.heights@[col_index(lxi, lzi)] as int;
                        if ny >= 0 {
                            lemma_top_opaque_from_skip(nb, lxi, lzi, (y - 1) as int, ny);
                            if ny > 0 {
                                assert(spec_is_opaque(block_in(nb, lxi, ny, lzi)));
                            }
                        }
                    } else {
                        assert forall|k: int| 1 <= k <= CH - 1 implies !spec_is_opaque(
                            #[trigger] block_in(nb, lxi, k, lzi),
                        ) by {
                            assert(block_in(nb, lxi, k, lzi) == block_in(ob, lxi, k, lzi));
                        }
                        lemma_top_opaque_from_none(nb, lxi, lzi, CH - 1);
                    }
                } else {
                    // The stored height stays; so does the topmost opaque block.
                    if t_old > 0 && y != t_old {
                        assert(block_in(nb, lxi, t_old, lzi) == block_in(ob, lxi, t_old, lzi));
                        assert forall|k: int| t_old < k <= CH - 1 implies !spec_is_opaque(
                            #[trigger] block_in(nb, lxi, k, lzi),
                        ) by {
                            if k != y {
                                assert(block_in(nb, lxi, k, lzi) == block_in(ob, lxi, k, lzi));
                            }
                        }
                        lemma_top_opaque_from_hit(nb, lxi, lzi, CH - 1, t_old);
                    } else if t_old > 0 {
                        assert(y == t_old);
                        lemma_top_opaque_from_hit(nb, lxi, lzi, CH - 1, t_old);
                    } else {
                        assert forall|k: int| 1 <= k <= CH - 1 implies !spec_is_opaque(
                            #[trigger] block_in(nb, lxi, k, lzi),
                        ) by {
                            if k != y {
                                assert(block_in(nb, lxi, k, lzi) == block_in(ob, lxi, k, lzi));
                            }
                        }
                        lemma_top_opaque_from_none(nb, lxi, lzi, CH - 1);
                    }
                }
                assert forall|ax: int, az: int| 0 <= ax < CS && 0 <= az < CS implies height_matches(
                    #[trigger] self.heights@[col_index(ax, az)] as int,
                    top_opaque(self.blocks@, ax, az),
                ) by {
                    if ax != lxi || az != lzi {
                        assert(col_index(ax, az) != col_index(lxi, lzi));
                        assert(height_matches(old(self).heights@[col_index(ax, az)] as int, top_opaque(ob, ax, az)));
                    }
                }
                if old(self).heights_exact() && y >= 1 {
                    assert(self.heights@[col_index(lxi, lzi)] >= 0) by {
                        lemma_top_opaque_from_props(ob, lxi, lzi, CH - 1);
                        assert(h as int == t_old);
                        if !(spec_is_opaque(b) && y > h) && !(!spec_is_opaque(b) && y == h) {
                            assert(self.heights@[col_index(lxi, lzi)] == old(self).heights@[col_index(lxi, lzi)]);
                        }
                    }
                    assert forall|ax: int, az: int| 0 <= ax < CS && 0 <= az < CS implies #[trigger] self.heights@[col_index(
                        ax,
                        az,
                    )] as int == top_opaque(self.blocks@, ax, az) by {
                        assert(height_matches(self.heights@[col_index(ax, az)] as int, top_opaque(self.blocks@, ax, az)));
                        if ax != lxi || az != lzi {
                            assert(col_index(ax, az) != col_index(lxi, lzi));
                            assert(old(self).heights@[col_index(ax, az)] as int == top_opaque(ob, ax, az));
                        }
                    }
                }
            }
        }
    }

    /// Sets the water level of (lx, y, lz) to `v`; the cell becomes water
    /// when `v` is positive and air otherwise.
    pub fn set_water_cell(&mut self, lx: i32, y: i32, lz: i32, v: u8)
        requires
            old(self).wf(),
            in_chunk(lx as int, y as int, lz as int),
        ensures
            final(self).wf(),
            final(self).blocks@ == old(self).blocks@.update(
                cell_index(lx as int, y as int, lz as int),
                if v > 0 {
                    7u8
                } else {
                    0u8
                },
            ),
            final(self).water_level@ == old(self).water_level@.update(cell_index(lx as int, y as int, lz as int), v),
            final(self).light@ == old(self).light@,
            final(self).skylight@ == old(self).skylight@,
            final(self).heights@ == old(self).heights@,
            final(self).dirty == old(self).dirty,
            old(self).heights_ok() && !spec_is_opaque(old(self).block_at(lx as int, y as int, lz as int))
                ==> final(self).heights_ok(),
    {
        let i = idx(lx, y, lz);
        let ghost ob = self.blocks@;
        self.water_level.set(i, v);
        self.blocks.set(i, if v > 0 { 7u8 } else { 0u8 });
        proof {
            let nb = self.blocks@;
            lemma_cell_index(lx as int, y as int, lz as int);
            if old(self).heights_ok() && !spec_is_opaque(block_in(ob, lx as int, y as int, lz as int)) {
                assert(!spec_is_opaque(block_in(nb, lx as int, y as int, lz as int)));
                assert forall|ax: int, az: int| 0 <= ax < CS && 0 <= az < CS implies height_matches(
                    #[trigger] self.heights@[col_index(ax, az)] as int,
                    top_opaque(self.blocks@, ax, az),
                ) by {
                    assert forall|k: int| 1 <= k <= CH - 1 implies spec_is_opaque(#[trigger] block_in(nb, ax, k, az))
                        == spec_is_opaque(block_in(ob, ax, k, az)) by {
                        lemma_cell_index(ax, k, az);
                        if cell_index(ax, k, az) == cell_index(lx as int, y as int, lz as int) {
                            lemma_cell_index_injective((ax, k, az), (lx as int, y as int, lz as int));
                        }
                    }
                    lemma_top_opaque_from_agree(nb, ob, ax, az, CH - 1);
                    assert(height_matches(old(self).heights@[col_index(ax, az)] as int, top_opaque(ob, ax, az)));
                }
            }
        }
    }

    /// Recomputes the height of column (lx, lz) by scanning down from the top.
    pub fn recompute_height(&mut self, lx: i32, lz: i32)
        requires
            old(self).wf(),
            0 <= lx < CS,
            0 <= lz < CS,
        ensures
            final(self).wf(),
            final(self).blocks@ == old(self).blocks@,
            final(self).light@ == old(self).light@,
            final(self).skylight@ == old(self).skylight@,
            final(self).water_level@ == old(self).water_level@,
            final(self).dirty == old(self).dirty,
            final(self).heights@ == old(self).heights@.update(
                col_index(lx as int, lz as int),
                top_opaque(old(self).blocks@, lx as int, lz as int) as i16,
            ),
    {
        let mut y: i32 = CH - 1;
        while y > 0 && !self.get(lx, y, lz).is_opaque()
            invariant
                0 <= y < CH,
                self.wf(),
                0 <= lx < CS,
                0 <= lz < CS,
                top_opaque(self.blocks@, lx as int, lz as int) == top_opaque_from(
                    self.blocks@,
                    lx as int,
                    lz as int,
                    y as int,
                ),
            decreases y,
        {
            y -= 1;
        }
        let hh = y;
        let ci = col_idx(lx, lz);
        self.heights.set(ci, hh as i16);
    }
}

/// A vector of `n` copies of `v`.
pub fn vec_filled(v: u8, n: usize) -> (r: Vec<u8>)
    ensures
        r@.len() == n,
        forall|i: int| 0 <= i < n ==> r@[i] == v,
{
    let mut r: Vec<u8> = Vec::with_capacity(n);
    let mut k: usize = 0;
    while k < n
        invariant
            k <= n,
            r@.len() == k,
            forall|i: int| 0 <= i < k ==> r@[i] == v,
        decreases n - k,
    {
        r.push(v);
        k += 1;
    }
    r
}

/// In a column without opaque cells the topmost opaque height is 0.
pub proof fn lemma_top_opaque_all_air(blocks: Seq<u8>, lx: int, lz: int, y: int)
    requires
        blocks.len() == VOL,
        forall|i: int| 0 <= i < blocks.len() ==> blocks[i] == 0,
        0 <= lx < CS,
        0 <= lz < CS,
        y < CH,
    ensures
        top_opaque_from(blocks, lx, lz, y) == 0,
    decreases y,
{
    if y > 0 {
        lemma_cell_index(lx, y, lz);
        lemma_top_opaque_all_air(blocks, lx, lz, y - 1);
    }
}

/// The scan result lies in `0..=y` and, when positive, names an opaque cell
/// with no opaque cell above it up to `y`.
pub proof fn lemma_top_opaque_from_props(blocks: Seq<u8>, lx: int, lz: int, y: int)
    ensures
        y >= 0 ==> 0 <= top_opaque_from(blocks, lx, lz, y) <= y,
        y < 0 ==> top_opaque_from(blocks, lx, lz, y) == 0,
        top_opaque_from(blocks, lx, lz, y) > 0 ==> spec_is_opaque(
            block_in(blocks, lx, top_opaque_from(blocks, lx, lz, y), lz),
        ),
        forall|k: int|
            top_opaque_from(blocks, lx, lz, y) < k <= y ==> !spec_is_opaque(
                #[trigger] block_in(blocks, lx, k, lz),
            ),
    decreases y,
{
    if y > 0 && !spec_is_opaque(block_in(blocks, lx, y, lz)) {
        lemma_top_opaque_from_props(blocks, lx, lz, y - 1);
    }
}

/// The scan from `y` is characterised by the opacity of the cells `1..=y`:
/// two columns that agree on them give the same result.
pub proof fn lemma_top_opaque_from_agree(a: Seq<u8>, b: Seq<u8>, lx: int, lz: int, y: int)
    requires
        forall|k: int|
            1 <= k <= y ==> spec_is_opaque(#[trigger] block_in(a, lx, k, lz)) == spec_is_opaque(
                block_in(b, lx, k, lz),
            ),
    ensures
        top_opaque_from(a, lx, lz, y) == top_opaque_from(b, lx, lz, y),
    decreases y,
{
    if y > 0 {
        assert(spec_is_opaque(block_in(a, lx, y, lz)) == spec_is_opaque(block_in(b, lx, y, lz)));
        lemma_top_opaque_from_agree(a, b, lx, lz, y - 1);
    }
}

/// If cell `t` is opaque and no cell in `t+1..=y` is, the scan from `y` finds `t`.
pub proof fn lemma_top_opaque_from_hit(blocks: Seq<u8>, lx: int, lz: int, y: int, t: int)
    requires
        1 <= t <= y,
        spec_is_opaque(block_in(blocks, lx, t, lz)),
        forall|k: int| t < k <= y ==> !spec_is_opaque(#[trigger] block_in(blocks, lx, k, lz)),
    ensures
        top_opaque_from(blocks, lx, lz, y) == t,
    decreases y,
{
    if y > t {
        assert(!spec_is_opaque(block_in(blocks, lx, y, lz)));
        lemma_top_opaque_from_hit(blocks, lx, lz, y - 1, t);
    }
}

/// Cells `t+1..=y` without opaque blocks do not change the scan.
pub proof fn lemma_top_opaque_from_skip(blocks: Seq<u8>, lx: int, lz: int, y: int, t: int)
    requires
        0 <= t <= y,
        forall|k: int| t < k <= y ==> !spec_is_opaque(#[trigger] block_in(blocks, lx, k, lz)),
    ensures
        top_opaque_from(blocks, lx, lz, y) == top_opaque_from(blocks, lx, lz, t),
    decreases y,
{
    if y > t {
        assert(!spec_is_opaque(block_in(blocks, lx, y, lz)));
        lemma_top_opaque_from_skip(blocks, lx, lz, y - 1, t);
    }
}

/// If no cell in `1..=y` is opaque the scan from `y` gives 0.
pub proof fn lemma_top_opaque_from_none(blocks: Seq<u8>, lx: int, lz: int, y: int)
    requires
        forall|k: int| 1 <= k <= y ==> !spec_is_opaque(#[trigger] block_in(blocks, lx, k, lz)),
    ensures
        top_opaque_from(blocks, lx, lz, y) == 0,
    decreases y,
{
    if y > 0 {
        assert(!spec_is_opaque(block_in(blocks, lx, y, lz)));
        lemma_top_opaque_from_none(blocks, lx, lz, y - 1);
    }
}

} // verus!
