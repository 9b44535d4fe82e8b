//! Terrain assembly: the blocks of a freshly generated chunk, built from the
//! surface data of each column (height and top block), the cave mask, the
//! position hashes (coal, plants, rounded canopy corners) and the list of
//! trees that stand in or next to the chunk.
use vstd::prelude::*;
use crate::blocks::{Block, WATER_MAX, block_id, block_of};
use crate::chunk::{
    Chunk, CS, CH, SEA, VOL, COLS, in_chunk, cell_index, col_index, idx, col_idx, top_opaque, vec_filled,
    lemma_top_opaque_from_props,
};
use crate::noise::{hash24, hash24_3d, spec_hash24, spec_hash24_3d};
use crate::world::CHUNK_LIMIT;

verus! {

/// Stone turns into coal where the cell's 24-bit hash is below this bound
/// (2 % of the hash range).
pub const COAL_BOUND: u32 = 335545;

/// Hash bounds that pick the plant on a grass column: red flower below the
/// first, yellow flower below the second, tall grass below the third.
pub const RED_FLOWER_BOUND: u32 = 201327;
pub const YELLOW_FLOWER_BOUND: u32 = 369099;
pub const TALL_GRASS_BOUND: u32 = 1761608;

/// A corner of a wide canopy layer stays empty where its hash is below this
/// bound (60 % of the hash range), which rounds the crown.
pub const LEAF_CORNER_BOUND: u32 = 10066330;

/// World coordinate of local coordinate `l` in chunk `c`.
pub open spec fn world_coord(c: int, l: int) -> i32 {
    (c * 16 + l) as i32
}

/// The block right under the surface: sand under sand, dirt otherwise.
pub open spec fn sub_of(top: Block) -> Block {
    if top is Sand {
        Block::Sand
    } else {
        Block::Dirt
    }
}

/// The layered terrain at height `y` of a column with surface height `h` and
/// top block `top`: bedrock stone at 0, stone (sometimes coal) up to four
/// below the surface, then the sub-surface block, the top block, sea water
/// up to sea level, and air.
pub open spec fn layer_of(seed: u32, wx: i32, y: int, wz: i32, h: int, top: Block) -> Block {
    if y == 0 {
        Block::Stone
    } else if y < h - 3 {
        if spec_hash24_3d(wx, y as i32, wz, seed ^ 0xC0A1u32) < COAL_BOUND {
            Block::Coal
        } else {
            Block::Stone
        }
    } else if y < h {
        sub_of(top)
    } else if y == h {
        top
    } else if y <= SEA {
        Block::Water
    } else {
        Block::Air
    }
}

/// Caves only carve ground (never air, water or the bedrock layer), and in
/// columns whose surface is not well above the sea they keep the three
/// layers under the surface, so that no water hangs over a cave.
pub open spec fn carves(b: Block, y: int, h: int, cave: bool) -> bool {
    !(b is Air) && !(b is Water) && y >= 1 && (h > SEA + 2 || y < h - 3) && cave
}

/// The layered terrain after cave carving.
pub open spec fn base_of(seed: u32, wx: i32, y: int, wz: i32, h: int, top: Block, cave: bool) -> Block {
    let b = layer_of(seed, wx, y, wz, h, top);
    if carves(b, y, h, cave) {
        Block::Air
    } else {
        b
    }
}

/// The plant that a grass column with hash `r` carries, if any.
pub open spec fn plant_of(r: u32) -> Option<Block> {
    if r < RED_FLOWER_BOUND {
        Some(Block::FlowerRed)
    } else if r < YELLOW_FLOWER_BOUND {
        Some(Block::FlowerYellow)
    } else if r < TALL_GRASS_BOUND {
        Some(Block::TallGrass)
    } else {
        None
    }
}

/// The block of cell (lx, y, lz) of chunk (cx, cz) before trees: the carved
/// terrain, with a plant on top of a grass surface.
pub open spec fn ground_of(
    seed: u32,
    cx: int,
    cz: int,
    cols: Seq<(i32, Block)>,
    caves: Seq<bool>,
    lx: int,
    y: int,
    lz: int,
) -> Block {
    let h = cols[col_index(lx, lz)].0 as int;
    let top = cols[col_index(lx, lz)].1;
    let wx = world_coord(cx, lx);
    let wz = world_coord(cz, lz);
    let plant = plant_of(spec_hash24(wx, wz, seed ^ 0xF10Au32));
    if y == h + 1 && h + 1 < CH && base_of(seed, wx, h, wz, h, top, caves[cell_index(lx, h, lz)]) is Grass
        && plant is Some {
        plant.unwrap()
    } else {
        base_of(seed, wx, y, wz, h, top, caves[cell_index(lx, y, lz)])
    }
}

/// A tree as (local x, local z, ground height, trunk height); its column may
/// lie up to two blocks outside the chunk, since its crown reaches that far.
pub open spec fn tree_ok(t: (i32, i32, i32, i32)) -> bool {
    &&& -2 <= t.0 < CS + 2
    &&& -2 <= t.1 < CS + 2
    &&& 0 <= t.2 < CH
    &&& 0 <= t.3 <= 8
}

pub open spec fn abs_int(v: int) -> int {
    if v < 0 {
        -v
    } else {
        v
    }
}

/// Half-width of the crown layer `ly` blocks above the ground cell of a tree
/// with trunk height `th`: 2 for the two lower layers, 1 for the two upper.
pub open spec fn crown_radius(ly: int, th: int) -> int {
    if ly == th - 1 || ly == th {
        2
    } else {
        1
    }
}

/// Cell (lx, y, lz) belongs to the crown of tree `t`: one of the four layers
/// above the trunk top, within the layer's square, not the trunk itself,
/// and not a corner that is left out (by hash for the wide layers, always
/// for the top layer).
pub open spec fn leaf_at(seed: u32, cx: int, cz: int, t: (i32, i32, i32, i32), lx: int, y: int, lz: int) -> bool {
    let dx = lx - t.0;
    let dz = lz - t.1;
    let ly = y - t.2 - 1;
    let th = t.3 as int;
    let r = crown_radius(ly, th);
    let wx = cx * 16 + t.0;
    let wz = cz * 16 + t.1;
    &&& th - 1 <= ly <= th + 2
    &&& -r <= dx <= r
    &&& -r <= dz <= r
    &&& !(dx == 0 && dz == 0 && ly <= th)
    &&& !(abs_int(dx) == r && abs_int(dz) == r && ((r == 2 && spec_hash24(
        (wx + dx) as i32,
        (wz + dz * 7 + ly) as i32,
        seed ^ 0x3A3u32,
    ) < LEAF_CORNER_BOUND) || (r == 1 && ly == th + 2)))
}

/// Cell (lx, y, lz) after tree `t` grows over block `prev`: dirt at the root,
/// log along the trunk, leaves in the crown where there was air.
pub open spec fn tree_of(prev: Block, seed: u32, cx: int, cz: int, t: (i32, i32, i32, i32), lx: int, y: int, lz: int) -> Block {
    let on_trunk = lx == t.0 && lz == t.1;
    if on_trunk && y == t.2 {
        Block::Dirt
    } else if on_trunk && t.2 + 1 <= y <= t.2 + t.3 {
        Block::Log
    } else if leaf_at(seed, cx, cz, t, lx, y, lz) && prev is Air {
        Block::Leaves
    } else {
        prev
    }
}

/// Cell (lx, y, lz) is the root or a trunk cell of tree `t`.
pub open spec fn on_tree_stem(t: (i32, i32, i32, i32), lx: int, y: int, lz: int) -> bool {
    lx == t.0 && lz == t.1 && t.2 <= y <= t.2 + t.3
}

/// A growing tree only fills air with leaves: a cell that holds anything
/// but air keeps it unless it is the tree's own root or trunk; and whatever
/// a tree puts into a cell is its block before, dirt or log on the stem, or
/// leaves where there was air.
pub proof fn lemma_tree_spares_blocks(prev: Block, seed: u32, cx: int, cz: int, t: (i32, i32, i32, i32), lx: int, y: int, lz: int)
    requires
        tree_ok(t),
    ensures
        !(prev is Air) && !on_tree_stem(t, lx, y, lz) ==> tree_of(prev, seed, cx, cz, t, lx, y, lz) == prev,
        tree_of(prev, seed, cx, cz, t, lx, y, lz) == prev || (on_tree_stem(t, lx, y, lz) && (tree_of(
            prev,
            seed,
            cx,
            cz,
            t,
            lx,
            y,
            lz,
        ) is Dirt || tree_of(prev, seed, cx, cz, t, lx, y, lz) is Log)) || (prev is Air && tree_of(prev, seed, cx, cz, t, lx, y, lz) is Leaves),
{
}

/// In a generated chunk a later tree never overwrites what earlier growth
/// left in a cell, other than air, except on its own root and trunk: two
/// trees side by side keep each other's trunks.
pub proof fn lemma_later_tree_spares_blocks(
    b: Block,
    trees: Seq<(i32, i32, i32, i32)>,
    t: (i32, i32, i32, i32),
    seed: u32,
    cx: int,
    cz: int,
    lx: int,
    y: int,
    lz: int,
)
    requires
        tree_ok(t),
        !(trees_over(b, trees, seed, cx, cz, lx, y, lz) is Air),
        !on_tree_stem(t, lx, y, lz),
    ensures
        trees_over(b, trees.push(t), seed, cx, cz, lx, y, lz) == trees_over(b, trees, seed, cx, cz, lx, y, lz),
{
    assert(trees.push(t).drop_last() =~= trees);
    lemma_tree_spares_blocks(trees_over(b, trees, seed, cx, cz, lx, y, lz), seed, cx, cz, t, lx, y, lz);
}

/// Cell (lx, y, lz) after the trees grow one after the other, in list order.
pub open spec fn trees_over(
    b: Block,
    trees: Seq<(i32, i32, i32, i32)>,
    seed: u32,
    cx: int,
    cz: int,
    lx: int,
    y: int,
    lz: int,
) -> Block
    decreases trees.len(),
{
    if trees.len() == 0 {
        b
    } else {
        tree_of(trees_over(b, trees.drop_last(), seed, cx, cz, lx, y, lz), seed, cx, cz, trees.last(), lx, y, lz)
    }
}

/// The generated block of cell (lx, y, lz) of chunk (cx, cz).
#[verifier::opaque]
pub open spec fn generated(
    seed: u32,
    cx: int,
    cz: int,
    cols: Seq<(i32, Block)>,
    caves: Seq<bool>,
    trees: Seq<(i32, i32, i32, i32)>,
    lx: int,
    y: int,
    lz: int,
) -> Block {
    trees_over(ground_of(seed, cx, cz, cols, caves, lx, y, lz), trees, seed, cx, cz, lx, y, lz)
}

/// The layered terrain block at height `y` of a column.
pub fn layer_block(seed: u32, wx: i32, y: i32, wz: i32, h: i32, top: Block) -> (b: Block)
    requires
        0 <= y < CH,
        0 <= h < CH,
    ensures
        b == layer_of(seed, wx, y as int, wz, h as int, top),
{
    if y == 0 {
        Block::Stone
    } else if y < h - 3 {
        if hash24_3d(wx, y, wz, seed ^ 0xC0A1) < COAL_BOUND {
            Block::Coal
        } else {
            Block::Stone
        }
    } else if y < h {
        if top == Block::Sand {
            Block::Sand
        } else {
            Block::Dirt
        }
    } else if y == h {
        top
    } else if y <= SEA {
        Block::Water
    } else {
        Block::Air
    }
}

/// The terrain block at height `y` of a column after cave carving; `cave`
/// tells whether the cave noise opens this cell.
pub fn base_block(seed: u32, wx: i32, y: i32, wz: i32, h: i32, top: Block, cave: bool) -> (b: Block)
    requires
        0 <= y < CH,
        0 <= h < CH,
    ensures
        b == base_of(seed, wx, y as int, wz, h as int, top, cave),
{
    let b = layer_block(seed, wx, y, wz, h, top);
    if b != Block::Air && b != Block::Water && y >= 1 && (h > SEA + 2 || y < h - 3) && cave {
        Block::Air
    } else {
        b
    }
}

/// The plant chosen by a column hash, if any.
pub fn plant_for(r: u32) -> (p: Option<Block>)
    ensures
        p == plant_of(r),
{
    if r < RED_FLOWER_BOUND {
        Some(Block::FlowerRed)
    } else if r < YELLOW_FLOWER_BOUND {
        Some(Block::FlowerYellow)
    } else if r < TALL_GRASS_BOUND {
        Some(Block::TallGrass)
    } else {
        None
    }
}

/// The block of a cell before trees.
fn ground_block(
    seed: u32,
    cx: i32,
    cz: i32,
    cols: &Vec<(i32, Block)>,
    caves: &Vec<bool>,
    lx: i32,
    y: i32,
    lz: i32,
) -> (b: Block)
    requires
        -CHUNK_LIMIT <= cx <= CHUNK_LIMIT,
        -CHUNK_LIMIT <= cz <= CHUNK_LIMIT,
        cols@.len() == COLS,
        caves@.len() == VOL,
        forall|j: int| 0 <= j < COLS ==> 0 <= #[trigger] cols@[j].0 < CH,
        in_chunk(lx as int, y as int, lz as int),
    ensures
        b == ground_of(seed, cx as int, cz as int, cols@, caves@, lx as int, y as int, lz as int),
{
    let (h, top) = cols[col_idx(lx, lz)];
    let wx = cx * CS + lx;
    let wz = cz * CS + lz;
    if y == h + 1 && h + 1 < CH {
        let below = base_block(seed, wx, h, wz, h, top, caves[idx(lx, h, lz)]);
        if below == Block::Grass {
            match plant_for(hash24(wx, wz, seed ^ 0xF10A)) {
                Some(p) => {
                    return p;
                },
                None => {},
            }
        }
    }
    base_block(seed, wx, y, wz, h, top, caves[idx(lx, y, lz)])
}

/// The block of a cell after tree `t` grows over `prev`.
fn tree_block(prev: Block, seed: u32, cx: i32, cz: i32, t: (i32, i32, i32, i32), lx: i32, y: i32, lz: i32) -> (b: Block)
    requires
        -CHUNK_LIMIT <= cx <= CHUNK_LIMIT,
        -CHUNK_LIMIT <= cz <= CHUNK_LIMIT,
        tree_ok(t),
        in_chunk(lx as int, y as int, lz as int),
    ensures
        b == tree_of(prev, seed, cx as int, cz as int, t, lx as int, y as int, lz as int),
{
    let (tx, tz, h, th) = t;
    let dx = lx - tx;
    let dz = lz - tz;
    if dx == 0 && dz == 0 && y == h {
        return Block::Dirt;
    }
    if dx == 0 && dz == 0 && h + 1 <= y && y <= h + th {
        return Block::Log;
    }
    if prev != Block::Air {
        return prev;
    }
    let ly = y - h - 1;
    if ly < th - 1 || ly > th + 2 {
        return prev;
    }
    let r: i32 = if ly == th - 1 || ly == th {
        2
    } else {
        1
    };
    if dx < -r || dx > r || dz < -r || dz > r {
        return prev;
    }
    if dx == 0 && dz == 0 && ly <= th {
        return prev;
    }
    let adx = if dx < 0 {
        -dx
    } else {
        dx
    };
    let adz = if dz < 0 {
        -dz
    } else {
        dz
    };
    if adx == r && adz == r {
        if r == 2 {
            let wx = cx * CS + tx;
            let wz = cz * CS + tz;
            if hash24(wx + dx, wz + dz * 7 + ly, seed ^ 0x3A3) < LEAF_CORNER_BOUND {
                return prev;
            }
        }
        if r == 1 && ly == th + 2 {
            return prev;
        }
    }
    Block::Leaves
}

/// The block of a cell after all trees grow, in list order.
fn grown_block(
    g: Block,
    seed: u32,
    cx: i32,
    cz: i32,
    trees: &Vec<(i32, i32, i32, i32)>,
    lx: i32,
    y: i32,
    lz: i32,
) -> (b: Block)
    requires
        -CHUNK_LIMIT <= cx <= CHUNK_LIMIT,
        -CHUNK_LIMIT <= cz <= CHUNK_LIMIT,
        forall|j: int| 0 <= j < trees@.len() ==> tree_ok(#[trigger] trees@[j]),
        in_chunk(lx as int, y as int, lz as int),
    ensures
        b == trees_over(g, trees@, seed, cx as int, cz as int, lx as int, y as int, lz as int),
{
    let mut b = g;
    let mut t: usize = 0;
    while t < trees.len()
        invariant
            -CHUNK_LIMIT <= cx <= CHUNK_LIMIT,
            -CHUNK_LIMIT <= cz <= CHUNK_LIMIT,
            forall|j: int| 0 <= j < trees@.len() ==> tree_ok(#[trigger] trees@[j]),
            in_chunk(lx as int, y as int, lz as int),
            t <= trees@.len(),
            b == trees_over(g, trees@.take(t as int), seed, cx as int, cz as int, lx as int, y as int, lz as int),
        decreases trees@.len() - t,
    {
        let tr = trees[t];
        b = tree_block(b, seed, cx, cz, tr, lx, y, lz);
        proof {
            let s = trees@.take(t + 1);
            assert(s.drop_last() =~= trees@.take(t as int));
            assert(s.last() == tr);
        }
        t += 1;
    }
    assert(trees@.take(trees@.len() as int) =~= trees@);
    b
}

/// The blocks of chunk (cx, cz), in cell-index order.
fn generate_blocks(
    seed: u32,
    cx: i32,
    cz: i32,
    cols: &Vec<(i32, Block)>,
    caves: &Vec<bool>,
    trees: &Vec<(i32, i32, i32, i32)>,
) -> (blocks: Vec<u8>)
    requires
        -CHUNK_LIMIT <= cx <= CHUNK_LIMIT,
        -CHUNK_LIMIT <= cz <= CHUNK_LIMIT,
        cols@.len() == COLS,
        caves@.len() == VOL,
        forall|j: int| 0 <= j < COLS ==> 0 <= #[trigger] cols@[j].0 < CH,
        forall|j: int| 0 <= j < trees@.len() ==> tree_ok(#[trigger] trees@[j]),
    ensures
        blocks@.len() == VOL,
        forall|lx: int, y: int, lz: int|
            in_chunk(lx, y, lz) ==> #[trigger] blocks@[cell_index(lx, y, lz)] == block_id(
                generated(seed, cx as int, cz as int, cols@, caves@, trees@, lx, y, lz),
            ),
{
    let mut blocks: Vec<u8> = Vec::with_capacity(VOL);
    let mut y: i32 = 0;
    while y < CH
        invariant
            -CHUNK_LIMIT <= cx <= CHUNK_LIMIT,
            -CHUNK_LIMIT <= cz <= CHUNK_LIMIT,
            cols@.len() == COLS,
            caves@.len() == VOL,
            forall|j: int| 0 <= j < COLS ==> 0 <= #[trigger] cols@[j].0 < CH,
            forall|j: int| 0 <= j < trees@.len() ==> tree_ok(#[trigger] trees@[j]),
            0 <= y <= CH,
            blocks@.len() == y * 256,
            forall|a: int, b: int, d: int|
                in_chunk(a, b, d) && cell_index(a, b, d) < blocks@.len() ==> #[trigger] blocks@[cell_index(a, b, d)]
                    == block_id(generated(seed, cx as int, cz as int, cols@, caves@, trees@, a, b, d)),
        decreases CH - y,
    {
        let mut lz: i32 = 0;
        while lz < CS
            invariant
                -CHUNK_LIMIT <= cx <= CHUNK_LIMIT,
                -CHUNK_LIMIT <= cz <= CHUNK_LIMIT,
                cols@.len() == COLS,
                caves@.len() == VOL,
                forall|j: int| 0 <= j < COLS ==> 0 <= #[trigger] cols@[j].0 < CH,
                forall|j: int| 0 <= j < trees@.len() ==> tree_ok(#[trigger] trees@[j]),
                0 <= y < CH,
                0 <= lz <= CS,
                blocks@.len() == y * 256 + lz * 16,
                forall|a: int, b: int, d: int|
                    in_chunk(a, b, d) && cell_index(a, b, d) < blocks@.len() ==> #[trigger] blocks@[cell_index(
                        a,
                        b,
                        d,
                    )] == block_id(generated(seed, cx as int, cz as int, cols@, caves@, trees@, a, b, d)),
            decreases CS - lz,
        {
            let mut lx: i32 = 0;
            while lx < CS
                invariant
                    -CHUNK_LIMIT <= cx <= CHUNK_LIMIT,
                    -CHUNK_LIMIT <= cz <= CHUNK_LIMIT,
                    cols@.len() == COLS,
                    caves@.len() == VOL,
                    forall|j: int| 0 <= j < COLS ==> 0 <= #[trigger] cols@[j].0 < CH,
                    forall|j: int| 0 <= j < trees@.len() ==> tree_ok(#[trigger] trees@[j]),
                    0 <= y < CH,
                    0 <= lz < CS,
                    0 <= lx <= CS,
                    blocks@.len() == y * 256 + lz * 16 + lx,
                    forall|a: int, b: int, d: int|
                        in_chunk(a, b, d) && cell_index(a, b, d) < blocks@.len() ==> #[trigger] blocks@[cell_index(
                            a,
                            b,
                            d,
                        )] == block_id(generated(seed, cx as int, cz as int, cols@, caves@, trees@, a, b, d)),
                decreases CS - lx,
            {
                let g = ground_block(seed, cx, cz, cols, caves, lx, y, lz);
                let b = grown_block(g, seed, cx, cz, trees, lx, y, lz);
                let ghost before = blocks@;
                blocks.push(b.to_u8());
                proof {
                    assert forall|a: int, b2: int, d: int|
                        in_chunk(a, b2, d) && cell_index(a, b2, d) < blocks@.len() implies #[trigger] blocks@[cell_index(
                            a,
                            b2,
                            d,
                        )] == block_id(generated(seed, cx as int, cz as int, cols@, caves@, trees@, a, b2, d)) by {
                        if cell_index(a, b2, d) == before.len() {
                            assert(a == lx && b2 == y && d == lz);
                            reveal(generated);
                        } else {
                            assert(blocks@[cell_index(a, b2, d)] == before[cell_index(a, b2, d)]);
                        }
                    }
                }
                lx += 1;
            }
            lz += 1;
        }
        y += 1;
    }
    blocks
}

/// Full water level on water cells, 0 elsewhere.
fn water_levels(blocks: &Vec<u8>) -> (water: Vec<u8>)
    requires
        blocks@.len() == VOL,
    ensures
        water@.len() == VOL,
        forall|j: int| 0 <= j < VOL ==> #[trigger] water@[j] == if block_of(blocks@[j]) is Water {
            WATER_MAX
        } else {
            0
        },
{
    let mut water: Vec<u8> = Vec::with_capacity(VOL);
    let mut i: usize = 0;
    while i < VOL
        invariant
            blocks@.len() == VOL,
            i <= VOL,
            water@.len() == i,
            forall|j: int| 0 <= j < i ==> #[trigger] water@[j] == if block_of(blocks@[j]) is Water {
                WATER_MAX
            } else {
                0
            },
        decreases VOL - i,
    {
        if Block::from_u8(blocks[i]) == Block::Water {
            water.push(WATER_MAX);
        } else {
            water.push(0);
        }
        i += 1;
    }
    water
}

/// Assembles chunk (cx, cz). `cols` holds, per column (indexed like
/// [`Chunk::heights`]), the surface height and the block on top of it;
/// `caves` tells, per cell, whether the cave noise opens it (it is read for
/// ground cells only); `trees` lists the trees whose crown may reach into
/// the chunk, in the order they grow. Light is left at 0 and the chunk is
/// marked dirty; water cells get the full level and the column heights
/// record the topmost opaque block.
pub fn generate_chunk(
    seed: u32,
    cx: i32,
    cz: i32,
    cols: &Vec<(i32, Block)>,
    caves: &Vec<bool>,
    trees: &Vec<(i32, i32, i32, i32)>,
) -> (c: Chunk)
    requires
        -CHUNK_LIMIT <= cx <= CHUNK_LIMIT,
        -CHUNK_LIMIT <= cz <= CHUNK_LIMIT,
        cols@.len() == COLS,
        caves@.len() == VOL,
        forall|j: int| 0 <= j < COLS ==> 0 <= #[trigger] cols@[j].0 < CH,
        forall|j: int| 0 <= j < trees@.len() ==> tree_ok(#[trigger] trees@[j]),
    ensures
        c.wf(),
        c.light_bounded(),
        c.dirty,
        forall|lx: int, y: int, lz: int|
            in_chunk(lx, y, lz) ==> #[trigger] c.blocks@[cell_index(lx, y, lz)] == block_id(
                generated(seed, cx as int, cz as int, cols@, caves@, trees@, lx, y, lz),
            ),
        forall|i: int|
            0 <= i < VOL ==> #[trigger] c.water_level@[i] == if block_of(c.blocks@[i]) is Water {
                WATER_MAX
            } else {
                0
            },
        forall|i: int| 0 <= i < VOL ==> #[trigger] c.light@[i] == 0 && c.skylight@[i] == 0,
        forall|lx: int, lz: int|
            0 <= lx < CS && 0 <= lz < CS ==> #[trigger] c.heights@[col_index(lx, lz)] == top_opaque(
                c.blocks@,
                lx,
                lz,
            ),
        c.heights_ok(),
{
    let blocks = generate_blocks(seed, cx, cz, cols, caves, trees);
    let water = water_levels(&blocks);
    let mut heights: Vec<i16> = Vec::with_capacity(COLS);
    let mut k: usize = 0;
    while k < COLS
        invariant
            k <= COLS,
            heights@.len() == k,
        decreases COLS - k,
    {
        heights.push(0);
        k += 1;
    }
    let mut c = Chunk {
        blocks,
        light: vec_filled(0u8, VOL),
        skylight: vec_filled(0u8, VOL),
        water_level: water,
        heights,
        dirty: true,
    };
    let ghost bl = c.blocks@;
    let ghost wl = c.water_level@;
    let mut lz: i32 = 0;
    while lz < CS
        invariant
            c.wf(),
            c.blocks@ == bl,
            c.water_level@ == wl,
            c.dirty,
            forall|j: int| 0 <= j < VOL ==> #[trigger] c.light@[j] == 0 && c.skylight@[j] == 0,
            0 <= lz <= CS,
            forall|a: int, d: int|
                0 <= a < CS && 0 <= d < lz ==> #[trigger] c.heights@[col_index(a, d)] == top_opaque(bl, a, d),
        decreases CS - lz,
    {
        let mut lx: i32 = 0;
        while lx < CS
            invariant
                c.wf(),
                c.blocks@ == bl,
                c.water_level@ == wl,
                c.dirty,
                forall|j: int| 0 <= j < VOL ==> #[trigger] c.light@[j] == 0 && c.skylight@[j] == 0,
                0 <= lz < CS,
                0 <= lx <= CS,
                forall|a: int, d: int|
                    (0 <= a < CS && 0 <= d < lz) || (0 <= a < lx && d == lz) ==> #[trigger] c.heights@[col_index(a, d)]
                        == top_opaque(bl, a, d),
            decreases CS - lx,
        {
            let ghost hb = c.heights@;
            c.recompute_height(lx, lz);
            proof {
                lemma_top_opaque_from_props(bl, lx as int, lz as int, CH - 1);
                assert forall|a: int, d: int|
                    (0 <= a < CS && 0 <= d < lz) || (0 <= a < lx + 1 && d == lz) implies #[trigger] c.heights@[col_index(
                        a,
                        d,
                    )] == top_opaque(bl, a, d) by {
                    if !(a == lx && d == lz) {
                        assert(c.heights@[col_index(a, d)] == hb[col_index(a, d)]);
                    }
                }
            }
            lx += 1;
        }
        lz += 1;
    }
    proof {
        assert forall|lx: int, lz: int| 0 <= lx < CS && 0 <= lz < CS implies #[trigger] c.heights@[col_index(lx, lz)]
            == top_opaque(c.blocks@, lx, lz) by {}
        assert forall|i: int| 0 <= i < c.light@.len() implies #[trigger] c.light@[i] <= 15 by {
            assert(c.light@[i] == 0 && c.skylight@[i] == 0);
        }
        assert forall|i: int| 0 <= i < c.skylight@.len() implies #[trigger] c.skylight@[i] <= 15 by {
            assert(c.light@[i] == 0 && c.skylight@[i] == 0);
        }
    }
    c
}

} // verus!
