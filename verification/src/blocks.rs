//! Block kinds and their properties (collision, opacity, rendering tiles).
use vstd::prelude::*;

verus! {

/// One voxel kind. The numeric id of each kind is its position in this list
/// (`Air` is 0, `FlowerYellow` is 16); see [`Block::to_u8`].
#[derive(Clone, Copy, PartialEq, Eq, Debug, Structural)]
pub enum Block {
    Air,
    Grass,
    Dirt,
    Stone,
    Sand,
    Log,
    Leaves,
    Water,
    SnowGrass,
    Plank,
    Cobble,
    Glass,
    Coal,
    Torch,
    TallGrass,
    FlowerRed,
    FlowerYellow,
}

/// Light level emitted by a torch (it decays by one per block).
pub const TORCH_LIGHT: u8 = 14;

/// Light level of unobstructed sky light.
pub const SKY_LIGHT_MAX: u8 = 15;

/// Highest water level (a source block).
pub const WATER_MAX: u8 = 7;

/// Largest valid block id.
pub const MAX_BLOCK_ID: u8 = 16;

/// Blocks offered in the hotbar, in slot order.
pub const HOTBAR: [Block; 9] = [
    Block::Grass,
    Block::Stone,
    Block::Sand,
    Block::Log,
    Block::Leaves,
    Block::Plank,
    Block::Cobble,
    Block::Glass,
    Block::Torch,
];

/// Face order: 0=+Y (top) 1=-Y (bottom) 2=+X 3=-X 4=+Z 5=-Z
pub const FACE_UP: usize = 0;
pub const FACE_DOWN: usize = 1;

// Tile positions in the 8x8 texture atlas.
pub const TILE_GRASS_TOP: (u32, u32) = (0, 0);
pub const TILE_GRASS_SIDE: (u32, u32) = (1, 0);
pub const TILE_DIRT: (u32, u32) = (2, 0);
pub const TILE_STONE: (u32, u32) = (3, 0);
pub const TILE_SAND: (u32, u32) = (0, 1);
pub const TILE_LOG_SIDE: (u32, u32) = (1, 1);
pub const TILE_LOG_TOP: (u32, u32) = (2, 1);
pub const TILE_LEAVES: (u32, u32) = (3, 1);
pub const TILE_WATER: (u32, u32) = (0, 2);
pub const TILE_SNOW_TOP: (u32, u32) = (1, 2);
pub const TILE_SNOW_SIDE: (u32, u32) = (2, 2);
pub const TILE_PLANK: (u32, u32) = (3, 2);
pub const TILE_COBBLE: (u32, u32) = (0, 3);
pub const TILE_GLASS: (u32, u32) = (1, 3);
pub const TILE_COAL: (u32, u32) = (2, 3);
pub const TILE_TORCH: (u32, u32) = (3, 3);
pub const TILE_TALL_GRASS: (u32, u32) = (4, 0);
pub const TILE_FLOWER_RED: (u32, u32) = (5, 0);
pub const TILE_FLOWER_YELLOW: (u32, u32) = (6, 0);

/// The id of a block kind: its position in the declaration order.
pub open spec fn block_id(b: Block) -> u8 {
    match b {
        Block::Air => 0,
        Block::Grass => 1,
        Block::Dirt => 2,
        Block::Stone => 3,
        Block::Sand => 4,
        Block::Log => 5,
        Block::Leaves => 6,
        Block::Water => 7,
        Block::SnowGrass => 8,
        Block::Plank => 9,
        Block::Cobble => 10,
        Block::Glass => 11,
        Block::Coal => 12,
        Block::Torch => 13,
        Block::TallGrass => 14,
        Block::FlowerRed => 15,
        Block::FlowerYellow => 16,
    }
}

/// The block kind stored as byte `v`: the kind whose id is `v`, or `Air`
/// for a byte that is no block id.
pub open spec fn block_of(v: u8) -> Block {
    if v == 0 {
        Block::Air
    } else if v == 1 {
        Block::Grass
    } else if v == 2 {
        Block::Dirt
    } else if v == 3 {
        Block::Stone
    } else if v == 4 {
        Block::Sand
    } else if v == 5 {
        Block::Log
    } else if v == 6 {
        Block::Leaves
    } else if v == 7 {
        Block::Water
    } else if v == 8 {
        Block::SnowGrass
    } else if v == 9 {
        Block::Plank
    } else if v == 10 {
        Block::Cobble
    } else if v == 11 {
        Block::Glass
    } else if v == 12 {
        Block::Coal
    } else if v == 13 {
        Block::Torch
    } else if v == 14 {
        Block::TallGrass
    } else if v == 15 {
        Block::FlowerRed
    } else if v == 16 {
        Block::FlowerYellow
    } else {
        Block::Air
    }
}

/// Rendered as two crossed planes (torch and plants).
pub open spec fn spec_is_cross(b: Block) -> bool {
    b is Torch || b is TallGrass || b is FlowerRed || b is FlowerYellow
}

/// Has collision.
pub open spec fn spec_is_solid(b: Block) -> bool {
    !(b is Air || b is Water) && !spec_is_cross(b)
}

/// Fully hides the faces next to it.
pub open spec fn spec_is_opaque(b: Block) -> bool {
    !(b is Air || b is Water || b is Leaves || b is Glass) && !spec_is_cross(b)
}

/// May be overwritten when a block is placed.
pub open spec fn spec_replaceable(b: Block) -> bool {
    b is Air || b is Water || b is TallGrass || b is FlowerRed || b is FlowerYellow
}

/// Light emitted by the block.
pub open spec fn spec_emission(b: Block) -> u8 {
    if b is Torch {
        TORCH_LIGHT
    } else {
        0
    }
}

/// Atlas tile of face `face` of block `b`.
pub open spec fn spec_tile(b: Block, face: usize) -> (u32, u32) {
    match b {
        Block::Grass => if face == FACE_UP {
            TILE_GRASS_TOP
        } else if face == FACE_DOWN {
            TILE_DIRT
        } else {
            TILE_GRASS_SIDE
        },
        Block::Dirt => TILE_DIRT,
        Block::Stone => TILE_STONE,
        Block::Sand => TILE_SAND,
        Block::Log => if face == FACE_UP || face == FACE_DOWN {
            TILE_LOG_TOP
        } else {
            TILE_LOG_SIDE
        },
        Block::Leaves => TILE_LEAVES,
        Block::Water => TILE_WATER,
        Block::SnowGrass => if face == FACE_UP {
            TILE_SNOW_TOP
        } else if face == FACE_DOWN {
            TILE_DIRT
        } else {
            TILE_SNOW_SIDE
        },
        Block::Plank => TILE_PLANK,
        Block::Cobble => TILE_COBBLE,
        Block::Glass => TILE_GLASS,
        Block::Coal => TILE_COAL,
        Block::Torch => TILE_TORCH,
        Block::TallGrass => TILE_TALL_GRASS,
        Block::FlowerRed => TILE_FLOWER_RED,
        Block::FlowerYellow => TILE_FLOWER_YELLOW,
        Block::Air => TILE_STONE,
    }
}

impl Block {
    /// The block id of this kind.
    pub fn to_u8(self) -> (r: u8)
        ensures
            r == block_id(self),
            r <= MAX_BLOCK_ID,
    {
        match self {
            Block::Air => 0,
            Block::Grass => 1,
            Block::Dirt => 2,
            Block::Stone => 3,
            Block::Sand => 4,
            Block::Log => 5,
            Block::Leaves => 6,
            Block::Water => 7,
            Block::SnowGrass => 8,
            Block::Plank => 9,
            Block::Cobble => 10,
            Block::Glass => 11,
            Block::Coal => 12,
            Block::Torch => 13,
            Block::TallGrass => 14,
            Block::FlowerRed => 15,
            Block::FlowerYellow => 16,
        }
    }

    /// The block with id `v`; bytes above the largest id decode to `Air`.
    pub fn from_u8(v: u8) -> (r: Block)
        ensures
            r == block_of(v),
            v <= MAX_BLOCK_ID ==> block_id(r) == v,
            v > MAX_BLOCK_ID ==> r == Block::Air,
    {
        match v {
            0 => Block::Air,
            1 => Block::Grass,
            2 => Block::Dirt,
            3 => Block::Stone,
            4 => Block::Sand,
            5 => Block::Log,
            6 => Block::Leaves,
            7 => Block::Water,
            8 => Block::SnowGrass,
            9 => Block::Plank,
            10 => Block::Cobble,
            11 => Block::Glass,
            12 => Block::Coal,
            13 => Block::Torch,
            14 => Block::TallGrass,
            15 => Block::FlowerRed,
            16 => Block::FlowerYellow,
            _ => Block::Air,
        }
    }

    /// Has collision.
    pub fn is_solid(self) -> (r: bool)
        ensures
            r == spec_is_solid(self),
    {
        !matches!(self, Block::Air | Block::Water) && !self.is_cross()
    }

    /// Fully hides the faces next to it.
    pub fn is_opaque(self) -> (r: bool)
        ensures
            r == spec_is_opaque(self),
    {
        !matches!(self, Block::Air | Block::Water | Block::Leaves | Block::Glass)
            && !self.is_cross()
    }

    /// Drawn as two crossed planes (torch, grass tufts, flowers).
    pub fn is_cross(self) -> (r: bool)
        ensures
            r == spec_is_cross(self),
    {
        matches!(self, Block::Torch | Block::TallGrass | Block::FlowerRed | Block::FlowerYellow)
    }

    /// Needs a solid block below it (breaks together with its support).
    pub fn needs_support(self) -> (r: bool)
        ensures
            r == spec_is_cross(self),
    {
        self.is_cross()
    }

    /// Light level emitted (0 = none).
    pub fn emission(self) -> (r: u8)
        ensures
            r == spec_emission(self),
    {
        if self == Block::Torch {
            TORCH_LIGHT
        } else {
            0
        }
    }

    /// Adjacent blocks of this same kind hide the face between them (glass, water).
    pub fn merges(self) -> (r: bool)
        ensures
            r == (self is Glass || self is Water),
    {
        matches!(self, Block::Glass | Block::Water)
    }

    /// May be overwritten by a placed block.
    pub fn replaceable(self) -> (r: bool)
        ensures
            r == spec_replaceable(self),
    {
        matches!(
            self,
            Block::Air | Block::Water | Block::TallGrass | Block::FlowerRed | Block::FlowerYellow
        )
    }

    /// Atlas tile for face `face` (0=+Y 1=-Y 2=+X 3=-X 4=+Z 5=-Z).
    pub fn tile(self, face: usize) -> (r: (u32, u32))
        ensures
            r == spec_tile(self, face),
    {
        match self {
            Block::Grass => if face == FACE_UP {
                TILE_GRASS_TOP
            } else if face == FACE_DOWN {
                TILE_DIRT
            } else {
                TILE_GRASS_SIDE
            },
            Block::Dirt => TILE_DIRT,
            Block::Stone => TILE_STONE,
            Block::Sand => TILE_SAND,
            Block::Log => if face == FACE_UP || face == FACE_DOWN {
                TILE_LOG_TOP
            } else {
                TILE_LOG_SIDE
            },
            Block::Leaves => TILE_LEAVES,
            Block::Water => TILE_WATER,
            Block::SnowGrass => if face == FACE_UP {
                TILE_SNOW_TOP
            } else if face == FACE_DOWN {
                TILE_DIRT
            } else {
                TILE_SNOW_SIDE
            },
            Block::Plank => TILE_PLANK,
            Block::Cobble => TILE_COBBLE,
            Block::Glass => TILE_GLASS,
            Block::Coal => TILE_COAL,
            Block::Torch => TILE_TORCH,
            Block::TallGrass => TILE_TALL_GRASS,
            Block::FlowerRed => TILE_FLOWER_RED,
            Block::FlowerYellow => TILE_FLOWER_YELLOW,
            Block::Air => TILE_STONE,
        }
    }

    /// Tile shown for this block in the hotbar.
    pub fn icon_tile(self) -> (r: (u32, u32))
        ensures
            r == (match self {
                Block::Grass => TILE_GRASS_SIDE,
                Block::SnowGrass => TILE_SNOW_SIDE,
                Block::Log => TILE_LOG_SIDE,
                _ => spec_tile(self, 2),
            }),
    {
        match self {
            Block::Grass => TILE_GRASS_SIDE,
            Block::SnowGrass => TILE_SNOW_SIDE,
            Block::Log => TILE_LOG_SIDE,
            _ => self.tile(2),
        }
    }
}

/// Every block kind survives the trip through its id: `from_u8(to_u8(b)) == b`.
pub proof fn lemma_block_id_roundtrip(b: Block)
    ensures
        block_of(block_id(b)) == b,
        block_id(b) <= MAX_BLOCK_ID,
{
}

/// Every byte up to the largest id survives the trip through its block:
/// `to_u8(from_u8(v)) == v`.
pub proof fn lemma_block_byte_roundtrip(v: u8)
    requires
        v <= MAX_BLOCK_ID,
    ensures
        block_id(block_of(v)) == v,
{
}

/// Opaque blocks are solid; cross-shaped blocks are neither solid nor opaque;
/// exactly the torch emits light; support is needed exactly by cross-shaped
/// blocks, and every such block can be replaced by placement.
pub proof fn lemma_block_property_relations(b: Block)
    ensures
        spec_is_opaque(b) ==> spec_is_solid(b),
        spec_is_cross(b) ==> !spec_is_solid(b) && !spec_is_opaque(b),
        (spec_emission(b) > 0) == (b is Torch),
        spec_is_cross(b) && !(b is Torch) ==> spec_replaceable(b),
        spec_replaceable(b) ==> !spec_is_solid(b),
{
}

} // verus!
