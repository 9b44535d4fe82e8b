//! Where the player and animals may appear.
use vstd::prelude::*;
use crate::blocks::Block;
use crate::chunk::{CH, SEA, col_index};
use crate::world::{World, m_col_loaded, m_chunk};

verus! {

/// Number of places tried for the player's spawn.
pub const SPAWN_TRIES: usize = 256;

/// The `i`-th place tried for the player's spawn: rings of growing radius
/// `8 * (i / 4)` along four directions.
pub open spec fn spec_spawn_candidate(i: int) -> (int, int) {
    let r = i / 4;
    let j = i % 4;
    if j == 0 {
        (r * 8, 0)
    } else if j == 1 {
        (-r * 8, r * 4)
    } else if j == 2 {
        (r * 4, -r * 8)
    } else {
        (0, r * 8)
    }
}

/// A surface height fit for spawning: above the beach, below the hills.
pub open spec fn spawn_height_ok(h: int) -> bool {
    SEA + 1 < h < 60
}

/// The `i`-th place tried for the player's spawn.
pub fn spawn_candidate(i: usize) -> (r: (i32, i32))
    requires
        i < SPAWN_TRIES,
    ensures
        (r.0 as int, r.1 as int) == spec_spawn_candidate(i as int),
{
    let r = (i / 4) as i32;
    let j = i % 4;
    if j == 0 {
        (r * 8, 0)
    } else if j == 1 {
        (-r * 8, r * 4)
    } else if j == 2 {
        (r * 4, -r * 8)
    } else {
        (0, r * 8)
    }
}

/// The first tried place whose surface height (`heights[i]` for place `i`)
/// is fit for spawning, or (0, 0) when there is none.
pub fn pick_spawn(heights: &Vec<i32>) -> (r: (i32, i32))
    requires
        heights@.len() == SPAWN_TRIES,
    ensures
        (exists|i: int|
            0 <= i < SPAWN_TRIES && spawn_height_ok(heights@[i] as int) && (forall|j: int|
                0 <= j < i ==> !spawn_height_ok(#[trigger] heights@[j] as int)) && (r.0 as int, r.1 as int)
                == spec_spawn_candidate(i)) || ((forall|j: int|
            0 <= j < SPAWN_TRIES ==> !spawn_height_ok(#[trigger] heights@[j] as int)) && r == (0i32, 0i32)),
{
    let mut i: usize = 0;
    while i < SPAWN_TRIES
        invariant
            heights@.len() == SPAWN_TRIES,
            i <= SPAWN_TRIES,
            forall|j: int| 0 <= j < i ==> !spawn_height_ok(#[trigger] heights@[j] as int),
        decreases SPAWN_TRIES - i,
    {
        let h = heights[i];
        if SEA + 1 < h && h < 60 {
            return spawn_candidate(i);
        }
        i += 1;
    }
    (0, 0)
}

/// Column (x, z) offers a spot for an animal at the returned surface
/// height `h`: its chunk is loaded, 0 < h < CH - 1, the surface block is
/// grass or snowy grass, and the cell above it is air. (Whether a cave opens
/// under the spot is decided by the terrain noise.)
pub open spec fn spec_spawn_site(w: World, x: int, z: int) -> Option<int> {
    if !m_col_loaded(w.chunks@, x, z) {
        None
    } else {
        let h = m_chunk(w.chunks@, x, z).heights@[col_index(x % 16, z % 16)] as int;
        if h <= 0 || h + 1 >= CH {
            None
        } else if !(w.block(x, h, z) is Grass || w.block(x, h, z) is SnowGrass) {
            None
        } else if !(w.block(x, h + 1, z) is Air) {
            None
        } else {
            Some(h)
        }
    }
}

/// The stored surface height of column (x, z).
pub open spec fn stored_height(w: World, x: int, z: int) -> int {
    m_chunk(w.chunks@, x, z).heights@[col_index(x % 16, z % 16)] as int
}

/// Animals spawn on grass and on snowy grass alike: in a loaded column whose
/// stored height `h` lies strictly inside the world, with air above the
/// surface, the spot is at `h` exactly when the surface block is grass or
/// snowy grass; and any spot offered lies on such a surface under air.
pub proof fn lemma_spawn_surfaces(w: World, x: int, z: int)
    ensures
        m_col_loaded(w.chunks@, x, z) && 0 < stored_height(w, x, z) < CH - 1 && w.block(x, stored_height(w, x, z) + 1, z) is Air
            ==> (spec_spawn_site(w, x, z) == Some(stored_height(w, x, z)) <==> (w.block(x, stored_height(w, x, z), z) is Grass
            || w.block(x, stored_height(w, x, z), z) is SnowGrass)),
        spec_spawn_site(w, x, z) matches Some(h) ==> m_col_loaded(w.chunks@, x, z) && h == stored_height(w, x, z) && 0 < h < CH - 1
            && (w.block(x, h, z) is Grass || w.block(x, h, z) is SnowGrass) && w.block(x, h + 1, z) is Air,
{
}

/// The surface height at which an animal may appear in column (x, z), if any.
pub fn spawn_site(w: &World, x: i32, z: i32) -> (r: Option<i32>)
    requires
        w.wf(),
    ensures
        r matches Some(h) ==> spec_spawn_site(*w, x as int, z as int) == Some(h as int),
        r is None ==> spec_spawn_site(*w, x as int, z as int) is None,
        m_col_loaded(w.chunks@, x as int, z as int) && 0 < stored_height(*w, x as int, z as int) < CH - 1 && w.block(
            x as int,
            stored_height(*w, x as int, z as int) + 1,
            z as int,
        ) is Air && (w.block(x as int, stored_height(*w, x as int, z as int), z as int) is Grass || w.block(
            x as int,
            stored_height(*w, x as int, z as int),
            z as int,
        ) is SnowGrass) ==> r == Some(stored_height(*w, x as int, z as int) as i32),
{
    proof {
        lemma_spawn_surfaces(*w, x as int, z as int);
    }
    match w.height_at(x, z) {
        None => None,
        Some(h) => {
            if h <= 0 || h + 1 >= CH {
                return None;
            }
            let top = w.get_block(x, h, z);
            if top != Block::Grass && top != Block::SnowGrass {
                return None;
            }
            if w.get_block(x, h + 1, z) != Block::Air {
                return None;
            }
            Some(h)
        },
    }
}

} // verus!
