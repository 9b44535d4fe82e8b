use minicraft::blocks::{Block, WATER_MAX};
use minicraft::chunk::{Chunk, CH, CS, VOL};
use minicraft::gen::{generate_chunk, plant_for, base_block};
use minicraft::mesh::{chunk_quads, snapshot, Quad};
use minicraft::noise::{hash24, hash24_3d, hash_u32};
use minicraft::spawn::{pick_spawn, spawn_candidate, spawn_site};
use minicraft::stream::{chunks_by_distance, generation_plan, mesh_plan, ChunkFilter};
use minicraft::world::World;

fn idx(lx: i32, y: i32, lz: i32) -> usize {
    ((y * CS + lz) * CS + lx) as usize
}

fn block_at(c: &Chunk, lx: i32, y: i32, lz: i32) -> Block {
    Block::from_u8(c.blocks[idx(lx, y, lz)])
}

/// Grass on stone up to y = 10, heights 10.
fn grass_chunk() -> Chunk {
    let mut c = Chunk::empty();
    for lz in 0..CS {
        for lx in 0..CS {
            for y in 0..10 {
                c.blocks[idx(lx, y, lz)] = Block::Stone as u8;
            }
            c.blocks[idx(lx, 10, lz)] = Block::Grass as u8;
            c.heights[(lz * CS + lx) as usize] = 10;
        }
    }
    c
}

fn grass_world() -> World {
    let mut w = World::new(1);
    for cz in -2..=2 {
        for cx in -2..=2 {
            w.insert_chunk(cx, cz, grass_chunk());
        }
    }
    w
}

#[test]
fn hash_values() {
    assert_eq!(hash_u32(0), 0);
    assert_eq!(hash_u32(1), 1753845952);
    assert_eq!(hash_u32(12345), 2435775735);
    assert_eq!(hash_u32(0xffff_ffff), 1734902346);
    assert_eq!(hash24(0, 0, 0), 0);
    assert_eq!(hash24(1, 2, 3), 11374271);
    assert_eq!(hash24(-5, 7, 42), 13356618);
    assert_eq!(hash24_3d(1, 2, 3, 4), 15843777);
    assert_eq!(hash24_3d(-1, -2, -3, 99), 399807);
}

#[test]
fn block_ids_round_trip() {
    for v in 0u8..=16 {
        assert_eq!(Block::from_u8(v).to_u8(), v);
    }
    assert_eq!(Block::from_u8(17), Block::Air);
    assert_eq!(Block::from_u8(255), Block::Air);
    assert!(Block::Stone.is_opaque() && Block::Stone.is_solid());
    assert!(!Block::Leaves.is_opaque() && Block::Leaves.is_solid());
    assert!(Block::Torch.is_cross() && Block::Torch.needs_support());
    assert_eq!(Block::Torch.emission(), 14);
    assert!(Block::Water.replaceable() && !Block::Glass.replaceable());
}

#[test]
fn plants_follow_hash_bounds() {
    assert_eq!(plant_for(0), Some(Block::FlowerRed));
    assert_eq!(plant_for(201326), Some(Block::FlowerRed));
    assert_eq!(plant_for(201327), Some(Block::FlowerYellow));
    assert_eq!(plant_for(369099), Some(Block::TallGrass));
    assert_eq!(plant_for(1761607), Some(Block::TallGrass));
    assert_eq!(plant_for(1761608), None);
}

#[test]
fn terrain_layers_and_caves() {
    // column with surface at 20, grass on top
    assert_eq!(base_block(1, 0, 0, 0, 20, Block::Grass, true), Block::Stone); // bedrock stays
    assert_eq!(base_block(1, 0, 17, 0, 20, Block::Grass, false), Block::Dirt);
    assert_eq!(base_block(1, 0, 20, 0, 20, Block::Grass, false), Block::Grass);
    assert_eq!(base_block(1, 0, 25, 0, 20, Block::Grass, false), Block::Water); // below sea
    assert_eq!(base_block(1, 0, 40, 0, 20, Block::Grass, false), Block::Air);
    assert_eq!(base_block(1, 0, 19, 0, 20, Block::Sand, false), Block::Sand);
    // a cave opens ground deep down, but not the three layers under a low surface
    assert_eq!(base_block(1, 0, 5, 0, 20, Block::Grass, true), Block::Air);
    assert_eq!(base_block(1, 0, 18, 0, 20, Block::Grass, true), Block::Dirt);
    // high surface: caves may open everything below it
    assert_eq!(base_block(1, 0, 50, 0, 50, Block::Grass, true), Block::Air);
    // water is never carved
    assert_eq!(base_block(1, 0, 30, 0, 20, Block::Grass, true), Block::Water);
}

#[test]
fn generated_chunk_layout() {
    let cols = vec![(40, Block::Grass); 256];
    let caves = vec![false; VOL];
    let trees = vec![(8, 8, 40, 4)];
    let c = generate_chunk(3, 0, 0, &cols, &caves, &trees);
    assert_eq!(c.blocks.len(), VOL);
    assert!(c.dirty);
    assert!(c.light.iter().all(|&l| l == 0) && c.skylight.iter().all(|&l| l == 0));
    // trunk: dirt at the root, logs above
    assert_eq!(block_at(&c, 8, 40, 8), Block::Dirt);
    for y in 41..=44 {
        assert_eq!(block_at(&c, 8, y, 8), Block::Log);
    }
    // crown: leaves next to the trunk top and above it
    assert_eq!(block_at(&c, 9, 44, 8), Block::Leaves);
    assert_eq!(block_at(&c, 8, 46, 8), Block::Leaves);
    assert_eq!(block_at(&c, 8, 45, 8), Block::Air);
    // the top crown layer has no corners
    assert_eq!(block_at(&c, 9, 47, 9), Block::Air);
    // heights record the topmost opaque block (log, not leaves)
    assert_eq!(c.heights[(8 * CS + 8) as usize], 44);
    assert_eq!(c.heights[0], 40);
    // no water above the sea
    assert!(c.water_level.iter().all(|&l| l == 0));
    // ground
    assert_eq!(block_at(&c, 0, 0, 0), Block::Stone);
    assert_eq!(block_at(&c, 0, 38, 0), Block::Dirt);
    assert_eq!(block_at(&c, 3, 40, 3), Block::Grass);
}

#[test]
fn generated_sea_is_full_water() {
    let cols = vec![(20, Block::Sand); 256];
    let c = generate_chunk(5, -3, 7, &cols, &vec![false; VOL], &Vec::new());
    for y in 21..=36 {
        assert_eq!(block_at(&c, 4, y, 4), Block::Water);
        assert_eq!(c.water_level[idx(4, y, 4)], WATER_MAX);
    }
    assert_eq!(block_at(&c, 4, 37, 4), Block::Air);
    assert_eq!(c.water_level[idx(4, 37, 4)], 0);
    assert_eq!(block_at(&c, 4, 20, 4), Block::Sand);
    assert_eq!(block_at(&c, 4, 17, 4), Block::Sand);
}

#[test]
fn mesh_of_a_single_block() {
    let mut w = World::new(1);
    w.insert_chunk(0, 0, Chunk::empty());
    w.set_block(5, 50, 5, Block::Stone);
    let s = snapshot(&w, 0, 0);
    let q = chunk_quads(&s);
    assert_eq!(q.len(), 6);
    for (f, quad) in q.iter().enumerate() {
        assert_eq!(quad.face, f);
        assert_eq!((quad.lx, quad.y, quad.lz), (5, 50, 5));
        assert_eq!(quad.block, Block::Stone);
        assert_eq!((quad.ao0, quad.ao1, quad.ao2, quad.ao3), (3, 3, 3, 3));
    }
    // depth below the column height: the cell under the block lies 1 below
    assert_eq!(q[1].depth, 1);
    assert_eq!(q[0].depth, 0);
}

#[test]
fn mesh_hides_faces_between_opaque_blocks_and_shades_corners() {
    let mut w = World::new(1);
    w.insert_chunk(0, 0, Chunk::empty());
    w.set_block(5, 50, 5, Block::Stone);
    w.set_block(6, 50, 5, Block::Stone);
    w.set_block(5, 51, 6, Block::Stone);
    let s = snapshot(&w, 0, 0);
    let q: Vec<Quad> = chunk_quads(&s);
    // two touching blocks hide one face each; the third block sits apart
    assert_eq!(q.len(), 6 + 6 + 6 - 2);
    let top = q.iter().find(|x| (x.lx, x.y, x.lz, x.face) == (5, 50, 5, 0)).unwrap();
    // the top face of (5,50,5) has the block (5,51,6) next to its +z edge
    assert_eq!((top.ao0, top.ao1, top.ao2, top.ao3), (3, 2, 2, 3));
    // water draws no bottom face and no face towards water
    w.set_block(1, 50, 1, Block::Water);
    w.set_block(2, 50, 1, Block::Water);
    let s = snapshot(&w, 0, 0);
    let q = chunk_quads(&s);
    let water: Vec<&Quad> = q.iter().filter(|x| x.block == Block::Water).collect();
    assert_eq!(water.len(), 2 * 5 - 2);
    assert!(water.iter().all(|x| x.face != 1 && !x.water_above));
}

#[test]
fn glass_merges_with_glass() {
    let mut w = World::new(1);
    w.insert_chunk(0, 0, Chunk::empty());
    w.set_block(5, 50, 5, Block::Glass);
    w.set_block(5, 51, 5, Block::Glass);
    let s = snapshot(&w, 0, 0);
    assert_eq!(chunk_quads(&s).len(), 10);
}

#[test]
fn chunks_listed_nearest_first() {
    let w = World::new(1);
    let l = chunks_by_distance(&w, 0, 0, 1, ChunkFilter::Missing);
    assert_eq!(l, vec![(0, 0), (-1, 0), (0, -1), (0, 1), (1, 0), (-1, -1), (-1, 1), (1, -1), (1, 1)]);
    let (gen, left) = generation_plan(&w, 0, 0, 1, 3);
    assert_eq!(gen, vec![(0, 0), (-1, 0), (0, -1)]);
    assert_eq!(left, 6);
    let (gen, left) = generation_plan(&w, 0, 0, 1, 0);
    assert!(gen.is_empty());
    assert_eq!(left, 9);
}

#[test]
fn mesh_plan_waits_for_neighbours() {
    let mut w = World::new(1);
    for cz in -1..=1 {
        for cx in -1..=1 {
            w.insert_chunk(cx, cz, Chunk::empty());
        }
    }
    let dirty = chunks_by_distance(&w, 0, 0, 1, ChunkFilter::Dirty);
    assert_eq!(dirty.len(), 9);
    let (picked, missing, waiting) = mesh_plan(&w, 0, 0, 1, 5);
    // only the centre chunk has all eight neighbours loaded
    assert_eq!(picked, vec![(0, 0)]);
    assert_eq!(missing, 0);
    assert_eq!(waiting, 8);
    let (picked, missing, waiting) = mesh_plan(&w, 0, 0, 2, 0);
    assert!(picked.is_empty());
    assert_eq!(missing, 16);
    assert_eq!(waiting, 9);
    w.mark_clean(0, 0);
    let (picked, _, _) = mesh_plan(&w, 0, 0, 1, 5);
    assert!(picked.is_empty());
}

#[test]
fn spawn_places() {
    assert_eq!(spawn_candidate(0), (0, 0));
    assert_eq!(spawn_candidate(5), (-8, 4));
    assert_eq!(spawn_candidate(10), (8, -16));
    assert_eq!(spawn_candidate(15), (0, 24));
    let mut hs = vec![30; 256];
    assert_eq!(pick_spawn(&hs), (0, 0));
    hs[6] = 45;
    hs[9] = 50;
    assert_eq!(pick_spawn(&hs), spawn_candidate(6));
    hs[6] = 60;
    assert_eq!(pick_spawn(&hs), spawn_candidate(9));
}

#[test]
fn spawn_ok_on_grass_top() {
    let w = grass_world();
    let mut ok = false;
    for x in 0..16 {
        if spawn_site(&w, x, 3).is_some() {
            ok = true;
            break;
        }
    }
    assert!(ok, "grass top should allow spawn at some column");
    assert_eq!(spawn_site(&w, 4, 3), Some(10));
}

#[test]
fn spawn_rejected_underwater_or_in_stone() {
    let mut w = grass_world();
    w.set_block(0, 11, 0, Block::Water);
    assert!(spawn_site(&w, 0, 0).is_none());
}

#[test]
fn spawn_rejected_in_unloaded_chunk() {
    let w = World::new(1);
    assert!(spawn_site(&w, 0, 0).is_none());
}

#[test]
fn block_tiles() {
    assert_eq!(Block::Grass.tile(0), (0, 0));
    assert_eq!(Block::Grass.tile(1), (2, 0));
    assert_eq!(Block::Grass.tile(3), (1, 0));
    assert_eq!(Block::Log.tile(1), (2, 1));
    assert_eq!(Block::Log.tile(4), (1, 1));
    assert_eq!(Block::SnowGrass.tile(0), (1, 2));
    assert_eq!(Block::SnowGrass.tile(5), (2, 2));
    assert_eq!(Block::FlowerYellow.tile(2), (6, 0));
    assert_eq!(Block::Grass.icon_tile(), Block::Grass.tile(2));
    assert!(Block::Glass.merges() && Block::Water.merges() && !Block::Stone.merges());
}

#[test]
fn hash_u32_separates_nearby_inputs() {
    let hs: Vec<u32> = (0u32..256).map(hash_u32).collect();
    for i in 0..hs.len() {
        for j in 0..i {
            assert_ne!(hs[i], hs[j]);
        }
    }
}

#[test]
fn cross_blocks_draw_two_diagonal_planes() {
    let mut w = World::new(1);
    w.insert_chunk(0, 0, Chunk::empty());
    w.set_block(5, 50, 5, Block::Stone);
    w.set_block(5, 51, 5, Block::Torch);
    let s = snapshot(&w, 0, 0);
    let q = chunk_quads(&s);
    assert_eq!(q.len(), 6 + 2);
    let planes: Vec<&Quad> = q.iter().filter(|x| x.block == Block::Torch).collect();
    assert_eq!(planes.len(), 2);
    assert_eq!((planes[0].face, planes[1].face), (6, 7));
    for p in planes {
        assert_eq!((p.lx, p.y, p.lz), (5, 51, 5));
        assert_eq!((p.ao0, p.ao1, p.ao2, p.ao3), (3, 3, 3, 3));
        assert_eq!(p.depth, 0);
    }
    assert_eq!(minicraft::mesh::face_corner(6, 1), (1, 0, 1));
    assert_eq!(minicraft::mesh::face_corner(7, 0), (1, 0, 0));
}
