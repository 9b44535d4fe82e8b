use minicraft::blocks::{Block, WATER_MAX};
use minicraft::chunk::{Chunk, CH, CS, VOL};
use minicraft::gen::generate_chunk;
use minicraft::world::World;

fn idx(lx: i32, y: i32, lz: i32) -> usize {
    ((y * CS + lz) * CS + lx) as usize
}

/// Stone from y = 0 to 10, air above.
fn flat_chunk() -> Chunk {
    let mut blocks = vec![0u8; (CS * CH * CS) as usize];
    for y in 0..=10 {
        for lz in 0..CS {
            for lx in 0..CS {
                blocks[idx(lx, y, lz)] = Block::Stone as u8;
            }
        }
    }
    Chunk {
        light: vec![0u8; blocks.len()],
        skylight: vec![0u8; blocks.len()],
        water_level: vec![0u8; blocks.len()],
        blocks,
        heights: vec![10; 256],
        dirty: true,
    }
}

fn flat_world() -> World {
    let mut w = World::new(1);
    for cz in -1..=1 {
        for cx in -1..=1 {
            w.insert_chunk(cx, cz, flat_chunk());
        }
    }
    for cz in -1..=1 {
        for cx in -1..=1 {
            w.relight_chunk(cx, cz);
        }
    }
    w
}

/// Terrain inputs for chunk assembly: grass surface at height 40, no caves,
/// no trees.
fn plain_terrain() -> (Vec<(i32, Block)>, Vec<bool>, Vec<(i32, i32, i32, i32)>) {
    (vec![(40, Block::Grass); 256], vec![false; VOL], Vec::new())
}

#[test]
fn torch_light_propagates_and_removes() {
    let mut w = flat_world();
    w.set_block(8, 12, 8, Block::Torch);
    assert_eq!(w.get_light(8, 12, 8), 14);
    assert_eq!(w.get_light(12, 12, 8), 10);
    assert_eq!(w.get_light(10, 12, 10), 10);
    assert_eq!(w.get_light(8, 12, 21), 1);
    assert_eq!(w.get_light(8, 12, 22), 0);
    assert_eq!(w.get_light(8, 10, 8), 0);

    w.set_block(10, 12, 8, Block::Stone);
    assert_eq!(w.get_light(10, 12, 8), 0);
    assert_eq!(w.get_light(11, 12, 8), 9);

    w.set_block(8, 12, 8, Block::Air);
    for d in 0..14 {
        assert_eq!(w.get_light(8, 12, 8 + d), 0);
    }
}

#[test]
fn placed_torch_lights_every_open_neighbour() {
    let mut w = flat_world();
    w.set_block(3, 11, 3, Block::Torch);
    assert_eq!(w.get_light(3, 11, 3), 14);
    for (dx, dy, dz) in [(1, 0, 0), (-1, 0, 0), (0, 1, 0), (0, 0, 1), (0, 0, -1)] {
        assert!(w.get_light(3 + dx, 11 + dy, 3 + dz) >= 13);
    }
    // the stone below is opaque and stays dark
    assert_eq!(w.get_light(3, 10, 3), 0);
}

#[test]
fn cross_chunk_relight_on_generation() {
    let mut w = flat_world();
    w.set_block(15, 12, 8, Block::Torch);
    assert_eq!(w.get_light(18, 12, 8), 11);

    w.insert_chunk(1, 0, flat_chunk());
    assert_eq!(w.get_light(18, 12, 8), 0);
    w.relight_chunk(1, 0);
    assert_eq!(w.get_light(18, 12, 8), 11);
}

#[test]
fn plant_breaks_without_support() {
    let mut w = flat_world();
    w.set_block(4, 11, 4, Block::FlowerRed);
    assert_eq!(w.get_block(4, 11, 4), Block::FlowerRed);
    w.set_block(4, 10, 4, Block::Air);
    assert_eq!(w.get_block(4, 11, 4), Block::Air);
    assert_eq!(w.get_edit(4, 11, 4), Some(Block::Air as u8));
}

#[test]
fn edits_apply_on_generation() {
    let mut w = World::new(7);
    w.record_edit(5, 50, 5, Block::Cobble as u8);
    w.record_edit(5, 51, 5, Block::Torch as u8);
    let (cols, caves, trees) = plain_terrain();
    let mut c = generate_chunk(7, 0, 0, &cols, &caves, &trees);
    w.apply_edits_to(&mut c, 0, 0);
    w.insert_chunk(0, 0, c);
    w.relight_chunk(0, 0);
    assert_eq!(w.get_block(5, 50, 5), Block::Cobble);
    assert_eq!(w.get_block(5, 51, 5), Block::Torch);
    assert_eq!(w.get_light(5, 51, 5), 14);
    assert!(w.height_at(5, 5).unwrap() >= 50);
}

#[test]
fn water_edit_survives_save_roundtrip_via_apply_edits() {
    let mut w = World::new(9);
    w.record_edit(5, 30, 5, Block::Water as u8);
    let (cols, caves, trees) = plain_terrain();
    let mut c = generate_chunk(9, 0, 0, &cols, &caves, &trees);
    w.apply_edits_to(&mut c, 0, 0);
    w.insert_chunk(0, 0, c);
    w.relight_chunk(0, 0);
    assert_eq!(w.get_block(5, 30, 5), Block::Water);
    assert_eq!(w.water_level_at(5, 30, 5), WATER_MAX);
    for _ in 0..50 {
        w.tick_water(64);
    }
    assert_eq!(w.get_block(5, 30, 5), Block::Water);
    assert_eq!(w.water_level_at(5, 30, 5), WATER_MAX);
}

#[test]
fn skylight_propagates_vertically_without_decay() {
    let w = flat_world();
    for y in 11..CH {
        assert_eq!(w.get_skylight(8, y, 8), 15, "y={y}");
    }
    assert_eq!(w.get_skylight(8, 10, 8), 0);
}

#[test]
fn skylight_hole_makes_light_shaft_and_decays_horizontally() {
    let mut w = flat_world();
    for dz in -16..=16 {
        for dx in -16..=16 {
            w.set_block(8 + dx, 13, 8 + dz, Block::Stone);
        }
    }
    assert_eq!(w.get_skylight(8, 12, 8), 0);

    w.set_block(8, 13, 8, Block::Air);
    assert_eq!(w.get_skylight(8, 12, 8), 15);
    assert_eq!(w.get_skylight(8, 11, 8), 15);
    assert_eq!(w.get_skylight(9, 12, 8), 14);
    assert_eq!(w.get_skylight(12, 12, 8), 11);

    w.set_block(8, 13, 8, Block::Stone);
    assert_eq!(w.get_skylight(8, 12, 8), 0);
    assert_eq!(w.get_skylight(9, 12, 8), 0);
}

#[test]
fn skylight_flows_across_chunk_boundary_on_generation() {
    let mut w = flat_world();
    w.insert_chunk(1, 0, flat_chunk());
    assert_eq!(w.get_skylight(18, 12, 8), 0);
    w.relight_chunk(1, 0);
    assert_eq!(w.get_skylight(18, 12, 8), 15);
}

#[test]
fn sea_water_floods_dug_hole() {
    let mut w = flat_world();
    w.set_block(8, 10, 8, Block::Water);
    for _ in 0..5 {
        w.tick_water(64);
    }
    assert_eq!(w.water_level_at(8, 10, 8), WATER_MAX);

    w.set_block(9, 10, 8, Block::Air);
    for _ in 0..10 {
        w.tick_water(64);
    }
    assert_eq!(w.get_block(9, 10, 8), Block::Water);
    assert!(w.water_level_at(9, 10, 8) > 0);
}

#[test]
fn placed_block_displaces_water() {
    let mut w = flat_world();
    w.set_block(8, 10, 8, Block::Water);
    for _ in 0..5 {
        w.tick_water(64);
    }
    w.set_block(8, 10, 8, Block::Cobble);
    assert_eq!(w.get_block(8, 10, 8), Block::Cobble);
    assert_eq!(w.water_level_at(8, 10, 8), 0);
    for _ in 0..10 {
        w.tick_water(64);
    }
    assert_eq!(w.get_block(8, 10, 8), Block::Cobble);
}

#[test]
fn water_above_sea_decays_and_simulation_terminates() {
    let mut w = flat_world();
    for dz in -9..=9 {
        for dx in -9..=9 {
            w.set_block(8 + dx, 40, 8 + dz, Block::Stone);
        }
    }
    w.set_water_level(8, 41, 8, WATER_MAX);
    for (dx, dz) in [(1, 0), (-1, 0), (0, 1), (0, -1)] {
        w.water_queue.push_back((8 + dx, 41, 8 + dz));
    }
    let mut guard = 0;
    while !w.water_queue.is_empty() {
        w.tick_water(64);
        guard += 1;
        assert!(guard < 100_000, "water simulation did not settle");
    }
    assert_eq!(w.water_level_at(8, 41, 8), 0);
    assert_eq!(w.get_block(12, 41, 8), Block::Air);
}

#[test]
fn reads_outside_the_world_and_unloaded_chunks() {
    let w = flat_world();
    assert_eq!(w.get_block(0, -1, 0), Block::Stone);
    assert_eq!(w.get_block(0, CH, 0), Block::Air);
    assert_eq!(w.get_block(100, 5, 100), Block::Air);
    assert_eq!(w.get_light(100, 12, 100), 0);
    assert_eq!(w.get_skylight(0, -3, 0), 0);
    assert_eq!(w.water_level_at(100, 5, 100), 0);
    assert_eq!(w.height_at(100, 100), None);
    assert_eq!(w.height_at(-1, -1), Some(10));
}

#[test]
fn set_block_outside_or_unloaded_changes_nothing() {
    let mut w = flat_world();
    w.set_block(100, 12, 100, Block::Stone);
    w.set_block(0, CH, 0, Block::Stone);
    w.set_block(0, -1, 0, Block::Air);
    assert_eq!(w.get_block(100, 12, 100), Block::Air);
    assert!(w.edit_list().is_empty());
    assert!(w.water_queue.is_empty());
}

#[test]
fn set_block_records_edit_and_reads_back() {
    let mut w = flat_world();
    w.set_block(-3, 11, -7, Block::Glass);
    assert_eq!(w.get_block(-3, 11, -7), Block::Glass);
    assert_eq!(w.get_edit(-3, 11, -7), Some(Block::Glass as u8));
    assert_eq!(w.edit_list(), vec![(-3, 11, -7, Block::Glass as u8)]);
    // placing the same block again records nothing new
    w.set_block(-3, 11, -7, Block::Glass);
    assert_eq!(w.edit_list().len(), 1);
    // the column height follows opaque blocks only
    w.set_block(2, 20, 2, Block::Cobble);
    assert_eq!(w.height_at(2, 2), Some(20));
    w.set_block(2, 20, 2, Block::Air);
    assert_eq!(w.height_at(2, 2), Some(10));
}

#[test]
fn tick_water_with_no_budget_leaves_the_queue() {
    let mut w = flat_world();
    w.water_queue.push_back((1, 11, 1));
    w.tick_water(0);
    assert_eq!(w.water_queue.len(), 1);
    w.tick_water(-5);
    assert_eq!(w.water_queue.len(), 1);
    w.tick_water(1);
    assert!(w.water_queue.is_empty());
}

#[test]
fn loaded_chunks_and_dropping_far_ones() {
    let mut w = flat_world();
    let mut l = w.loaded_chunks();
    l.sort();
    assert_eq!(l.len(), 9);
    assert_eq!(l[0], (-1, -1));
    assert_eq!(l[8], (1, 1));
    w.drop_far_chunks(1, 1, 1);
    let mut l = w.loaded_chunks();
    l.sort();
    assert_eq!(l, vec![(0, 0), (0, 1), (1, 0), (1, 1)]);
    assert!(!w.is_loaded(-1, 0));
    assert!(w.is_loaded(0, 0));
}

#[test]
fn mark_clean_clears_dirty_flag() {
    let mut w = flat_world();
    assert!(w.chunk(0, 0).unwrap().dirty);
    w.mark_clean(0, 0);
    assert!(!w.chunk(0, 0).unwrap().dirty);
    w.set_block(3, 11, 3, Block::Stone);
    assert!(w.chunk(0, 0).unwrap().dirty);
}

#[test]
fn chunk_keys_pack_and_unpack() {
    for (cx, cz) in [(0, 0), (-1, 5), (i32::MIN, i32::MAX), (123456, -654321)] {
        let k = minicraft::world::chunk_key(cx, cz);
        assert_eq!(minicraft::world::key_coords(k), (cx, cz));
    }
    assert_ne!(minicraft::world::chunk_key(1, 0), minicraft::world::chunk_key(0, 1));
}

#[test]
fn split_uses_floor_division() {
    assert_eq!(minicraft::world::split(-1), (-1, 15));
    assert_eq!(minicraft::world::split(-16), (-1, 0));
    assert_eq!(minicraft::world::split(-17), (-2, 15));
    assert_eq!(minicraft::world::split(31), (1, 15));
}

#[test]
fn relighting_an_unloaded_chunk_changes_nothing() {
    let mut w = flat_world();
    let before: Vec<u8> = (0..16).map(|y| w.get_skylight(16 * 2 - 1, y, 0)).collect();
    w.relight_chunk(5, 5);
    w.relight_chunk(2, 0);
    let after: Vec<u8> = (0..16).map(|y| w.get_skylight(16 * 2 - 1, y, 0)).collect();
    assert_eq!(before, after);
    assert_eq!(w.get_light(16 * 2, 11, 0), 0);
    assert!(!w.is_loaded(2, 0));
}

#[test]
fn breaking_a_torch_leaves_its_cell_dark() {
    let mut w = flat_world();
    w.set_block(3, 11, 3, Block::Torch);
    w.set_block(3, 11, 3, Block::Air);
    assert_eq!(w.get_light(3, 11, 3), 0);
    assert_eq!(w.get_light(4, 11, 3), 0);
}

#[test]
fn an_unsupported_plant_breaks_and_is_recorded() {
    let mut w = flat_world();
    w.set_block(6, 11, 6, Block::TallGrass);
    w.set_block(6, 10, 6, Block::Air);
    assert_eq!(w.get_block(6, 11, 6), Block::Air);
    assert_eq!(w.get_edit(6, 11, 6), Some(Block::Air as u8));
    assert_eq!(w.get_edit(6, 10, 6), Some(Block::Air as u8));
}

#[test]
fn an_edit_queues_its_cell_and_neighbours() {
    let mut w = flat_world();
    let n0 = w.water_queue.len();
    w.set_block(7, 10, 7, Block::Air);
    let q: Vec<(i32, i32, i32)> = w.water_queue.iter().skip(n0).cloned().collect();
    assert_eq!(
        q,
        vec![(7, 10, 7), (8, 10, 7), (6, 10, 7), (7, 11, 7), (7, 9, 7), (7, 10, 8), (7, 10, 6)]
    );
}

#[test]
fn sky_light_flows_sideways_under_an_overhang() {
    let mut c = flat_chunk();
    for lz in 0..CS {
        for lx in 0..8 {
            c.blocks[idx(lx, 20, lz)] = Block::Stone as u8;
            c.heights[(lz * CS + lx) as usize] = 20;
        }
    }
    let mut w = World::new(1);
    w.insert_chunk(0, 0, c);
    w.relight_chunk(0, 0);
    assert_eq!(w.get_skylight(8, 15, 8), 15);
    assert_eq!(w.get_skylight(7, 15, 8), 14);
    assert_eq!(w.get_skylight(6, 15, 8), 13);
    assert_eq!(w.get_skylight(0, 19, 8), 7);
    assert_eq!(w.get_skylight(7, 20, 8), 0);
    assert_eq!(w.get_skylight(7, 21, 8), 15);
}

#[test]
fn column_heights_follow_placed_and_broken_blocks() {
    let mut w = flat_world();
    w.set_block(3, 30, 4, Block::Stone);
    assert_eq!(w.chunk(0, 0).unwrap().height(3, 4), 30);
    w.set_block(3, 30, 4, Block::Air);
    assert_eq!(w.chunk(0, 0).unwrap().height(3, 4), 10);
    w.set_block(3, 10, 4, Block::Air);
    assert_eq!(w.chunk(0, 0).unwrap().height(3, 4), 9);
    assert_eq!(w.chunk(0, 0).unwrap().height(4, 4), 10);
}

#[test]
fn torch_light_fades_one_per_step_and_stays_out_of_stone() {
    let mut w = flat_world();
    w.set_block(8, 11, 8, Block::Torch);
    assert_eq!(w.get_light(8, 11, 8), 14);
    for d in 0..14 {
        assert_eq!(w.get_light(8 + d, 11, 8), 14 - d as u8);
    }
    assert_eq!(w.get_light(22, 11, 8), 0);
    assert_eq!(w.get_light(8, 10, 8), 0);
    assert_eq!(w.get_light(9, 10, 8), 0);
}

#[test]
fn breaking_the_only_torch_takes_all_its_light() {
    let mut w = flat_world();
    w.set_block(2, 14, 3, Block::Torch);
    assert_eq!(w.get_light(2, 14, 3), 14);
    assert_eq!(w.get_light(-5, 14, 3), 7);
    w.set_block(2, 14, 3, Block::Air);
    for x in -16..32 {
        for z in -16..32 {
            for y in 11..30 {
                assert_eq!(w.get_light(x, y, z), 0, "({x}, {y}, {z})");
            }
        }
    }
}

#[test]
fn opening_a_roof_lets_full_sky_light_into_the_hole() {
    let mut w = flat_world();
    for dz in -2..=2 {
        for dx in -2..=2 {
            w.set_block(4 + dx, 95, 4 + dz, Block::Stone);
        }
    }
    assert_eq!(w.get_skylight(4, 95, 4), 0);
    assert_eq!(w.get_skylight(4, 94, 4), 12);
    w.set_block(4, 95, 4, Block::Air);
    assert_eq!(w.get_skylight(4, 95, 4), 15);
    assert_eq!(w.get_skylight(4, 94, 4), 15);
}
