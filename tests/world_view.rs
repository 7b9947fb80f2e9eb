use mcpe_world::{
    BlockData, BlockId, BlockInfo, BlockStorage, ChunkPos, Dimension, PaletteEntry, StoreOp, Subchunk,
    SubchunkPos, World, WorldError, WorldPos,
};

fn air() -> BlockInfo {
    BlockInfo { block_id: BlockId::air(), block_val: 0 }
}

fn cpos(x: i32, z: i32) -> ChunkPos {
    ChunkPos { x, z, dimension: Dimension::Overworld }
}

fn layer_record(palette: Vec<(&str, u16)>, blocks: Vec<u16>, second: Option<(Vec<(&str, u16)>, Vec<u16>)>) -> Vec<u8> {
    let mk = |p: Vec<(&str, u16)>, b: Vec<u16>| BlockStorage {
        blocks: b,
        palette: p.into_iter().map(|(n, v)| PaletteEntry { name: n.to_string(), val: v }).collect(),
    };
    let mut storages = vec![mk(palette, blocks)];
    if let Some((p, b)) = second {
        storages.push(mk(p, b));
    }
    Subchunk { block_storages: storages }.serialize()
}

fn put_ops(ops: &[StoreOp]) -> Vec<(Vec<u8>, Vec<u8>)> {
    ops.iter()
        .filter_map(|o| match o {
            StoreOp::Put { key, value } => Some((key.clone(), value.clone())),
            StoreOp::Delete { .. } => None,
        })
        .collect()
}

#[test]
fn table_starts_with_air() {
    let mut w = World::new();
    assert_eq!(w.name_count(), 1);
    assert_eq!(w.block_id("minecraft:air").get(), 1);
    assert_eq!(w.block_name(BlockId::air()), "minecraft:air");
}

#[test]
fn name_table_bijection() {
    let mut w = World::new();
    let names = ["minecraft:stone", "minecraft:dirt", "minecraft:stone", "minecraft:air", "minecraft:log", "minecraft:dirt"];
    let ids: Vec<BlockId> = names.iter().map(|n| w.block_id(n)).collect();
    for (n, id) in names.iter().zip(&ids) {
        assert_eq!(w.block_name(*id), *n);
        assert!(id.get() >= 1);
    }
    for i in 0..names.len() {
        for j in 0..names.len() {
            assert_eq!(names[i] == names[j], ids[i] == ids[j]);
        }
    }
    assert_eq!(ids.iter().map(|i| i.get()).collect::<Vec<_>>(), vec![2, 3, 2, 1, 4, 3]);
    assert_eq!(w.name_count(), 4);
}

#[test]
fn set_then_get_without_the_store() {
    let mut w = World::new();
    let c = cpos(-2, 5);
    w.add_chunk(c);
    let stone = BlockInfo { block_id: w.block_id("minecraft:stone"), block_val: 2 };
    let water = BlockInfo { block_id: w.block_id("minecraft:water"), block_val: 0 };
    let p = WorldPos { x: -17, y: 200, z: 95, dimension: Dimension::Overworld };
    assert_eq!(p.chunk_pos(), c);
    let d = BlockData { layer1: stone, layer2: water };
    w.set_block(&p, d);
    assert_eq!(w.get_block(&p), Some(d));
    let q = WorldPos { x: -18, y: 200, z: 95, dimension: Dimension::Overworld };
    assert_eq!(w.get_block(&q), Some(BlockData { layer1: air(), layer2: air() }));
}

#[test]
fn delete_then_add_gives_air() {
    let mut w = World::new();
    let c = cpos(3, -4);
    w.add_chunk(c);
    let stone = BlockInfo { block_id: w.block_id("minecraft:stone"), block_val: 0 };
    let origin = WorldPos { x: 48, y: 0, z: -64, dimension: Dimension::Overworld };
    w.set_block(&origin, BlockData { layer1: stone, layer2: stone });
    w.delete_chunk(c);
    assert_eq!(w.get_block(&origin), None);
    assert!(w.is_cached(&c));
    w.add_chunk(c);
    assert_eq!(w.get_block(&origin), Some(BlockData { layer1: air(), layer2: air() }));
}

#[test]
fn absent_chunk_reads_as_none() {
    let mut w = World::new();
    let c = cpos(0, 0);
    let mut records: Vec<Option<Vec<u8>>> = vec![None; 16];
    records[3] = Some(layer_record(vec![("minecraft:air", 0)], vec![0; 4096], None));
    assert_eq!(w.load_chunk(&c, &records), Ok(false));
    assert!(!w.is_cached(&c));
    let p = WorldPos { x: 1, y: 50, z: 2, dimension: Dimension::Overworld };
    assert_eq!(w.get_block(&p), None);
    assert_eq!(w.name_count(), 1);
}

#[test]
fn missing_second_layer_is_air() {
    let mut w = World::new();
    let c = cpos(1, 1);
    let mut blocks = vec![0u16; 4096];
    blocks[256 * 2 + 16 * 3 + 4] = 1;
    let mut records: Vec<Option<Vec<u8>>> = vec![None; 16];
    records[0] = Some(layer_record(vec![("minecraft:air", 0), ("minecraft:stone", 5)], blocks, None));
    assert_eq!(w.load_chunk(&c, &records), Ok(true));
    let stone = BlockInfo { block_id: w.block_id("minecraft:stone"), block_val: 5 };
    assert_eq!(stone.block_id.get(), 2);
    let p = WorldPos { x: 18, y: 4, z: 19, dimension: Dimension::Overworld };
    assert_eq!(w.get_block(&p), Some(BlockData { layer1: stone, layer2: air() }));
    // every cell of layer 2, and every absent subchunk, is air
    for y in [0u8, 4, 15, 16, 100, 255] {
        let q = WorldPos { x: 16, y, z: 31, dimension: Dimension::Overworld };
        assert_eq!(w.get_block(&q).unwrap().layer2, air());
    }
    let high = WorldPos { x: 18, y: 20, z: 19, dimension: Dimension::Overworld };
    assert_eq!(w.get_block(&high), Some(BlockData { layer1: air(), layer2: air() }));
}

#[test]
fn load_reads_two_layers_and_interns_in_order() {
    let mut w = World::new();
    let c = cpos(-1, 0);
    let mut records: Vec<Option<Vec<u8>>> = vec![None; 16];
    records[0] = Some(layer_record(
        vec![("minecraft:grass", 0), ("minecraft:dirt", 1)],
        (0..4096).map(|i| (i % 2) as u16).collect(),
        Some((vec![("minecraft:water", 7)], vec![0; 4096])),
    ));
    records[2] = Some(layer_record(vec![("minecraft:sand", 0)], vec![0; 4096], None));
    assert_eq!(w.load_chunk(&c, &records), Ok(true));
    assert_eq!(w.name_count(), 5);
    assert_eq!(w.block_name(w.get_block(&WorldPos { x: -16, y: 0, z: 0, dimension: Dimension::Overworld }).unwrap().layer1.block_id), "minecraft:grass");
    let d = w.get_block(&WorldPos { x: -16, y: 1, z: 0, dimension: Dimension::Overworld }).unwrap();
    assert_eq!(w.block_name(d.layer1.block_id), "minecraft:dirt");
    assert_eq!(d.layer1.block_val, 1);
    assert_eq!(w.block_name(d.layer2.block_id), "minecraft:water");
    assert_eq!(d.layer2.block_val, 7);
    let s = w.get_block(&WorldPos { x: -1, y: 40, z: 15, dimension: Dimension::Overworld }).unwrap();
    assert_eq!(w.block_name(s.layer1.block_id), "minecraft:sand");
    assert_eq!(s.layer1.block_id.get(), 5);
}

#[test]
fn load_errors_leave_the_view_unchanged() {
    let mut w = World::new();
    let c = cpos(7, 7);
    let mut records: Vec<Option<Vec<u8>>> = vec![None; 16];
    records[0] = Some(layer_record(vec![("minecraft:stone", 0)], vec![0; 4096], None));
    let mut bad = layer_record(vec![("minecraft:air", 0)], vec![0; 4096], None);
    bad[0] = 9;
    records[5] = Some(bad);
    assert_eq!(w.load_chunk(&c, &records), Err(WorldError::BadVersion));
    assert!(!w.is_cached(&c));
    assert_eq!(w.name_count(), 1);
}

#[test]
fn save_after_delete_issues_sixteen_deletes() {
    let mut w = World::new();
    let c = ChunkPos { x: 5, z: -6, dimension: Dimension::Nether };
    w.delete_chunk(c);
    let ops = w.save();
    assert_eq!(ops.len(), 16);
    for (i, op) in ops.iter().enumerate() {
        match op {
            StoreOp::Delete { key } => assert_eq!(*key, c.subchunk_pos(i as u8).key()),
            StoreOp::Put { .. } => panic!("a put for a deleted chunk"),
        }
    }
    // after the deletes the store has no subchunk 0 for the chunk
    let mut fresh = World::new();
    assert_eq!(fresh.load_chunk(&c, &vec![None; 16]), Ok(false));
    assert_eq!(fresh.get_block(&WorldPos { x: 80, y: 0, z: -96, dimension: Dimension::Nether }), None);
}

#[test]
fn save_then_load_gives_the_same_blocks() {
    let mut w = World::new();
    let c = cpos(2, 3);
    w.add_chunk(c);
    let names = ["minecraft:stone", "minecraft:planks", "minecraft:water"];
    let mut written = Vec::new();
    for (k, n) in names.iter().enumerate() {
        let info = BlockInfo { block_id: w.block_id(n), block_val: (k as u16) * 100 + 65000 };
        let p = WorldPos { x: 32 + k as i32, y: (k * 70) as u8, z: 48 + 2 * k as i32, dimension: Dimension::Overworld };
        w.set_block(&p, BlockData { layer1: info, layer2: air() });
        written.push((p, *n, info.block_val));
    }
    let ops = w.save();
    let puts = put_ops(&ops);
    assert_eq!(puts.len(), 16);
    for (i, (key, _)) in puts.iter().enumerate() {
        assert_eq!(*key, c.subchunk_pos(i as u8).key());
        assert_eq!(*key, SubchunkPos { x: 2, z: 3, subchunk: i as u8, dimension: Dimension::Overworld }.key());
    }
    let records: Vec<Option<Vec<u8>>> = puts.into_iter().map(|(_, v)| Some(v)).collect();
    let mut other = World::new();
    other.block_id("minecraft:water");
    assert_eq!(other.load_chunk(&c, &records), Ok(true));
    for (p, n, v) in written {
        let d = other.get_block(&p).unwrap();
        assert_eq!(other.block_name(d.layer1.block_id), n);
        assert_eq!(d.layer1.block_val, v);
        assert_eq!(d.layer2, air());
    }
    let untouched = WorldPos { x: 40, y: 9, z: 60, dimension: Dimension::Overworld };
    assert_eq!(other.get_block(&untouched), Some(BlockData { layer1: air(), layer2: air() }));
}

#[test]
fn single_block_layer_uses_one_bit() {
    let mut w = World::new();
    let c = cpos(0, 0);
    w.add_chunk(c);
    let ops = w.save();
    let puts = put_ops(&ops);
    let s = Subchunk::deserialize(&puts[0].1).unwrap();
    assert_eq!(puts[0].1[2], 0x02);
    assert_eq!(s.block_storages.len(), 2);
    assert_eq!(s.block_storages[0].palette, vec![PaletteEntry { name: "minecraft:air".to_string(), val: 0 }]);
    assert!(s.block_storages[1].blocks.iter().all(|b| *b == 0));
}

#[test]
fn layer_conversion_round_trip_allocates_no_id() {
    let mut table = mcpe_world::BlockTable::new();
    let stone = BlockInfo { block_id: table.get_id("minecraft:stone"), block_val: 3 };
    let mut sc = mcpe_world::create_air_subchunk();
    sc.data1[17] = stone;
    sc.data2[4095] = BlockInfo { block_id: stone.block_id, block_val: 0xFFFF };
    let raw = mcpe_world::convert_world_subchunk(&table, &sc);
    assert_eq!(raw.block_storages.len(), 2);
    let count = table.len();
    let back = mcpe_world::convert_subchunk(&mut table, &raw);
    assert_eq!(table.len(), count);
    assert_eq!(back.data1, sc.data1);
    assert_eq!(back.data2, sc.data2);
    // one stored layer gives an all-air second layer
    let single = Subchunk { block_storages: vec![raw.block_storages[0].clone()] };
    let back = mcpe_world::convert_subchunk(&mut table, &single);
    assert!(back.data2.iter().all(|b| *b == air()));
}
