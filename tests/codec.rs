use mcpe_world::{bits_per_block, BlockStorage, Encoder, PaletteEntry, Subchunk, WorldError};

fn entry(name: &str, val: u16) -> PaletteEntry {
    PaletteEntry { name: name.to_string(), val }
}

fn storage(blocks: Vec<u16>, palette: Vec<PaletteEntry>) -> BlockStorage {
    BlockStorage { blocks, palette }
}

fn one_layer(blocks: Vec<u16>, palette: Vec<PaletteEntry>) -> Subchunk {
    Subchunk { block_storages: vec![storage(blocks, palette)] }
}

fn air_only() -> Subchunk {
    one_layer(vec![0; 4096], vec![entry("minecraft:air", 0)])
}

fn same(a: &Subchunk, b: &Subchunk) -> bool {
    a.block_storages.len() == b.block_storages.len()
        && a.block_storages.iter().zip(&b.block_storages).all(|(x, y)| x.blocks == y.blocks && x.palette == y.palette)
}

#[test]
fn widths_for_palette_sizes() {
    assert_eq!(bits_per_block(0), 1);
    assert_eq!(bits_per_block(1), 1);
    assert_eq!(bits_per_block(2), 1);
    assert_eq!(bits_per_block(3), 2);
    assert_eq!(bits_per_block(5), 3);
    assert_eq!(bits_per_block(16), 4);
    assert_eq!(bits_per_block(17), 5);
    assert_eq!(bits_per_block(64), 6);
    assert_eq!(bits_per_block(65), 8);
    assert_eq!(bits_per_block(256), 8);
    assert_eq!(bits_per_block(257), 16);
    assert_eq!(bits_per_block(65536), 16);
}

#[test]
fn format_byte_follows_palette_size() {
    for (n, format) in [(5usize, 0x06u8), (16, 0x08), (17, 0x0A)] {
        let palette: Vec<PaletteEntry> = (0..n).map(|i| entry("minecraft:stone", i as u16)).collect();
        let blocks: Vec<u16> = (0..4096).map(|i| (i % n) as u16).collect();
        let bytes = one_layer(blocks, palette).serialize();
        assert_eq!(bytes[0], 8);
        assert_eq!(bytes[1], 1);
        assert_eq!(bytes[2], format);
    }
}

#[test]
fn first_word_packs_low_bits_first() {
    let mut blocks = vec![0u16; 4096];
    blocks[0] = 3;
    blocks[1] = 2;
    blocks[2] = 1;
    blocks[3] = 0;
    let palette = vec![entry("a:a", 0), entry("a:b", 0), entry("a:c", 0), entry("a:d", 0)];
    let bytes = one_layer(blocks, palette).serialize();
    assert_eq!(bytes[2], 0x04);
    // 3 in bits 0-1, 2 in bits 2-3, 1 in bits 4-5, 0 in bits 6-7
    assert_eq!(&bytes[3..7], &[0x1B, 0x00, 0x00, 0x00]);
}

#[test]
fn unused_high_bits_are_zero() {
    // width 3 holds ten indices per word; the top two bits stay clear
    let palette: Vec<PaletteEntry> = (0..8).map(|i| entry("a:x", i)).collect();
    let bytes = one_layer(vec![7; 4096], palette).serialize();
    assert_eq!(bytes[2], 0x06);
    assert_eq!(&bytes[3..7], &[0xFF, 0xFF, 0xFF, 0x3F]);
    // 410 words of indices
    assert_eq!(u32::from_le_bytes([bytes[3 + 4 * 410], bytes[4 + 4 * 410], bytes[5 + 4 * 410], bytes[6 + 4 * 410]]), 8);
}

#[test]
fn palette_entry_bytes() {
    let bytes = air_only().serialize();
    // version, count, format, 128 zero words, palette length
    assert_eq!(bytes.len(), 2 + 1 + 512 + 4 + 34);
    assert!(bytes[3..515].iter().all(|b| *b == 0));
    assert_eq!(&bytes[515..519], &[1, 0, 0, 0]);
    let mut expected = vec![0x0a, 0, 0, 0x08, 0, 4];
    expected.extend_from_slice(b"name");
    expected.extend_from_slice(&[0, 13]);
    expected.extend_from_slice(b"minecraft:air");
    expected.extend_from_slice(&[0x02, 0, 3]);
    expected.extend_from_slice(b"val");
    expected.extend_from_slice(&[0, 0, 0]);
    assert_eq!(&bytes[519..], &expected[..]);
}

#[test]
fn negative_values_keep_their_bits() {
    let s = one_layer(vec![0; 4096], vec![entry("minecraft:wool", 0xFFFE)]);
    let bytes = s.serialize();
    let n = bytes.len();
    assert_eq!(&bytes[n - 3..], &[0xFF, 0xFE, 0x00]);
    let back = Subchunk::deserialize(&bytes).unwrap();
    assert_eq!(back.block_storages[0].palette[0].val, 0xFFFE);
}

#[test]
fn decode_of_encode_is_identity() {
    let blocks1: Vec<u16> = (0..4096).map(|i| ((i * 7) % 300) as u16).collect();
    let palette1: Vec<PaletteEntry> = (0..300).map(|i| entry(&format!("test:block_{}", i), i as u16)).collect();
    let blocks2: Vec<u16> = (0..4096).map(|i| (i % 2) as u16).collect();
    let palette2 = vec![entry("minecraft:air", 0), entry("minecraft:water", 3)];
    let s = Subchunk { block_storages: vec![storage(blocks1, palette1), storage(blocks2, palette2)] };
    let bytes = s.serialize();
    assert_eq!(bytes[1], 2);
    assert_eq!(bytes[2], 0x20);
    let back = Subchunk::deserialize(&bytes).unwrap();
    assert!(same(&s, &back));
}

#[test]
fn encode_of_decode_is_identity() {
    let blocks: Vec<u16> = (0..4096).map(|i| (i % 5) as u16).collect();
    let palette: Vec<PaletteEntry> = (0..5).map(|i| entry("x:\u{0}\u{1F600}y", i)).collect();
    let bytes = one_layer(blocks, palette).serialize();
    let back = Subchunk::deserialize(&bytes).unwrap();
    assert_eq!(back.block_storages[0].palette[0].name, "x:\u{0}\u{1F600}y");
    assert_eq!(back.serialize(), bytes);
}

#[test]
fn round_trip_every_width() {
    for n in [2usize, 4, 8, 16, 32, 64, 256, 4096] {
        let palette: Vec<PaletteEntry> = (0..n).map(|i| entry("w:b", i as u16)).collect();
        let blocks: Vec<u16> = (0..4096).map(|i| ((i * 31 + 7) % n) as u16).collect();
        let s = one_layer(blocks, palette);
        let back = Subchunk::deserialize(&s.serialize()).unwrap();
        assert!(same(&s, &back));
    }
}

#[test]
fn encoder_appends() {
    let mut enc = Encoder::new(vec![0xAB]);
    enc.encode_chunk(&air_only());
    let bytes = enc.into_bytes();
    assert_eq!(bytes[0], 0xAB);
    assert_eq!(&bytes[1..], &air_only().serialize()[..]);
}

#[test]
fn decode_errors() {
    let good = air_only().serialize();
    assert_eq!(Subchunk::deserialize(&[]).err(), Some(WorldError::Truncated));
    assert_eq!(Subchunk::deserialize(&[8]).err(), Some(WorldError::Truncated));
    let mut v = good.clone();
    v[0] = 1;
    assert_eq!(Subchunk::deserialize(&v).err(), Some(WorldError::BadVersion));
    let mut v = good.clone();
    v[1] = 3;
    assert_eq!(Subchunk::deserialize(&v).err(), Some(WorldError::BadStorageCount));
    let mut v = good.clone();
    v[1] = 0;
    assert_eq!(Subchunk::deserialize(&v).err(), Some(WorldError::BadStorageCount));
    let mut v = good.clone();
    v[2] = 0x03;
    assert_eq!(Subchunk::deserialize(&v).err(), Some(WorldError::NetworkFormat));
    let mut v = good.clone();
    v[2] = 14;
    assert_eq!(Subchunk::deserialize(&v).err(), Some(WorldError::BadBitsPerBlock));
    let mut v = good.clone();
    v[2] = 0;
    assert_eq!(Subchunk::deserialize(&v).err(), Some(WorldError::BadBitsPerBlock));
    assert_eq!(Subchunk::deserialize(&good[..300]).err(), Some(WorldError::Truncated));
    assert_eq!(Subchunk::deserialize(&good[..517]).err(), Some(WorldError::Truncated));
    let mut v = good.clone();
    v[515] = 0;
    assert_eq!(Subchunk::deserialize(&v).err(), Some(WorldError::EmptyPalette));
    let mut v = good.clone();
    v.push(0);
    assert_eq!(Subchunk::deserialize(&v).err(), Some(WorldError::TrailingBytes));
    // a second layer is announced but missing
    let mut v = good.clone();
    v[1] = 2;
    assert_eq!(Subchunk::deserialize(&v).err(), Some(WorldError::Truncated));
    // an index past the one-entry palette
    let mut v = good.clone();
    v[3] = 1;
    assert_eq!(Subchunk::deserialize(&v).err(), Some(WorldError::PaletteIndexOutOfRange));
    // two entries announced, one present
    let mut v = good.clone();
    v[515] = 2;
    assert_eq!(Subchunk::deserialize(&v).err(), Some(WorldError::BadPaletteEntry));
}

fn record_with_entry(entry_bytes: &[u8]) -> Vec<u8> {
    let mut v = air_only().serialize();
    v.truncate(519);
    v.extend_from_slice(entry_bytes);
    v
}

#[test]
fn palette_entry_fields_are_required() {
    let mut blob = nbt::Blob::new();
    blob.insert("val", nbt::Value::Short(1)).unwrap();
    let mut bytes = Vec::new();
    blob.to_writer(&mut bytes).unwrap();
    assert_eq!(Subchunk::deserialize(&record_with_entry(&bytes)).err(), Some(WorldError::MissingName));

    let mut blob = nbt::Blob::new();
    blob.insert("name", nbt::Value::String("a:b".to_string())).unwrap();
    blob.insert("val", nbt::Value::Int(1)).unwrap();
    let mut bytes = Vec::new();
    blob.to_writer(&mut bytes).unwrap();
    assert_eq!(Subchunk::deserialize(&record_with_entry(&bytes)).err(), Some(WorldError::MissingVal));

    // unknown fields are tolerated
    let mut blob = nbt::Blob::new();
    blob.insert("version", nbt::Value::Int(17)).unwrap();
    blob.insert("val", nbt::Value::Short(-2)).unwrap();
    blob.insert("name", nbt::Value::String("a:b".to_string())).unwrap();
    let mut bytes = Vec::new();
    blob.to_writer(&mut bytes).unwrap();
    let s = Subchunk::deserialize(&record_with_entry(&bytes)).unwrap();
    assert_eq!(s.block_storages[0].palette[0], entry("a:b", 0xFFFE));
}

#[test]
fn long_names_round_trip() {
    let name: String = "a".repeat(20000) + "\u{1F600}\u{0}";
    let s = one_layer(vec![0; 4096], vec![entry(&name, 9)]);
    let back = Subchunk::deserialize(&s.serialize()).unwrap();
    assert!(same(&s, &back));
}

#[test]
fn blobs_the_reader_cannot_take_are_rejected() {
    // a byte array of negative length
    let negative = [0x0a, 0, 0, 0x07, 0, 1, b'x', 0xFF, 0xFF, 0xFF, 0xFF, 0];
    assert_eq!(Subchunk::deserialize(&record_with_entry(&negative)).err(), Some(WorldError::BadPaletteEntry));
    // an int array longer than the bytes left
    let long = [0x0a, 0, 0, 0x0b, 0, 1, b'i', 0, 0, 0, 10, 0];
    assert_eq!(Subchunk::deserialize(&record_with_entry(&long)).err(), Some(WorldError::BadPaletteEntry));
    // a list of negative length
    let list = [0x0a, 0, 0, 0x09, 0, 1, b'l', 0x01, 0xFF, 0xFF, 0xFF, 0xFF, 0];
    assert_eq!(Subchunk::deserialize(&record_with_entry(&list)).err(), Some(WorldError::BadPaletteEntry));
    // a list of end tags that claims elements
    let typeless = [0x0a, 0, 0, 0x09, 0, 1, b'l', 0x00, 0, 0, 0, 2, 0, 0, 0];
    assert_eq!(Subchunk::deserialize(&record_with_entry(&typeless)).err(), Some(WorldError::BadPaletteEntry));
    // compounds nested deeper than the reader is allowed to go
    let mut deep = vec![0x0a, 0, 0];
    for _ in 0..17 {
        deep.extend_from_slice(&[0x0a, 0, 1, b'c']);
    }
    deep.extend(std::iter::repeat(0u8).take(18));
    assert_eq!(Subchunk::deserialize(&record_with_entry(&deep)).err(), Some(WorldError::BadPaletteEntry));
    // a root that is no compound
    let root = [0x08, 0, 0, 0, 0];
    assert_eq!(Subchunk::deserialize(&record_with_entry(&root)).err(), Some(WorldError::BadPaletteEntry));
}

#[test]
fn flat_arrays_are_tolerated() {
    let mut blob = nbt::Blob::new();
    blob.insert("name", nbt::Value::String("a:c".to_string())).unwrap();
    blob.insert("bytes", nbt::Value::ByteArray(vec![1, 2, 3])).unwrap();
    blob.insert("val", nbt::Value::Short(4)).unwrap();
    blob.insert("longs", nbt::Value::LongArray(vec![7])).unwrap();
    let mut bytes = Vec::new();
    blob.to_writer(&mut bytes).unwrap();
    let s = Subchunk::deserialize(&record_with_entry(&bytes)).unwrap();
    assert_eq!(s.block_storages[0].palette[0], entry("a:c", 4));
}

#[test]
fn nested_unknown_fields_are_ignored() {
    // an empty compound, then name and val
    let mut bytes = vec![0x0a, 0, 0, 0x0a, 0, 1, b'c', 0];
    bytes.extend_from_slice(&[0x08, 0, 4]);
    bytes.extend_from_slice(b"name");
    bytes.extend_from_slice(&[0, 3]);
    bytes.extend_from_slice(b"a:b");
    bytes.extend_from_slice(&[0x02, 0, 3]);
    bytes.extend_from_slice(b"val");
    bytes.extend_from_slice(&[0, 6]);
    // a list of two compounds, each holding a list of shorts
    bytes.extend_from_slice(&[0x09, 0, 1, b'l', 0x0a, 0, 0, 0, 2]);
    for _ in 0..2 {
        bytes.extend_from_slice(&[0x09, 0, 1, b's', 0x02, 0, 0, 0, 2, 0, 1, 0, 2, 0]);
    }
    // sixteen levels of compounds, the deepest allowed
    for _ in 0..16 {
        bytes.extend_from_slice(&[0x0a, 0, 1, b'd']);
    }
    bytes.extend(std::iter::repeat(0u8).take(16));
    bytes.push(0);
    let s = Subchunk::deserialize(&record_with_entry(&bytes)).unwrap();
    assert_eq!(s.block_storages[0].palette[0], entry("a:b", 6));

    // the same through the named-tag writer, with a compound and a list field
    let mut inner = nbt::Map::new();
    inner.insert("x".to_string(), nbt::Value::Int(3));
    let mut blob = nbt::Blob::new();
    blob.insert("states", nbt::Value::Compound(inner)).unwrap();
    blob.insert("name", nbt::Value::String("a:c".to_string())).unwrap();
    blob.insert("tags", nbt::Value::List(vec![nbt::Value::String("t".to_string())])).unwrap();
    blob.insert("val", nbt::Value::Short(-1)).unwrap();
    let mut written = Vec::new();
    blob.to_writer(&mut written).unwrap();
    let s = Subchunk::deserialize(&record_with_entry(&written)).unwrap();
    assert_eq!(s.block_storages[0].palette[0], entry("a:c", 0xFFFF));
}

#[test]
fn name_length_in_encoded_bytes() {
    assert!(mcpe_world::name_fits_exec("minecraft:stone"));
    assert!(mcpe_world::name_fits_exec(&"a".repeat(65535)));
    assert!(!mcpe_world::name_fits_exec(&"a".repeat(65536)));
    // NUL takes two bytes, a character beyond the basic plane six
    assert!(!mcpe_world::name_fits_exec(&"\u{0}".repeat(32768)));
    assert!(mcpe_world::name_fits_exec(&"\u{1F600}".repeat(10922)));
    assert!(!mcpe_world::name_fits_exec(&"\u{1F600}".repeat(10923)));
}

#[test]
fn word_pack_then_unpack() {
    for (b, n) in [(1u8, 32usize), (3, 10), (5, 6), (16, 2)] {
        let blocks: Vec<u16> = (0..n).map(|i| ((i * 7 + 1) % (1 << b)) as u16).collect();
        let w = mcpe_world::pack_word(&blocks, 0, n, b);
        let mut out = vec![99u16];
        mcpe_world::unpack_word(w, b as u32, &mut out);
        assert_eq!(out[0], 99);
        assert_eq!(&out[1..1 + n], &blocks[..]);
    }
}
