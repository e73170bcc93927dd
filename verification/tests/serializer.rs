use img2mc::document::{build_document, decode_grid, encode_grid};
use img2mc::errors::Error;
use img2mc::grid::OutputGrid;
use img2mc::packing::{bits_per_entry, pack_entries, unpack_entries};
use img2mc::variant::air_variant;

#[test]
fn bits_per_entry_formula_examples() {
    assert_eq!(bits_per_entry(1), 2);
    assert_eq!(bits_per_entry(2), 2);
    assert_eq!(bits_per_entry(3), 2);
    assert_eq!(bits_per_entry(4), 2);
    assert_eq!(bits_per_entry(5), 3);
    assert_eq!(bits_per_entry(8), 3);
    assert_eq!(bits_per_entry(9), 4);
    assert_eq!(bits_per_entry(256), 8);
    assert_eq!(bits_per_entry(257), 9);
}

#[test]
fn pack_unpack_round_trip() {
    let values: Vec<u64> = (0..100u64).map(|v| v % 29).collect();
    let words = pack_entries(&values, 5);
    assert_eq!(words.len(), (100 * 5 + 63) / 64 + 1);
    let back = unpack_entries(&words, 5, 100);
    assert_eq!(back, values);
}

#[test]
fn pack_entry_straddles_word_boundary() {
    // 13 seven-bit entries: entry 9 spans bits 63..70, across both words.
    let values: Vec<u64> = (0..13u64).map(|v| 100 + v).collect();
    let words = pack_entries(&values, 7);
    assert_eq!(words.len(), (13 * 7 + 63) / 64 + 1);
    let back = unpack_entries(&words, 7, 13);
    assert_eq!(back, values);
}

#[test]
fn eight_variant_palette_exact_words() {
    // A 4x4 grid whose cell (x, y) holds variant (y * 4 + x) % 8: the
    // palette is exactly [0..8), three bits per entry, and the packed
    // array is ceil(3 * 16 / 64) + 1 = 2 words with a hand-computed layout.
    let mut cells = vec![0usize; 16];
    for y in 0..4 {
        for x in 0..4 {
            cells[y * 4 + x] = (y * 4 + x) % 8;
        }
    }
    let grid = OutputGrid::from_cells(4, 4, cells);
    let region = encode_grid(&grid, 8);
    assert_eq!(region.palette, vec![0, 1, 2, 3, 4, 5, 6, 7]);
    assert_eq!(region.bits, 3);
    assert_eq!(region.words.len(), 2);
    assert_eq!(region.words[0], 0x688fac688fac);
    assert_eq!(region.words[1], 0);
}

#[test]
fn palette_first_appearance_order() {
    // Scan is y outer, x inner; the reserved air entry comes first and
    // values are kept in order of first appearance.
    let cells = vec![3usize, 1, 3, 2];
    let grid = OutputGrid::from_cells(2, 2, cells);
    let region = encode_grid(&grid, 4);
    assert_eq!(region.palette, vec![0, 3, 1, 2]);
    assert_eq!(region.bits, 2);
}

#[test]
fn decode_reproduces_grid() {
    let cells = vec![2usize, 0, 1, 2, 4, 4, 0, 3, 1, 2, 3, 4, 0, 0, 2];
    let grid = OutputGrid::from_cells(3, 5, cells.clone());
    let region = encode_grid(&grid, 5);
    let back = decode_grid(&region, 3, 5);
    assert_eq!(back.cells, cells);
}

#[test]
fn document_header_fields() {
    let grid = OutputGrid::from_cells(2, 2, vec![0usize, 1, 1, 0]);
    let air = air_variant(1);
    let mut stone = air_variant(1);
    stone.id = "stone".to_string();
    stone.block_id = "minecraft:stone".to_string();
    let catalog = vec![air, stone];
    let d = build_document(&grid, &catalog, "picture".to_string(), 11, 22).unwrap();
    assert_eq!(d.data_version, 3465);
    assert_eq!(d.sub_version, 1);
    assert_eq!(d.version, 6);
    assert_eq!(d.enclosing_x, 2);
    assert_eq!(d.enclosing_y, 2);
    assert_eq!(d.enclosing_z, 1);
    assert_eq!(d.region_count, 1);
    assert_eq!(d.total_volume, 4);
    // two air cells are not counted as blocks
    assert_eq!(d.total_blocks, 2);
    assert_eq!(d.time_created, 11);
    assert_eq!(d.time_modified, 22);
    assert_eq!(d.author, "img2mc");
    assert_eq!(d.description, "Generated by img2mc");
    assert_eq!(d.name, "picture");
    assert_eq!(d.region_name, "Unnamed");
    assert_eq!(d.blocks.len(), 2);
    assert_eq!(d.blocks[0].block_id, "minecraft:air");
    assert!(d.blocks[0].properties.is_none());
    assert_eq!(d.blocks[1].block_id, "minecraft:stone");
    assert_eq!(d.region.palette, vec![0, 1]);
}

#[test]
fn document_consistency_error() {
    let grid = OutputGrid::from_cells(1, 2, vec![0usize, 5]);
    let catalog = vec![air_variant(1)];
    let r = build_document(&grid, &catalog, "n".to_string(), 0, 0);
    assert_eq!(r.unwrap_err(), Error::Consistency { variant_index: 5 });
}

#[test]
fn document_block_properties_copied() {
    let grid = OutputGrid::from_cells(1, 1, vec![1usize]);
    let air = air_variant(1);
    let mut stair = air_variant(1);
    stair.id = "oak_stair_0".to_string();
    stair.block_id = "minecraft:oak_stairs".to_string();
    stair.properties = Some(vec![
        ("facing".to_string(), "east".to_string()),
        ("half".to_string(), "bottom".to_string()),
    ]);
    let catalog = vec![air, stair];
    let d = build_document(&grid, &catalog, "n".to_string(), 0, 0).unwrap();
    assert_eq!(d.region.palette, vec![0, 1]);
    let props = d.blocks[1].properties.as_ref().unwrap();
    assert_eq!(props.len(), 2);
    assert_eq!(props[0], ("facing".to_string(), "east".to_string()));
    assert_eq!(props[1], ("half".to_string(), "bottom".to_string()));
}
