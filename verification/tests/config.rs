use std::str::FromStr;

use img2mc::errors::Error;
use img2mc::filter::{BlockPalette, TextureFilteringMode};
use img2mc::kernel::{DitheringMatrix, Kernel};

#[test]
fn to_matrix_values() {
    let jjn = DitheringMatrix::JarvisJudiceNinke.to_matrix();
    assert_eq!(jjn, vec![vec![0, 0, 0, 7, 5], vec![3, 5, 7, 5, 3], vec![1, 3, 5, 3, 1]]);
    let fs = DitheringMatrix::FloydSteinberg.to_matrix();
    assert_eq!(fs, vec![vec![0, 0, 7], vec![3, 5, 1]]);
}

#[test]
fn kernel_derived_constants() {
    // the center sits just before the first nonzero weight of row 0, so
    // that weight reaches the right-hand neighbor of the processed cell
    let jjn = Kernel::from_matrix(DitheringMatrix::JarvisJudiceNinke.to_matrix()).unwrap();
    assert_eq!(jjn.center_x, 2);
    assert_eq!(jjn.total_weight, 48);
    let fs = Kernel::from_matrix(DitheringMatrix::FloydSteinberg.to_matrix()).unwrap();
    assert_eq!(fs.center_x, 1);
    assert_eq!(fs.total_weight, 16);
}

#[test]
fn leading_weight_in_first_row_is_a_configuration_error() {
    // a row 0 that starts with a nonzero weight would send that weight to
    // an already-processed cell
    let r = Kernel::from_matrix(vec![vec![7, 5, 1], vec![1, 1, 1]]);
    assert_eq!(r.unwrap_err(), Error::Configuration);
}

#[test]
fn zero_first_row_is_a_configuration_error() {
    let r = Kernel::from_matrix(vec![vec![0, 0, 0], vec![1, 2, 3]]);
    assert_eq!(r.unwrap_err(), Error::Configuration);
}

#[test]
fn empty_and_ragged_matrices_are_configuration_errors() {
    assert_eq!(Kernel::from_matrix(vec![]).unwrap_err(), Error::Configuration);
    assert_eq!(Kernel::from_matrix(vec![vec![]]).unwrap_err(), Error::Configuration);
    assert_eq!(
        Kernel::from_matrix(vec![vec![0, 1], vec![1]]).unwrap_err(),
        Error::Configuration
    );
}

#[test]
fn dithering_matrix_parses_both_names() {
    assert_eq!(
        DitheringMatrix::from_str("JarvisJudiceNinke").unwrap(),
        DitheringMatrix::JarvisJudiceNinke
    );
    assert_eq!(
        DitheringMatrix::from_str("FloydSteinberg").unwrap(),
        DitheringMatrix::FloydSteinberg
    );
    assert!(DitheringMatrix::from_str("Ordered").is_err());
    assert!(DitheringMatrix::from_str("").is_err());
}

#[test]
fn block_palette_splits_on_commas() {
    let p = BlockPalette::from_str("stone,dirt,oak_planks").unwrap();
    assert_eq!(p.0, vec!["stone", "dirt", "oak_planks"]);
    let single = BlockPalette::from_str("stone").unwrap();
    assert_eq!(single.0, vec!["stone"]);
    let empty = BlockPalette::from_str("").unwrap();
    assert_eq!(empty.0, vec![""]);
}

#[test]
fn filtering_mode_admits() {
    let allow = TextureFilteringMode::AllowList(vec!["stone".to_string(), "dirt".to_string()]);
    assert!(allow.admits(&"stone".to_string()));
    assert!(!allow.admits(&"sand".to_string()));
    let block = TextureFilteringMode::BlockList(vec!["bedrock".to_string()]);
    assert!(!block.admits(&"bedrock".to_string()));
    assert!(block.admits(&"stone".to_string()));
    let open = TextureFilteringMode::BlockList(vec![]);
    assert!(open.admits(&"anything".to_string()));
}

#[test]
fn texture_info_two_fields() {
    let t = img2mc::blocks::parse_texture_info("stone|minecraft:stone").unwrap();
    assert_eq!(t.texture_name, "stone");
    assert_eq!(t.block_id, "minecraft:stone");
    assert!(t.properties.is_none());
}

#[test]
fn texture_info_with_properties() {
    let t =
        img2mc::blocks::parse_texture_info("oak_planks|minecraft:oak_stairs|facing=east,half=top")
            .unwrap();
    assert_eq!(t.texture_name, "oak_planks");
    assert_eq!(t.block_id, "minecraft:oak_stairs");
    let props = t.properties.unwrap();
    assert_eq!(props, vec![
        ("facing".to_string(), "east".to_string()),
        ("half".to_string(), "top".to_string()),
    ]);
}

#[test]
fn texture_info_malformed_lines() {
    assert_eq!(
        img2mc::blocks::parse_texture_info("stone").unwrap_err(),
        Error::Configuration
    );
    assert_eq!(
        img2mc::blocks::parse_texture_info("a|b|c|d").unwrap_err(),
        Error::Configuration
    );
    assert_eq!(
        img2mc::blocks::parse_texture_info("a|b|facing").unwrap_err(),
        Error::Configuration
    );
    assert_eq!(
        img2mc::blocks::parse_texture_info("a|b|facing=east=west").unwrap_err(),
        Error::Configuration
    );
}
