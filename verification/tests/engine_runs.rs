use img2mc::color::{ColorDelta, Rgba8, euclidean_distance};
use img2mc::engine::{cell_is_mixed, distribute_residual, quantize, residual, variant_score, Residual};
use img2mc::grid::{ErrorGrid, OutputGrid, PixelGrid};
use img2mc::kernel::{DitheringMatrix, Kernel};
use img2mc::variant::{air_variant, Variant};

fn solid(r: u8, g: u8, b: u8, a: u8, n: usize) -> PixelGrid {
    PixelGrid::uniform(n, n, Rgba8::new(r, g, b, a))
}

fn named_variant(id: &str, colors: PixelGrid) -> Variant {
    Variant {
        id: id.to_string(),
        colors,
        block_id: format!("minecraft:{}", id),
        properties: None,
    }
}

#[test]
fn euclidean_distance_exact() {
    let black = Rgba8::new(0, 0, 0, 0);
    let white = Rgba8::new(255, 255, 255, 255);
    assert_eq!(euclidean_distance(black, white), 4 * 255 * 255);
    assert_eq!(euclidean_distance(white, white), 0);
    let c1 = Rgba8::new(10, 20, 30, 255);
    let c2 = Rgba8::new(13, 16, 30, 255);
    assert_eq!(euclidean_distance(c1, c2), 9 + 16);
}

#[test]
fn transparent_source_selects_air_with_zero_residual() {
    // a 1x1 output grid, a catalog of only the air variant, and a fully
    // transparent source: air is chosen and the residual is zero
    let src = solid(0, 0, 0, 0, 1);
    let catalog = vec![air_variant(1)];
    let kern = Kernel::from_matrix(DitheringMatrix::JarvisJudiceNinke.to_matrix()).unwrap();
    let out = quantize(&src, &catalog, 1, &kern, 1, 1);
    assert_eq!(out.cells, vec![0usize]);
    let res = residual(&src, 1, 0, 0, ColorDelta::zero(), &catalog[0].colors);
    assert_eq!((res.r, res.g, res.b, res.a), (0, 0, 0, 0));
}

#[test]
fn exact_match_scores_zero_and_wins() {
    // a solid opaque source equal to one variant's grid: its CIEDE2000
    // distance is zero and it wins over every other variant
    let rr = 2;
    let src = solid(10, 20, 30, 255, rr);
    let air = air_variant(rr);
    let matching = named_variant("teal", solid(10, 20, 30, 255, rr));
    let other = named_variant("red", solid(200, 0, 0, 255, rr));
    let score = variant_score(&src, rr, 0, 0, ColorDelta::zero(), &matching.colors);
    assert_eq!(score, 0);
    let catalog = vec![air, matching, other];
    let kern = Kernel::from_matrix(DitheringMatrix::FloydSteinberg.to_matrix()).unwrap();
    let out = quantize(&src, &catalog, rr, &kern, 1, 1);
    assert_eq!(out.cells, vec![1usize]);
}

#[test]
fn transparent_pixel_switches_to_euclidean_mode() {
    // one fully transparent source pixel forces the squared-Euclidean
    // metric, which sees the alpha channel: of two variants differing only
    // in alpha, the transparent one wins even though it sits later in the
    // catalog (CIEDE2000 would have tied them and kept the earlier one)
    let src = solid(10, 20, 30, 0, 1);
    let opaque = named_variant("solid", solid(10, 20, 30, 255, 1));
    let clear = named_variant("clear", solid(10, 20, 30, 0, 1));
    assert!(cell_is_mixed(&src, 1, 0, 0, ColorDelta::zero(), &opaque.colors));
    let catalog = vec![opaque, clear];
    let kern = Kernel::from_matrix(DitheringMatrix::FloydSteinberg.to_matrix()).unwrap();
    let out = quantize(&src, &catalog, 1, &kern, 1, 1);
    assert_eq!(out.cells, vec![1usize]);
}

#[test]
fn opaque_cell_uses_perceptual_metric() {
    let src = solid(10, 20, 30, 255, 1);
    let v = named_variant("solid", solid(10, 20, 30, 255, 1));
    assert!(!cell_is_mixed(&src, 1, 0, 0, ColorDelta::zero(), &v.colors));
}

#[test]
fn out_of_bounds_residual_targets_are_skipped() {
    // cell (1, 1) of a 2x2 grid: every weighted kernel target falls
    // outside the grid (the row below and the columns to the right do not
    // exist), so no in-bounds accumulator entry changes and nothing
    // crashes
    let mut err = ErrorGrid::new_zero(2, 2);
    let kern = Kernel::from_matrix(DitheringMatrix::JarvisJudiceNinke.to_matrix()).unwrap();
    assert_eq!(kern.center_x, 2);
    assert_eq!(kern.total_weight, 48);
    let res = Residual { r: 48, g: -48, b: 96, a: 0 };
    distribute_residual(&mut err, &kern, 1, 1, res);
    let zero = ColorDelta::zero();
    assert_eq!(err.get(0, 0), zero);
    assert_eq!(err.get(1, 0), zero);
    assert_eq!(err.get(0, 1), zero);
    assert_eq!(err.get(1, 1), zero);
}

#[test]
fn residual_distributes_classic_shares() {
    // cell (0, 0) of a 2x2 grid under Floyd-Steinberg: 7/16 to the right
    // neighbor, 5/16 to the cell below, 1/16 below-right; the 3/16 share
    // aims below-left, which is out of bounds, and the processed cell
    // itself gains nothing
    let mut err = ErrorGrid::new_zero(2, 2);
    let kern = Kernel::from_matrix(DitheringMatrix::FloydSteinberg.to_matrix()).unwrap();
    let res = Residual { r: 16, g: -16, b: 32, a: 0 };
    distribute_residual(&mut err, &kern, 0, 0, res);
    assert_eq!(err.get(0, 0), ColorDelta::zero());
    let right = err.get(1, 0);
    assert_eq!((right.r, right.g, right.b, right.a), (7, -7, 14, 0));
    let below = err.get(0, 1);
    assert_eq!((below.r, below.g, below.b, below.a), (5, -5, 10, 0));
    let diag = err.get(1, 1);
    assert_eq!((diag.r, diag.g, diag.b, diag.a), (1, -1, 2, 0));
}

#[test]
fn residual_truncates_toward_zero() {
    // source 3, variant 5 at every sub-cell: mean of (3 - 5) over the four
    // sub-cells is -8 / 4 = -2; with a delta of +3 it is (4 * 1) / 4 = 1
    let rr = 2;
    let src = solid(3, 3, 3, 255, rr);
    let vg = solid(5, 5, 5, 255, rr);
    let res = residual(&src, rr, 0, 0, ColorDelta::zero(), &vg);
    assert_eq!((res.r, res.g, res.b), (-2, -2, -2));
    assert_eq!(res.a, 0);
    let shifted = ColorDelta { r: 3, g: 3, b: 3, a: 0 };
    let res2 = residual(&src, rr, 0, 0, shifted, &vg);
    assert_eq!((res2.r, res2.g, res2.b), (1, 1, 1));
}

#[test]
fn dithering_diffuses_error_to_later_rows() {
    // a 1x8 column of a mid gray matched against pure black and pure
    // white: without dithering every cell would pick the same variant;
    // the residual diffused to the rows below accumulates until a later
    // cell flips to the other variant
    let rr = 1;
    let mut pixels = Vec::new();
    for _ in 0..8 {
        pixels.push(Rgba8::new(128, 128, 128, 255));
    }
    let src = PixelGrid::from_pixels(1, 8, pixels);
    let black = named_variant("black", solid(0, 0, 0, 255, rr));
    let white = named_variant("white", solid(255, 255, 255, 255, rr));
    let catalog = vec![black, white];
    let kern = Kernel::from_matrix(DitheringMatrix::JarvisJudiceNinke.to_matrix()).unwrap();
    let out = quantize(&src, &catalog, rr, &kern, 1, 8);
    assert_eq!(out.cells.len(), 8);
    assert!(out.cells.contains(&0) && out.cells.contains(&1));
}

#[test]
fn quantize_row_major_dimensions() {
    // a 3x2 grid with distinct columns: each cell picks its own color,
    // confirming the (x, y) addressing between source and output
    let rr = 1;
    let colors = [
        Rgba8::new(250, 0, 0, 255),
        Rgba8::new(0, 250, 0, 255),
        Rgba8::new(0, 0, 250, 255),
    ];
    let mut pixels = Vec::new();
    for _y in 0..2 {
        for x in 0..3 {
            pixels.push(colors[x]);
        }
    }
    let src = PixelGrid::from_pixels(3, 2, pixels);
    let catalog = vec![
        named_variant("red", solid(250, 0, 0, 255, rr)),
        named_variant("green", solid(0, 250, 0, 255, rr)),
        named_variant("blue", solid(0, 0, 250, 255, rr)),
    ];
    let kern = Kernel::from_matrix(DitheringMatrix::JarvisJudiceNinke.to_matrix()).unwrap();
    let out = quantize(&src, &catalog, rr, &kern, 3, 2);
    assert_eq!(out.width, 3);
    assert_eq!(out.height, 2);
    for y in 0..2 {
        for x in 0..3 {
            assert_eq!(out.value_at(x, y), x);
        }
    }
}
