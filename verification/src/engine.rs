//! The quantization-and-dithering engine. Cells are visited row-major, top
//! row first and left to right inside a row. Per cell every catalog variant
//! is scored against the error-adjusted source region — by accumulated
//! CIEDE2000 distance for fully opaque cells, by accumulated squared
//! Euclidean distance over all four channels once any transparency is
//! involved — and the variant with the smallest accumulated distance wins,
//! ties resolved deterministically toward the lower catalog index. The
//! residual quantization error of the chosen variant is then diffused to
//! later cells through the dithering kernel.

use vstd::prelude::*;
use rayon::iter::ParallelIterator;
use rayon::prelude::IntoParallelRefIterator;
use crate::color::ColorDelta;
use crate::color::Rgba8;
use crate::color::adjusted_color;
use crate::color::adjusted_color_spec;
use crate::color::clip_i64_spec;
use crate::color::euclidean_distance;
use crate::color::euclidean_distance_spec;
use crate::color::saturating_add_i64;
use crate::color::tdiv_i128;
use crate::color::tdiv_spec;
use crate::distance::de2000_bits_of;
use crate::distance::de2000_distance_bits;
use crate::distance::fixed_of_bits;
use crate::distance::fixed_of_bits_spec;
use crate::distance::sat_add_u64;
use crate::distance::sat_add_u64_spec;
use crate::grid::ErrorGrid;
use crate::grid::OutputGrid;
use crate::grid::PixelGrid;
use crate::grid::lemma_grid_index;
use crate::kernel::Kernel;
use crate::variant::Variant;
use crate::variant::catalog_wf;

verus! {

/// One channel of a color, selected by index 0..3.
pub open spec fn channel_spec(c: Rgba8, ch: int) -> int {
    if ch == 0 {
        c.r as int
    } else if ch == 1 {
        c.g as int
    } else if ch == 2 {
        c.b as int
    } else {
        c.a as int
    }
}

/// One channel of an accumulator delta, selected by index 0..3.
pub open spec fn delta_channel_spec(d: ColorDelta, ch: int) -> int {
    if ch == 0 {
        d.r as int
    } else if ch == 1 {
        d.g as int
    } else if ch == 2 {
        d.b as int
    } else {
        d.a as int
    }
}

/// Whether sub-cell `(sx, sy)` of cell `(cx, cy)` exposes any transparency:
/// the error-adjusted source alpha below full opacity, or the variant's
/// alpha below full opacity.
pub open spec fn subcell_mixed_spec(
    src: PixelGrid,
    rr: int,
    cx: int,
    cy: int,
    e: ColorDelta,
    vg: PixelGrid,
    sx: int,
    sy: int,
) -> bool {
    src.px(cx * rr + sx, cy * rr + sy).a + e.a < 255 || vg.px(sx, sy).a < 255
}

/// A cell/variant pair is "mixed transparency" when any sub-cell exposes
/// transparency; the pair is then scored by squared Euclidean distance
/// instead of CIEDE2000.
pub open spec fn mixed_spec(
    src: PixelGrid,
    rr: int,
    cx: int,
    cy: int,
    e: ColorDelta,
    vg: PixelGrid,
) -> bool {
    exists|sx: int, sy: int|
        0 <= sx < rr && 0 <= sy < rr && #[trigger] subcell_mixed_spec(src, rr, cx, cy, e, vg, sx, sy)
}

/// The distance contribution of one sub-cell, in fixed-point units of
/// 2^-24: CIEDE2000 of the variant color and the error-adjusted clamped
/// source color when opaque, the squared Euclidean distance over all four
/// channels when mixed.
pub open spec fn subcell_term_spec(
    src: PixelGrid,
    rr: int,
    cx: int,
    cy: int,
    e: ColorDelta,
    vg: PixelGrid,
    sx: int,
    sy: int,
    mixed: bool,
) -> u64 {
    let sc = adjusted_color_spec(src.px(cx * rr + sx, cy * rr + sy), e);
    let vc = vg.px(sx, sy);
    if mixed {
        ((euclidean_distance_spec(vc, sc) as u64) << 24u64) as u64
    } else {
        fixed_of_bits_spec(de2000_bits_of(vc.r, vc.g, vc.b, sc.r, sc.g, sc.b))
    }
}

/// The accumulated distance over the first `s` sub-cells in scan order
/// (`sx` outer, `sy` inner), folded with saturating addition from zero.
pub open spec fn score_upto_spec(
    src: PixelGrid,
    rr: int,
    cx: int,
    cy: int,
    e: ColorDelta,
    vg: PixelGrid,
    mixed: bool,
    s: int,
) -> u64
    decreases s,
{
    if s <= 0 {
        0u64
    } else {
        sat_add_u64_spec(
            score_upto_spec(src, rr, cx, cy, e, vg, mixed, s - 1),
            subcell_term_spec(src, rr, cx, cy, e, vg, (s - 1) / rr, (s - 1) % rr, mixed),
        )
    }
}

/// The accumulated distance of one variant for one cell.
pub open spec fn variant_score_spec(
    src: PixelGrid,
    rr: int,
    cx: int,
    cy: int,
    e: ColorDelta,
    vg: PixelGrid,
) -> u64 {
    score_upto_spec(src, rr, cx, cy, e, vg, mixed_spec(src, rr, cx, cy, e, vg), rr * rr)
}

/// A source region with any not-fully-opaque pixel (after error
/// adjustment) switches the cell to squared-Euclidean scoring: whatever
/// variant is under consideration, its accumulated distance for that cell
/// is the mixed-transparency fold.
pub proof fn lemma_transparency_forces_euclidean(
    src: PixelGrid,
    rr: int,
    cx: int,
    cy: int,
    e: ColorDelta,
    vg: PixelGrid,
    sx: int,
    sy: int,
)
    requires
        0 <= sx < rr,
        0 <= sy < rr,
        src.px(cx * rr + sx, cy * rr + sy).a + e.a < 255,
    ensures
        mixed_spec(src, rr, cx, cy, e, vg),
        variant_score_spec(src, rr, cx, cy, e, vg) == score_upto_spec(
            src,
            rr,
            cx,
            cy,
            e,
            vg,
            true,
            rr * rr,
        ),
{
    assert(subcell_mixed_spec(src, rr, cx, cy, e, vg, sx, sy));
}

/// Decides whether the cell/variant pair is scored in mixed-transparency
/// mode.
pub fn cell_is_mixed(
    src: &PixelGrid,
    rr: usize,
    cx: usize,
    cy: usize,
    e: ColorDelta,
    vg: &PixelGrid,
) -> (m: bool)
    requires
        src.wf(),
        vg.wf(),
        vg.width == rr,
        vg.height == rr,
        rr >= 1,
        (cx + 1) * rr <= src.width,
        (cy + 1) * rr <= src.height,
    ensures
        m == mixed_spec(*src, rr as int, cx as int, cy as int, e, *vg),
{
    let mut sx: usize = 0;
    while sx < rr
        invariant
            src.wf(),
            vg.wf(),
            vg.width == rr,
            vg.height == rr,
            rr >= 1,
            (cx + 1) * rr <= src.width,
            (cy + 1) * rr <= src.height,
            sx <= rr,
            forall|px: int, py: int|
                0 <= px < sx && 0 <= py < rr ==> !#[trigger] subcell_mixed_spec(
                    *src,
                    rr as int,
                    cx as int,
                    cy as int,
                    e,
                    *vg,
                    px,
                    py,
                ),
        decreases rr - sx,
    {
        let mut sy: usize = 0;
        while sy < rr
            invariant
                src.wf(),
                vg.wf(),
                vg.width == rr,
                vg.height == rr,
                rr >= 1,
                (cx + 1) * rr <= src.width,
                (cy + 1) * rr <= src.height,
                sx < rr,
                sy <= rr,
                forall|px: int, py: int|
                    0 <= px < sx && 0 <= py < rr ==> !#[trigger] subcell_mixed_spec(
                        *src,
                        rr as int,
                        cx as int,
                        cy as int,
                        e,
                        *vg,
                        px,
                        py,
                    ),
                forall|py: int|
                    0 <= py < sy ==> !#[trigger] subcell_mixed_spec(
                        *src,
                        rr as int,
                        cx as int,
                        cy as int,
                        e,
                        *vg,
                        sx as int,
                        py,
                    ),
            decreases rr - sy,
        {
            proof {
                lemma_subcell_in_src(
                    src.width as int,
                    src.height as int,
                    rr as int,
                    cx as int,
                    cy as int,
                    sx as int,
                    sy as int,
                );
            }
            let sp: Rgba8 = src.pixel(cx * rr + sx, cy * rr + sy);
            let vp: Rgba8 = vg.pixel(sx, sy);
            if (sp.a as i64) + (if e.a > 255 {
                255
            } else {
                e.a
            }) < 255 || vp.a < 255 {
                proof {
                    assert(subcell_mixed_spec(
                        *src,
                        rr as int,
                        cx as int,
                        cy as int,
                        e,
                        *vg,
                        sx as int,
                        sy as int,
                    ));
                }
                return true;
            }
            sy += 1;
        }
        sx += 1;
    }
    false
}

/// The sub-cell `(sx, sy)` of cell `(cx, cy)` lies inside the source image.
pub proof fn lemma_subcell_in_src(w: int, h: int, rr: int, cx: int, cy: int, sx: int, sy: int)
    requires
        rr >= 1,
        0 <= sx < rr,
        0 <= sy < rr,
        0 <= cx,
        0 <= cy,
        (cx + 1) * rr <= w,
        (cy + 1) * rr <= h,
    ensures
        0 <= cx * rr + sx < w,
        0 <= cy * rr + sy < h,
{
    assert((cx + 1) * rr == cx * rr + rr) by (nonlinear_arith);
    assert((cy + 1) * rr == cy * rr + rr) by (nonlinear_arith);
    assert(cx * rr >= 0) by (nonlinear_arith)
        requires
            cx >= 0,
            rr >= 0,
    ;
    assert(cy * rr >= 0) by (nonlinear_arith)
        requires
            cy >= 0,
            rr >= 0,
    ;
}

/// Scores one variant for one cell: decides the metric, then accumulates
/// the per-sub-cell distances in scan order.
pub fn variant_score(
    src: &PixelGrid,
    rr: usize,
    cx: usize,
    cy: usize,
    e: ColorDelta,
    vg: &PixelGrid,
) -> (r: u64)
    requires
        src.wf(),
        vg.wf(),
        vg.width == rr,
        vg.height == rr,
        1 <= rr,
        rr * rr <= usize::MAX,
        (cx + 1) * rr <= src.width,
        (cy + 1) * rr <= src.height,
    ensures
        r == variant_score_spec(*src, rr as int, cx as int, cy as int, e, *vg),
{
    let mixed: bool = cell_is_mixed(src, rr, cx, cy, e, vg);
    let n: usize = rr * rr;
    let mut acc: u64 = 0;
    let mut s: usize = 0;
    while s < n
        invariant
            src.wf(),
            vg.wf(),
            vg.width == rr,
            vg.height == rr,
            1 <= rr,
            n == rr * rr,
            (cx + 1) * rr <= src.width,
            (cy + 1) * rr <= src.height,
            s <= n,
            mixed == mixed_spec(*src, rr as int, cx as int, cy as int, e, *vg),
            acc == score_upto_spec(
                *src,
                rr as int,
                cx as int,
                cy as int,
                e,
                *vg,
                mixed,
                s as int,
            ),
        decreases n - s,
    {
        let sx: usize = s / rr;
        let sy: usize = s % rr;
        proof {
            vstd::arithmetic::div_mod::lemma_fundamental_div_mod(s as int, rr as int);
            assert(sx < rr) by {
                if sx >= rr {
                    vstd::arithmetic::mul::lemma_mul_inequality(rr as int, sx as int, rr as int);
                    assert(rr as int * sx as int == sx as int * rr as int) by (nonlinear_arith);
                }
            }
            lemma_subcell_in_src(
                src.width as int,
                src.height as int,
                rr as int,
                cx as int,
                cy as int,
                sx as int,
                sy as int,
            );
        }
        let sp: Rgba8 = src.pixel(cx * rr + sx, cy * rr + sy);
        let vp: Rgba8 = vg.pixel(sx, sy);
        let sc: Rgba8 = adjusted_color(sp, e);
        let term: u64;
        if mixed {
            let d: usize = euclidean_distance(vp, sc);
            term = (d as u64) << 24u64;
        } else {
            term = fixed_of_bits(de2000_distance_bits(vp.r, vp.g, vp.b, sc.r, sc.g, sc.b));
        }
        proof {
            assert(term == subcell_term_spec(
                *src,
                rr as int,
                cx as int,
                cy as int,
                e,
                *vg,
                sx as int,
                sy as int,
                mixed,
            ));
        }
        acc = sat_add_u64(acc, term);
        s += 1;
    }
    acc
}

/// The first index of the minimum of a non-empty score sequence: the
/// deterministic tie-break toward the lower catalog index.
pub open spec fn first_min_spec(s: Seq<u64>) -> int
    decreases s.len(),
{
    if s.len() <= 1 {
        0
    } else {
        let m = first_min_spec(s.drop_last());
        if s.last() < s[m] {
            s.len() - 1
        } else {
            m
        }
    }
}

pub proof fn lemma_first_min(s: Seq<u64>)
    requires
        s.len() > 0,
    ensures
        0 <= first_min_spec(s) < s.len(),
        forall|j: int| 0 <= j < s.len() ==> #[trigger] s[j] >= s[first_min_spec(s)],
        forall|j: int| 0 <= j < first_min_spec(s) ==> #[trigger] s[j] > s[first_min_spec(s)],
    decreases s.len(),
{
    if s.len() > 1 {
        lemma_first_min(s.drop_last());
        assert forall|j: int| 0 <= j < s.len() implies #[trigger] s[j] >= s[first_min_spec(s)] by {
            if j < s.len() - 1 {
                assert(s.drop_last()[j] == s[j]);
            }
        }
        assert forall|j: int| 0 <= j < first_min_spec(s) implies #[trigger] s[j] > s[first_min_spec(s)] by {
            assert(s.drop_last()[j] == s[j]);
        }
    }
}

/// Scores every catalog variant for one cell. The catalog fan-out is the
/// parallel part of the engine; the scores come back in catalog order.
///
/// Relies on rayon's `par_iter`, `ParallelIterator::map` and `collect`
/// into `Vec`: an order-preserving parallel map. Every element is computed
/// by the verified `variant_score`.
#[verifier::external_body]
fn variant_scores_parallel(
    catalog: &Vec<Variant>,
    src: &PixelGrid,
    rr: usize,
    cx: usize,
    cy: usize,
    e: ColorDelta,
) -> (r: Vec<u64>)
    requires
        src.wf(),
        1 <= rr,
        rr * rr <= usize::MAX,
        (cx + 1) * rr <= src.width,
        (cy + 1) * rr <= src.height,
        forall|i: int| 0 <= i < catalog.len() ==> #[trigger] catalog[i].wf(rr as int),
    ensures
        r.len() == catalog.len(),
        forall|i: int|
            0 <= i < catalog.len() ==> #[trigger] r[i] == variant_score_spec(
                *src,
                rr as int,
                cx as int,
                cy as int,
                e,
                catalog[i].colors,
            ),
{
    catalog.par_iter().map(|v| variant_score(src, rr, cx, cy, e, &v.colors)).collect()
}

/// The scores of all catalog variants for one cell, in catalog order.
pub open spec fn cell_scores_spec(
    catalog: Seq<Variant>,
    src: PixelGrid,
    rr: int,
    cx: int,
    cy: int,
    e: ColorDelta,
) -> Seq<u64> {
    Seq::new(catalog.len(), |i: int| variant_score_spec(src, rr, cx, cy, e, catalog[i].colors))
}

/// The variant chosen for one cell: the first index of the minimal score.
pub open spec fn chosen_spec(
    catalog: Seq<Variant>,
    src: PixelGrid,
    rr: int,
    cx: int,
    cy: int,
    e: ColorDelta,
) -> int {
    first_min_spec(cell_scores_spec(catalog, src, rr, cx, cy, e))
}

/// Picks the first index of the minimal score.
pub fn select_min(scores: &Vec<u64>) -> (i: usize)
    requires
        scores.len() > 0,
    ensures
        i == first_min_spec(scores@),
{
    let mut best: usize = 0;
    let mut j: usize = 1;
    while j < scores.len()
        invariant
            scores.len() > 0,
            best < j,
            1 <= j <= scores.len(),
            best == first_min_spec(scores@.take(j as int)),
        decreases scores.len() - j,
    {
        proof {
            assert(scores@.take(j + 1).drop_last() =~= scores@.take(j as int));
            lemma_first_min(scores@.take(j as int));
        }
        if scores[j] < scores[best] {
            best = j;
        }
        j += 1;
    }
    proof {
        assert(scores@.take(scores.len() as int) =~= scores@);
    }
    best
}

/// The residual channel sum over the first `s` sub-cells: error-adjusted
/// (unclamped) source channel minus the chosen variant's channel.
pub open spec fn residual_sum_spec(
    src: PixelGrid,
    rr: int,
    cx: int,
    cy: int,
    e: ColorDelta,
    vg: PixelGrid,
    ch: int,
    s: int,
) -> int
    decreases s,
{
    if s <= 0 {
        0
    } else {
        residual_sum_spec(src, rr, cx, cy, e, vg, ch, s - 1) + channel_spec(
            src.px(cx * rr + (s - 1) / rr, cy * rr + (s - 1) % rr),
            ch,
        ) + delta_channel_spec(e, ch) - channel_spec(vg.px((s - 1) / rr, (s - 1) % rr), ch)
    }
}

/// The per-channel residual of a chosen variant: the mean of the
/// error-adjusted source minus the variant over the R x R sub-cells, by
/// integer division truncated toward zero.
pub open spec fn residual_channel_spec(
    src: PixelGrid,
    rr: int,
    cx: int,
    cy: int,
    e: ColorDelta,
    vg: PixelGrid,
    ch: int,
) -> int {
    tdiv_spec(residual_sum_spec(src, rr, cx, cy, e, vg, ch, rr * rr), rr * rr)
}

/// The four residual channels of a chosen variant for one cell.
pub struct Residual {
    pub r: i128,
    pub g: i128,
    pub b: i128,
    pub a: i128,
}

pub open spec fn residual_channel_of(res: Residual, ch: int) -> int {
    if ch == 0 {
        res.r as int
    } else if ch == 1 {
        res.g as int
    } else if ch == 2 {
        res.b as int
    } else {
        res.a as int
    }
}

/// Computes the residual quantization error of the chosen variant.
pub fn residual(
    src: &PixelGrid,
    rr: usize,
    cx: usize,
    cy: usize,
    e: ColorDelta,
    vg: &PixelGrid,
) -> (res: Residual)
    requires
        src.wf(),
        vg.wf(),
        vg.width == rr,
        vg.height == rr,
        1 <= rr <= 0xffff,
        (cx + 1) * rr <= src.width,
        (cy + 1) * rr <= src.height,
    ensures
        forall|ch: int|
            0 <= ch < 4 ==> #[trigger] residual_channel_of(res, ch) == residual_channel_spec(
                *src,
                rr as int,
                cx as int,
                cy as int,
                e,
                *vg,
                ch,
            ),
        -0x8000_0000_0000_0200int <= res.r <= 0x8000_0000_0000_0200int,
        -0x8000_0000_0000_0200int <= res.g <= 0x8000_0000_0000_0200int,
        -0x8000_0000_0000_0200int <= res.b <= 0x8000_0000_0000_0200int,
        -0x8000_0000_0000_0200int <= res.a <= 0x8000_0000_0000_0200int,
{
    let n: usize = rr * rr;
    let mut sum_r: i128 = 0;
    let mut sum_g: i128 = 0;
    let mut sum_b: i128 = 0;
    let mut sum_a: i128 = 0;
    let ghost bound: int = 0x8000_0000_0000_0200int;  // term magnitude: |channel| + |delta| + 255
    let mut s: usize = 0;
    while s < n
        invariant
            src.wf(),
            vg.wf(),
            vg.width == rr,
            vg.height == rr,
            1 <= rr <= 0xffff,
            n == rr * rr,
            (cx + 1) * rr <= src.width,
            (cy + 1) * rr <= src.height,
            s <= n,
            bound == 0x8000_0000_0000_0200int,
            sum_r == residual_sum_spec(*src, rr as int, cx as int, cy as int, e, *vg, 0, s as int),
            sum_g == residual_sum_spec(*src, rr as int, cx as int, cy as int, e, *vg, 1, s as int),
            sum_b == residual_sum_spec(*src, rr as int, cx as int, cy as int, e, *vg, 2, s as int),
            sum_a == residual_sum_spec(*src, rr as int, cx as int, cy as int, e, *vg, 3, s as int),
            -((s as int) * bound) <= sum_r <= (s as int) * bound,
            -((s as int) * bound) <= sum_g <= (s as int) * bound,
            -((s as int) * bound) <= sum_b <= (s as int) * bound,
            -((s as int) * bound) <= sum_a <= (s as int) * bound,
        decreases n - s,
    {
        let sx: usize = s / rr;
        let sy: usize = s % rr;
        proof {
            vstd::arithmetic::div_mod::lemma_fundamental_div_mod(s as int, rr as int);
            assert(sx < rr) by {
                if sx >= rr {
                    vstd::arithmetic::mul::lemma_mul_inequality(rr as int, sx as int, rr as int);
                    assert(rr as int * sx as int == sx as int * rr as int) by (nonlinear_arith);
                }
            }
            lemma_subcell_in_src(
                src.width as int,
                src.height as int,
                rr as int,
                cx as int,
                cy as int,
                sx as int,
                sy as int,
            );
            lemma_residual_bound_step(s as int, bound);
            assert(n <= 0xffff * 0xffff) by (nonlinear_arith)
                requires
                    n == rr * rr,
                    1 <= rr <= 0xffff,
            ;
            lemma_residual_bound_total((s + 1) as int, bound);
        }
        let sp: Rgba8 = src.pixel(cx * rr + sx, cy * rr + sy);
        let vp: Rgba8 = vg.pixel(sx, sy);
        sum_r = sum_r + (sp.r as i128 + e.r as i128 - vp.r as i128);
        sum_g = sum_g + (sp.g as i128 + e.g as i128 - vp.g as i128);
        sum_b = sum_b + (sp.b as i128 + e.b as i128 - vp.b as i128);
        sum_a = sum_a + (sp.a as i128 + e.a as i128 - vp.a as i128);
        s += 1;
    }
    proof {
        assert(n <= 0xffff * 0xffff) by (nonlinear_arith)
            requires
                n == rr * rr,
                1 <= rr <= 0xffff,
        ;
        lemma_residual_bound_total(n as int, bound);
        assert(n >= 1) by (nonlinear_arith)
            requires
                n == rr * rr,
                rr >= 1,
        ;
        lemma_mean_bounded(sum_r as int, n as int, bound);
        lemma_mean_bounded(sum_g as int, n as int, bound);
        lemma_mean_bounded(sum_b as int, n as int, bound);
        lemma_mean_bounded(sum_a as int, n as int, bound);
    }
    Residual {
        r: tdiv_i128(sum_r, n as i128),
        g: tdiv_i128(sum_g, n as i128),
        b: tdiv_i128(sum_b, n as i128),
        a: tdiv_i128(sum_a, n as i128),
    }
}

/// The truncated mean of `n` terms each bounded by `b` is bounded by `b`.
proof fn lemma_mean_bounded(sum: int, n: int, b: int)
    requires
        n >= 1,
        b >= 0,
        -(n * b) <= sum <= n * b,
    ensures
        -b <= tdiv_spec(sum, n) <= b,
{
    if sum >= 0 {
        vstd::arithmetic::div_mod::lemma_div_is_ordered(sum, n * b, n);
        vstd::arithmetic::div_mod::lemma_div_by_multiple(b, n);
        assert(b * n == n * b) by (nonlinear_arith);
        vstd::arithmetic::div_mod::lemma_div_pos_is_pos(sum, n);
    } else {
        vstd::arithmetic::div_mod::lemma_div_is_ordered(-sum, n * b, n);
        vstd::arithmetic::div_mod::lemma_div_by_multiple(b, n);
        assert(b * n == n * b) by (nonlinear_arith);
        vstd::arithmetic::div_mod::lemma_div_pos_is_pos(-sum, n);
    }
}

/// One more bounded term keeps the partial sum linearly bounded.
proof fn lemma_residual_bound_step(s: int, bound: int)
    requires
        s >= 0,
        bound >= 0,
    ensures
        (s + 1) * bound == s * bound + bound,
{
    assert((s + 1) * bound == s * bound + bound) by (nonlinear_arith);
}

/// The final sums stay far inside the `i128` range.
proof fn lemma_residual_bound_total(n: int, bound: int)
    requires
        0 <= n <= 0xffff * 0xffff,
        bound == 0x8000_0000_0000_0200int,
    ensures
        n * bound < 0x1_0000_0000_0000_0000_0000_0000int,
        -(n * bound) > -0x1_0000_0000_0000_0000_0000_0000int,
{
    assert(n * bound <= 0xffff * 0xffff * bound) by (nonlinear_arith)
        requires
            0 <= n <= 0xffff * 0xffff,
            bound >= 0,
    ;
}

/// The kernel's contribution to accumulator cell `(ex, ey)` when the cell
/// just processed is `(x, y)`: the residual channel scaled by the matching
/// kernel weight over the total weight, truncated toward zero; zero for
/// cells no kernel entry reaches.
pub open spec fn contribution_spec(
    kern: Kernel,
    resv: int,
    x: int,
    y: int,
    ex: int,
    ey: int,
) -> int {
    let kr = ey - y;
    let kc = ex - x + kern.center_x;
    if 0 <= kr < kern.rows_spec() && 0 <= kc < kern.cols_spec() {
        tdiv_spec(resv * kern.weight_spec(kr, kc), kern.total_weight as int)
    } else {
        0
    }
}

/// Residual propagation is causal: a cell gains a nonzero share only if it
/// lies strictly later in the scan than the cell just processed — in a row
/// below it, or to its right within the same row (the first reachable
/// row-0 weight sits at the right-hand neighbor).
pub proof fn lemma_contribution_causal(
    kern: Kernel,
    resv: int,
    x: int,
    y: int,
    ex: int,
    ey: int,
)
    requires
        kern.wf(),
    ensures
        contribution_spec(kern, resv, x, y, ex, ey) != 0 ==> (ey > y || (ey == y && ex > x)),
{
    let kr = ey - y;
    let kc = ex - x + kern.center_x;
    if contribution_spec(kern, resv, x, y, ex, ey) != 0 {
        assert(0 <= kr < kern.rows_spec() && 0 <= kc < kern.cols_spec());
        if kr == 0 && kc <= kern.center_x {
            assert(kern.weight_spec(kr, kc) == 0);
            assert(resv * 0 == 0) by (nonlinear_arith);
            assert(contribution_spec(kern, resv, x, y, ex, ey) == 0);
        }
    }
}

/// Distributes the residual of cell `(x, y)` to the error accumulator
/// through the kernel. Targets outside the grid are silently skipped: every
/// in-bounds cell that no kernel entry reaches keeps its value exactly, and
/// each reached cell gains its weighted share, saturating only at the
/// extremes of the `i64` channel range.
pub fn distribute_residual(
    err: &mut ErrorGrid,
    kern: &Kernel,
    x: usize,
    y: usize,
    res: Residual,
)
    requires
        old(err).wf(),
        kern.wf(),
        x < old(err).width,
        y < old(err).height,
        kern.rows_spec() <= 0xffff,
        kern.cols_spec() <= 0xffff,
        old(err).width <= 0x7fff_ffff,
        old(err).height <= 0x7fff_ffff,
        -0x8000_0000_0000_0200int <= res.r <= 0x8000_0000_0000_0200int,
        -0x8000_0000_0000_0200int <= res.g <= 0x8000_0000_0000_0200int,
        -0x8000_0000_0000_0200int <= res.b <= 0x8000_0000_0000_0200int,
        -0x8000_0000_0000_0200int <= res.a <= 0x8000_0000_0000_0200int,
    ensures
        final(err).wf(),
        final(err).width == old(err).width,
        final(err).height == old(err).height,
        forall|ex: int, ey: int|
            0 <= ex < old(err).width && 0 <= ey < old(err).height
                ==> #[trigger] final(err).at(ex, ey) == (ColorDelta {
                r: clip_i64_spec(
                    old(err).at(ex, ey).r + contribution_spec(*kern, res.r as int, x as int, y as int, ex, ey),
                ) as i64,
                g: clip_i64_spec(
                    old(err).at(ex, ey).g + contribution_spec(*kern, res.g as int, x as int, y as int, ex, ey),
                ) as i64,
                b: clip_i64_spec(
                    old(err).at(ex, ey).b + contribution_spec(*kern, res.b as int, x as int, y as int, ex, ey),
                ) as i64,
                a: clip_i64_spec(
                    old(err).at(ex, ey).a + contribution_spec(*kern, res.a as int, x as int, y as int, ex, ey),
                ) as i64,
            }),
{
    let rows: usize = kern.weights.len();
    let cols: usize = kern.weights[0].len();
    let mut kr: usize = 0;
    while kr < rows
        invariant
            err.wf(),
            kern.wf(),
            x < err.width,
            y < err.height,
            err.width == old(err).width,
            err.height == old(err).height,
            rows == kern.rows_spec(),
            cols == kern.cols_spec(),
            rows <= 0xffff,
            cols <= 0xffff,
            kr <= rows,
            err.width <= 0x7fff_ffff,
            err.height <= 0x7fff_ffff,
            -0x8000_0000_0000_0200int <= res.r <= 0x8000_0000_0000_0200int,
            -0x8000_0000_0000_0200int <= res.g <= 0x8000_0000_0000_0200int,
            -0x8000_0000_0000_0200int <= res.b <= 0x8000_0000_0000_0200int,
            -0x8000_0000_0000_0200int <= res.a <= 0x8000_0000_0000_0200int,
            forall|ex: int, ey: int|
                0 <= ex < err.width && 0 <= ey < err.height ==> #[trigger] err.at(ex, ey)
                    == (ColorDelta {
                    r: applied_channel_spec(*old(err), *kern, res.r as int, x as int, y as int, ex, ey, 0, kr as int, 0),
                    g: applied_channel_spec(*old(err), *kern, res.g as int, x as int, y as int, ex, ey, 1, kr as int, 0),
                    b: applied_channel_spec(*old(err), *kern, res.b as int, x as int, y as int, ex, ey, 2, kr as int, 0),
                    a: applied_channel_spec(*old(err), *kern, res.a as int, x as int, y as int, ex, ey, 3, kr as int, 0),
                }),
        decreases rows - kr,
    {
        let mut kc: usize = 0;
        while kc < cols
            invariant
                err.wf(),
                kern.wf(),
                x < err.width,
                y < err.height,
                err.width == old(err).width,
                err.height == old(err).height,
                rows == kern.rows_spec(),
                cols == kern.cols_spec(),
                rows <= 0xffff,
                cols <= 0xffff,
                kr < rows,
                kc <= cols,
                err.width <= 0x7fff_ffff,
                err.height <= 0x7fff_ffff,
                -0x8000_0000_0000_0200int <= res.r <= 0x8000_0000_0000_0200int,
                -0x8000_0000_0000_0200int <= res.g <= 0x8000_0000_0000_0200int,
                -0x8000_0000_0000_0200int <= res.b <= 0x8000_0000_0000_0200int,
                -0x8000_0000_0000_0200int <= res.a <= 0x8000_0000_0000_0200int,
                forall|ex: int, ey: int|
                    0 <= ex < err.width && 0 <= ey < err.height ==> #[trigger] err.at(ex, ey)
                        == (ColorDelta {
                        r: applied_channel_spec(*old(err), *kern, res.r as int, x as int, y as int, ex, ey, 0, kr as int, kc as int),
                        g: applied_channel_spec(*old(err), *kern, res.g as int, x as int, y as int, ex, ey, 1, kr as int, kc as int),
                        b: applied_channel_spec(*old(err), *kern, res.b as int, x as int, y as int, ex, ey, 2, kr as int, kc as int),
                        a: applied_channel_spec(*old(err), *kern, res.a as int, x as int, y as int, ex, ey, 3, kr as int, kc as int),
                    }),
            decreases cols - kc,
        {
            // target cell of kernel entry (kr, kc)
            let ghost pre = *err;
            let tx_ok: bool = x + kc >= kern.center_x && x + kc - kern.center_x < err.width;
            let ty_ok: bool = y + kr < err.height;
            if tx_ok && ty_ok {
                let ex: usize = x + kc - kern.center_x;
                let ey: usize = y + kr;
                proof {
                    assert(kern.weights@[kr as int].deep_view() == kern.weights.deep_view()[kr as int]);
                    assert(kern.weights@[kr as int]@ =~= kern.weights@[kr as int].deep_view());
                }
                let w: usize = kern.weights[kr][kc];
                proof {
                    crate::kernel::lemma_matrix_entry_le(
                        kern.weights.deep_view(),
                        kr as int,
                        kc as int,
                    );
                    assert(w as int == kern.weight_spec(kr as int, kc as int));
                    assert(w <= kern.total_weight);
                    lemma_contribution_product_bounds(
                        res.r as int,
                        res.g as int,
                        res.b as int,
                        res.a as int,
                        w as int,
                        kern.total_weight as int,
                    );
                }
                let old_cell: ColorDelta = err.get(ex, ey);
                let cr: i128 = tdiv_i128(res.r * w as i128, kern.total_weight as i128);
                let cg: i128 = tdiv_i128(res.g * w as i128, kern.total_weight as i128);
                let cb: i128 = tdiv_i128(res.b * w as i128, kern.total_weight as i128);
                let ca: i128 = tdiv_i128(res.a * w as i128, kern.total_weight as i128);
                let newc = ColorDelta {
                    r: saturating_add_i64(old_cell.r, cr),
                    g: saturating_add_i64(old_cell.g, cg),
                    b: saturating_add_i64(old_cell.b, cb),
                    a: saturating_add_i64(old_cell.a, ca),
                };
                err.set(ex, ey, newc);
                proof {
                    lemma_applied_step(
                        *old(err),
                        *kern,
                        res,
                        x as int,
                        y as int,
                        kr as int,
                        kc as int,
                        ex as int,
                        ey as int,
                    );
                    assert forall|ex2: int, ey2: int|
                        0 <= ex2 < err.width && 0 <= ey2 < err.height implies #[trigger] err.at(
                        ex2,
                        ey2,
                    ) == (ColorDelta {
                        r: applied_channel_spec(*old(err), *kern, res.r as int, x as int, y as int, ex2, ey2, 0, kr as int, kc as int + 1),
                        g: applied_channel_spec(*old(err), *kern, res.g as int, x as int, y as int, ex2, ey2, 1, kr as int, kc as int + 1),
                        b: applied_channel_spec(*old(err), *kern, res.b as int, x as int, y as int, ex2, ey2, 2, kr as int, kc as int + 1),
                        a: applied_channel_spec(*old(err), *kern, res.a as int, x as int, y as int, ex2, ey2, 3, kr as int, kc as int + 1),
                    }) by {
                        if ex2 == ex as int && ey2 == ey as int {
                            assert(err.at(ex2, ey2) == newc);
                            assert(pre.at(ex2, ey2) == old_cell);
                            assert(residual_channel_of(res, 0) == res.r as int);
                            assert(residual_channel_of(res, 1) == res.g as int);
                            assert(residual_channel_of(res, 2) == res.b as int);
                            assert(residual_channel_of(res, 3) == res.a as int);
                            assert(old_cell.r as int == delta_channel_spec(old(err).at(ex2, ey2), 0));
                            assert(old_cell.g as int == delta_channel_spec(old(err).at(ex2, ey2), 1));
                            assert(old_cell.b as int == delta_channel_spec(old(err).at(ex2, ey2), 2));
                            assert(old_cell.a as int == delta_channel_spec(old(err).at(ex2, ey2), 3));
                        } else {
                            assert(err.at(ex2, ey2) == pre.at(ex2, ey2));
                        }
                    }
                }
            } else {
                proof {
                    lemma_applied_step_skip(
                        *old(err),
                        *kern,
                        res,
                        x as int,
                        y as int,
                        kr as int,
                        kc as int,
                        err.width as int,
                        err.height as int,
                    );
                    assert forall|ex2: int, ey2: int|
                        0 <= ex2 < err.width && 0 <= ey2 < err.height implies #[trigger] err.at(
                        ex2,
                        ey2,
                    ) == (ColorDelta {
                        r: applied_channel_spec(*old(err), *kern, res.r as int, x as int, y as int, ex2, ey2, 0, kr as int, kc as int + 1),
                        g: applied_channel_spec(*old(err), *kern, res.g as int, x as int, y as int, ex2, ey2, 1, kr as int, kc as int + 1),
                        b: applied_channel_spec(*old(err), *kern, res.b as int, x as int, y as int, ex2, ey2, 2, kr as int, kc as int + 1),
                        a: applied_channel_spec(*old(err), *kern, res.a as int, x as int, y as int, ex2, ey2, 3, kr as int, kc as int + 1),
                    }) by {
                        assert(residual_channel_of(res, 0) == res.r as int);
                        assert(residual_channel_of(res, 1) == res.g as int);
                        assert(residual_channel_of(res, 2) == res.b as int);
                        assert(residual_channel_of(res, 3) == res.a as int);
                    }
                }
            }
            kc += 1;
        }
        proof {
            assert forall|ex2: int, ey2: int|
                0 <= ex2 < err.width && 0 <= ey2 < err.height implies #[trigger] err.at(ex2, ey2)
                == (ColorDelta {
                r: applied_channel_spec(*old(err), *kern, res.r as int, x as int, y as int, ex2, ey2, 0, kr as int + 1, 0),
                g: applied_channel_spec(*old(err), *kern, res.g as int, x as int, y as int, ex2, ey2, 1, kr as int + 1, 0),
                b: applied_channel_spec(*old(err), *kern, res.b as int, x as int, y as int, ex2, ey2, 2, kr as int + 1, 0),
                a: applied_channel_spec(*old(err), *kern, res.a as int, x as int, y as int, ex2, ey2, 3, kr as int + 1, 0),
            }) by {
                lemma_applied_row_advance(
                    *old(err),
                    *kern,
                    res,
                    x as int,
                    y as int,
                    ex2,
                    ey2,
                    kr as int,
                );
            }
        }
        kr += 1;
    }
    proof {
        assert forall|ex: int, ey: int|
            0 <= ex < err.width && 0 <= ey < err.height implies #[trigger] err.at(ex, ey)
            == (ColorDelta {
            r: clip_i64_spec(
                old(err).at(ex, ey).r + contribution_spec(*kern, res.r as int, x as int, y as int, ex, ey),
            ) as i64,
            g: clip_i64_spec(
                old(err).at(ex, ey).g + contribution_spec(*kern, res.g as int, x as int, y as int, ex, ey),
            ) as i64,
            b: clip_i64_spec(
                old(err).at(ex, ey).b + contribution_spec(*kern, res.b as int, x as int, y as int, ex, ey),
            ) as i64,
            a: clip_i64_spec(
                old(err).at(ex, ey).a + contribution_spec(*kern, res.a as int, x as int, y as int, ex, ey),
            ) as i64,
        }) by {
            lemma_applied_done(*old(err), *kern, res, x as int, y as int, ex, ey, rows as int);
        }
    }
}

/// The value channel `ch` of accumulator cell `(ex, ey)` holds after the
/// kernel entries before `(i, j)` (row-major over the kernel) have been
/// applied: the original value, plus the one matching contribution if its
/// kernel entry has already been processed.
pub open spec fn applied_channel_spec(
    orig: ErrorGrid,
    kern: Kernel,
    resv: int,
    x: int,
    y: int,
    ex: int,
    ey: int,
    ch: int,
    i: int,
    j: int,
) -> i64 {
    let kr = ey - y;
    let kc = ex - x + kern.center_x;
    let base = delta_channel_spec(orig.at(ex, ey), ch);
    if 0 <= kr < kern.rows_spec() && 0 <= kc < kern.cols_spec() && (kr < i || (kr == i && kc
        < j)) {
        clip_i64_spec(base + tdiv_spec(resv * kern.weight_spec(kr, kc), kern.total_weight as int))
            as i64
    } else {
        base as i64
    }
}

/// The weighted residual products stay far inside the `i128` range and the
/// truncated shares stay small enough to add saturating.
proof fn lemma_contribution_product_bounds(
    rr_: int,
    rg_: int,
    rb_: int,
    ra_: int,
    w: int,
    total: int,
)
    requires
        -0x8000_0000_0000_0200int <= rr_ <= 0x8000_0000_0000_0200int,
        -0x8000_0000_0000_0200int <= rg_ <= 0x8000_0000_0000_0200int,
        -0x8000_0000_0000_0200int <= rb_ <= 0x8000_0000_0000_0200int,
        -0x8000_0000_0000_0200int <= ra_ <= 0x8000_0000_0000_0200int,
        0 <= w <= total,
        0 < total <= u32::MAX,
    ensures
        -0x8000_0000_0000_0200_0000_0000int <= rr_ * w <= 0x8000_0000_0000_0200_0000_0000int,
        -0x8000_0000_0000_0200_0000_0000int <= rg_ * w <= 0x8000_0000_0000_0200_0000_0000int,
        -0x8000_0000_0000_0200_0000_0000int <= rb_ * w <= 0x8000_0000_0000_0200_0000_0000int,
        -0x8000_0000_0000_0200_0000_0000int <= ra_ * w <= 0x8000_0000_0000_0200_0000_0000int,
{
    assert(-0x8000_0000_0000_0200_0000_0000int <= rr_ * w <= 0x8000_0000_0000_0200_0000_0000int)
        by (nonlinear_arith)
        requires
            -0x8000_0000_0000_0200int <= rr_ <= 0x8000_0000_0000_0200int,
            0 <= w <= 0xffff_ffff,
    ;
    assert(-0x8000_0000_0000_0200_0000_0000int <= rg_ * w <= 0x8000_0000_0000_0200_0000_0000int)
        by (nonlinear_arith)
        requires
            -0x8000_0000_0000_0200int <= rg_ <= 0x8000_0000_0000_0200int,
            0 <= w <= 0xffff_ffff,
    ;
    assert(-0x8000_0000_0000_0200_0000_0000int <= rb_ * w <= 0x8000_0000_0000_0200_0000_0000int)
        by (nonlinear_arith)
        requires
            -0x8000_0000_0000_0200int <= rb_ <= 0x8000_0000_0000_0200int,
            0 <= w <= 0xffff_ffff,
    ;
    assert(-0x8000_0000_0000_0200_0000_0000int <= ra_ * w <= 0x8000_0000_0000_0200_0000_0000int)
        by (nonlinear_arith)
        requires
            -0x8000_0000_0000_0200int <= ra_ <= 0x8000_0000_0000_0200int,
            0 <= w <= 0xffff_ffff,
    ;
}

/// Finishing a kernel row is the same processed set as starting the next.
proof fn lemma_applied_row_advance(
    orig: ErrorGrid,
    kern: Kernel,
    res: Residual,
    x: int,
    y: int,
    ex: int,
    ey: int,
    kr: int,
)
    requires
        0 <= kr < kern.rows_spec(),
    ensures
        applied_channel_spec(orig, kern, res.r as int, x, y, ex, ey, 0, kr, kern.cols_spec())
            == applied_channel_spec(orig, kern, res.r as int, x, y, ex, ey, 0, kr + 1, 0),
        applied_channel_spec(orig, kern, res.g as int, x, y, ex, ey, 1, kr, kern.cols_spec())
            == applied_channel_spec(orig, kern, res.g as int, x, y, ex, ey, 1, kr + 1, 0),
        applied_channel_spec(orig, kern, res.b as int, x, y, ex, ey, 2, kr, kern.cols_spec())
            == applied_channel_spec(orig, kern, res.b as int, x, y, ex, ey, 2, kr + 1, 0),
        applied_channel_spec(orig, kern, res.a as int, x, y, ex, ey, 3, kr, kern.cols_spec())
            == applied_channel_spec(orig, kern, res.a as int, x, y, ex, ey, 3, kr + 1, 0),
{
}

proof fn lemma_applied_step(
    orig: ErrorGrid,
    kern: Kernel,
    res: Residual,
    x: int,
    y: int,
    kr: int,
    kc: int,
    ex: int,
    ey: int,
)
    requires
        0 <= kr < kern.rows_spec(),
        0 <= kc < kern.cols_spec(),
        ex == x + kc - kern.center_x,
        ey == y + kr,
        0 <= ex,
        0 <= ey,
    ensures
        forall|ex2: int, ey2: int, ch: int|
            !(ex2 == ex && ey2 == ey) ==> #[trigger] applied_channel_spec(
                orig,
                kern,
                residual_channel_of(res, ch),
                x,
                y,
                ex2,
                ey2,
                ch,
                kr,
                kc + 1,
            ) == applied_channel_spec(
                orig,
                kern,
                residual_channel_of(res, ch),
                x,
                y,
                ex2,
                ey2,
                ch,
                kr,
                kc,
            ),
        forall|ch: int|
            #[trigger] applied_channel_spec(
                orig,
                kern,
                residual_channel_of(res, ch),
                x,
                y,
                ex,
                ey,
                ch,
                kr,
                kc + 1,
            ) == clip_i64_spec(
                delta_channel_spec(orig.at(ex, ey), ch) + tdiv_spec(
                    residual_channel_of(res, ch) * kern.weight_spec(kr, kc),
                    kern.total_weight as int,
                ),
            ) as i64,
        forall|ch: int|
            #[trigger] applied_channel_spec(
                orig,
                kern,
                residual_channel_of(res, ch),
                x,
                y,
                ex,
                ey,
                ch,
                kr,
                kc,
            ) == delta_channel_spec(orig.at(ex, ey), ch) as i64,
{
    assert forall|ex2: int, ey2: int, ch: int|
        !(ex2 == ex && ey2 == ey) implies #[trigger] applied_channel_spec(
        orig,
        kern,
        residual_channel_of(res, ch),
        x,
        y,
        ex2,
        ey2,
        ch,
        kr,
        kc + 1,
    ) == applied_channel_spec(
        orig,
        kern,
        residual_channel_of(res, ch),
        x,
        y,
        ex2,
        ey2,
        ch,
        kr,
        kc,
    ) by {
        let kr2 = ey2 - y;
        let kc2 = ex2 - x + kern.center_x;
        if kr2 == kr && kc2 == kc {
            assert(ex2 == ex && ey2 == ey);
        }
    }
    assert forall|ch: int| true implies #[trigger] applied_channel_spec(
        orig,
        kern,
        residual_channel_of(res, ch),
        x,
        y,
        ex,
        ey,
        ch,
        kr,
        kc,
    ) == delta_channel_spec(orig.at(ex, ey), ch) as i64 by {
    }
}

proof fn lemma_applied_step_skip(
    orig: ErrorGrid,
    kern: Kernel,
    res: Residual,
    x: int,
    y: int,
    kr: int,
    kc: int,
    w: int,
    h: int,
)
    requires
        0 <= kr < kern.rows_spec(),
        0 <= kc < kern.cols_spec(),
        0 <= x < w,
        0 <= y < h,
        // the target of (kr, kc) is out of bounds
        !(x + kc >= kern.center_x && x + kc - kern.center_x < w && y + kr < h),
    ensures
        forall|ex2: int, ey2: int, ch: int|
            0 <= ex2 < w && 0 <= ey2 < h ==> #[trigger] applied_channel_spec(
                orig,
                kern,
                residual_channel_of(res, ch),
                x,
                y,
                ex2,
                ey2,
                ch,
                kr,
                kc + 1,
            ) == applied_channel_spec(
                orig,
                kern,
                residual_channel_of(res, ch),
                x,
                y,
                ex2,
                ey2,
                ch,
                kr,
                kc,
            ),
{
    assert forall|ex2: int, ey2: int, ch: int|
        0 <= ex2 < w && 0 <= ey2 < h implies #[trigger] applied_channel_spec(
        orig,
        kern,
        residual_channel_of(res, ch),
        x,
        y,
        ex2,
        ey2,
        ch,
        kr,
        kc + 1,
    ) == applied_channel_spec(
        orig,
        kern,
        residual_channel_of(res, ch),
        x,
        y,
        ex2,
        ey2,
        ch,
        kr,
        kc,
    ) by {
        let kr2 = ey2 - y;
        let kc2 = ex2 - x + kern.center_x;
        if kr2 == kr && kc2 == kc {
            assert(ex2 == x + kc - kern.center_x && ey2 == y + kr);
            assert(false);
        }
    }
}

/// After the whole kernel has been walked, each cell holds its original
/// value plus its single contribution.
proof fn lemma_applied_done(
    orig: ErrorGrid,
    kern: Kernel,
    res: Residual,
    x: int,
    y: int,
    ex: int,
    ey: int,
    rows: int,
)
    requires
        rows == kern.rows_spec(),
    ensures
        forall|ch: int|
            0 <= ch < 4 ==> #[trigger] applied_channel_spec(
                orig,
                kern,
                residual_channel_of(res, ch),
                x,
                y,
                ex,
                ey,
                ch,
                rows,
                0,
            ) == clip_i64_spec(
                delta_channel_spec(orig.at(ex, ey), ch) + contribution_spec(
                    kern,
                    residual_channel_of(res, ch),
                    x,
                    y,
                    ex,
                    ey,
                ),
            ) as i64,
        forall|ch: int|
            0 <= ch < 4 ==> clip_i64_spec(
                delta_channel_spec(orig.at(ex, ey), ch) + 0,
            ) == delta_channel_spec(orig.at(ex, ey), ch),
{
}


/// The zero accumulator entry.
pub open spec fn zero_delta_spec() -> ColorDelta {
    ColorDelta { r: 0i64, g: 0i64, b: 0i64, a: 0i64 }
}

/// The accumulator buffer after one cell's residual has been distributed:
/// each entry gains its (at most one) kernel contribution, saturating.
pub open spec fn distributed_cells_spec(
    cells: Seq<ColorDelta>,
    kern: Kernel,
    w: int,
    x: int,
    y: int,
    r0: int,
    r1: int,
    r2: int,
    r3: int,
) -> Seq<ColorDelta> {
    Seq::new(
        cells.len(),
        |j: int|
            ColorDelta {
                r: clip_i64_spec(cells[j].r + contribution_spec(kern, r0, x, y, j % w, j / w)) as i64,
                g: clip_i64_spec(cells[j].g + contribution_spec(kern, r1, x, y, j % w, j / w)) as i64,
                b: clip_i64_spec(cells[j].b + contribution_spec(kern, r2, x, y, j % w, j / w)) as i64,
                a: clip_i64_spec(cells[j].a + contribution_spec(kern, r3, x, y, j % w, j / w)) as i64,
            },
    )
}

/// The error accumulator buffer after the first `t` cells of the scan have
/// been processed.
pub open spec fn err_cells_after_spec(
    catalog: Seq<Variant>,
    src: PixelGrid,
    rr: int,
    kern: Kernel,
    w: int,
    h: int,
    t: int,
) -> Seq<ColorDelta>
    decreases t,
{
    if t <= 0 {
        Seq::new((w * h) as nat, |j: int| zero_delta_spec())
    } else {
        let prev = err_cells_after_spec(catalog, src, rr, kern, w, h, t - 1);
        let cx = (t - 1) % w;
        let cy = (t - 1) / w;
        let e = prev[cy * w + cx];
        let chosen = chosen_spec(catalog, src, rr, cx, cy, e);
        let vg = catalog[chosen].colors;
        distributed_cells_spec(
            prev,
            kern,
            w,
            cx,
            cy,
            residual_channel_spec(src, rr, cx, cy, e, vg, 0),
            residual_channel_spec(src, rr, cx, cy, e, vg, 1),
            residual_channel_spec(src, rr, cx, cy, e, vg, 2),
            residual_channel_spec(src, rr, cx, cy, e, vg, 3),
        )
    }
}

/// The chosen variant indices of the first `t` cells of the scan, in scan
/// order.
pub open spec fn out_after_spec(
    catalog: Seq<Variant>,
    src: PixelGrid,
    rr: int,
    kern: Kernel,
    w: int,
    h: int,
    t: int,
) -> Seq<usize>
    decreases t,
{
    if t <= 0 {
        Seq::empty()
    } else {
        let prev = err_cells_after_spec(catalog, src, rr, kern, w, h, t - 1);
        let cx = (t - 1) % w;
        let cy = (t - 1) / w;
        let e = prev[cy * w + cx];
        out_after_spec(catalog, src, rr, kern, w, h, t - 1).push(
            chosen_spec(catalog, src, rr, cx, cy, e) as usize,
        )
    }
}

/// Runs the engine: scans the cells row-major (rows top to bottom, left to
/// right within a row), scores every catalog variant for each cell against
/// the error-adjusted source region, picks the variant with the minimal
/// accumulated distance (ties toward the lower catalog index), and diffuses
/// each cell's residual through the kernel before moving on. The result is
/// the grid of chosen catalog indices; the whole run is pinned, cell by
/// cell, by `out_after_spec`.
pub fn quantize(
    src: &PixelGrid,
    catalog: &Vec<Variant>,
    rr: usize,
    kern: &Kernel,
    w: usize,
    h: usize,
) -> (g: OutputGrid)
    requires
        src.wf(),
        catalog_wf(catalog@, rr as int),
        kern.wf(),
        kern.rows_spec() <= 0xffff,
        kern.cols_spec() <= 0xffff,
        1 <= rr <= 0xffff,
        1 <= w <= 0x7fff_ffff,
        1 <= h <= 0x7fff_ffff,
        w * h <= usize::MAX,
        rr * rr <= usize::MAX,
        src.width == w * rr,
        src.height == h * rr,
    ensures
        g.wf(),
        g.width == w,
        g.height == h,
        g.cells@ == out_after_spec(
            catalog@,
            *src,
            rr as int,
            *kern,
            w as int,
            h as int,
            (w * h) as int,
        ),
        g.in_catalog(catalog.len() as int),
{
    let n: usize = w * h;
    let mut err: ErrorGrid = ErrorGrid::new_zero(w, h);
    let mut out: Vec<usize> = Vec::new();
    proof {
        assert(err.cells@ =~= err_cells_after_spec(
            catalog@,
            *src,
            rr as int,
            *kern,
            w as int,
            h as int,
            0,
        ));
    }
    let mut t: usize = 0;
    while t < n
        invariant
            src.wf(),
            catalog_wf(catalog@, rr as int),
            kern.wf(),
            kern.rows_spec() <= 0xffff,
            kern.cols_spec() <= 0xffff,
            1 <= rr <= 0xffff,
            1 <= w <= 0x7fff_ffff,
            1 <= h <= 0x7fff_ffff,
            n == w * h,
            rr * rr <= usize::MAX,
            src.width == w * rr,
            src.height == h * rr,
            t <= n,
            err.wf(),
            err.width == w,
            err.height == h,
            out@.len() == t,
            err.cells@ == err_cells_after_spec(
                catalog@,
                *src,
                rr as int,
                *kern,
                w as int,
                h as int,
                t as int,
            ),
            out@ == out_after_spec(
                catalog@,
                *src,
                rr as int,
                *kern,
                w as int,
                h as int,
                t as int,
            ),
            forall|j: int| 0 <= j < out@.len() ==> out@[j] < catalog@.len(),
        decreases n - t,
    {
        let cx: usize = t % w;
        proof {
            vstd::arithmetic::div_mod::lemma_fundamental_div_mod(t as int, w as int);
            assert(h > t as int / w as int) by {
                let q = t as int / w as int;
                if q >= h {
                    vstd::arithmetic::mul::lemma_mul_inequality(h as int, q, w as int);
                    assert(h as int * w as int == w as int * h as int) by (nonlinear_arith);
                    assert(q * w as int == w as int * q) by (nonlinear_arith);
                }
            }
        }
        let cy: usize = t / w;
        proof {
            lemma_grid_index(w as int, h as int, cx as int, cy as int);
            assert(cy as int * w as int + cx as int == t as int) by {
                assert(w as int * cy as int == cy as int * w as int) by (nonlinear_arith);
            }
            vstd::arithmetic::mul::lemma_mul_inequality(cx as int + 1, w as int, rr as int);
            vstd::arithmetic::mul::lemma_mul_inequality(cy as int + 1, h as int, rr as int);
            assert(w as int * rr as int == rr as int * w as int) by (nonlinear_arith);
            assert(h as int * rr as int == rr as int * h as int) by (nonlinear_arith);
            assert((cx as int + 1) * rr as int <= w as int * rr as int) by {
                assert((cx as int + 1) * rr as int == rr as int * (cx as int + 1))
                    by (nonlinear_arith);
                assert(rr as int * (cx as int + 1) <= rr as int * w as int) by (nonlinear_arith)
                    requires
                        cx as int + 1 <= w as int,
                        rr as int >= 0,
                ;
            }
            assert((cy as int + 1) * rr as int <= h as int * rr as int) by {
                assert((cy as int + 1) * rr as int == rr as int * (cy as int + 1))
                    by (nonlinear_arith);
                assert(rr as int * (cy as int + 1) <= rr as int * h as int) by (nonlinear_arith)
                    requires
                        cy as int + 1 <= h as int,
                        rr as int >= 0,
                ;
            }
        }
        let e: ColorDelta = err.get(cx, cy);
        let scores: Vec<u64> = variant_scores_parallel(catalog, src, rr, cx, cy, e);
        proof {
            assert(scores@ =~= cell_scores_spec(
                catalog@,
                *src,
                rr as int,
                cx as int,
                cy as int,
                e,
            ));
            lemma_first_min(cell_scores_spec(catalog@, *src, rr as int, cx as int, cy as int, e));
        }
        let sel: usize = select_min(&scores);
        out.push(sel);
        let ghost chosen = chosen_spec(catalog@, *src, rr as int, cx as int, cy as int, e);
        proof {
            assert(sel as int == chosen);
            assert(catalog@[chosen].wf(rr as int));
        }
        let vg: &PixelGrid = &catalog[sel].colors;
        let res: Residual = residual(src, rr, cx, cy, e, vg);
        let ghost pre_cells = err.cells@;
        distribute_residual(&mut err, kern, cx, cy, res);
        proof {
            let t1 = t as int + 1;
            let prev = err_cells_after_spec(
                catalog@,
                *src,
                rr as int,
                *kern,
                w as int,
                h as int,
                t as int,
            );
            assert(prev == pre_cells);
            assert(prev[cy as int * w as int + cx as int] == e);
            assert((t1 - 1) % w as int == cx as int && (t1 - 1) / w as int == cy as int);
            assert(err.cells@ =~= err_cells_after_spec(
                catalog@,
                *src,
                rr as int,
                *kern,
                w as int,
                h as int,
                t1,
            )) by {
                let target = err_cells_after_spec(
                    catalog@,
                    *src,
                    rr as int,
                    *kern,
                    w as int,
                    h as int,
                    t1,
                );
                assert(target == distributed_cells_spec(
                    prev,
                    *kern,
                    w as int,
                    cx as int,
                    cy as int,
                    residual_channel_spec(*src, rr as int, cx as int, cy as int, e, catalog@[chosen].colors, 0),
                    residual_channel_spec(*src, rr as int, cx as int, cy as int, e, catalog@[chosen].colors, 1),
                    residual_channel_spec(*src, rr as int, cx as int, cy as int, e, catalog@[chosen].colors, 2),
                    residual_channel_spec(*src, rr as int, cx as int, cy as int, e, catalog@[chosen].colors, 3),
                ));
                assert forall|j: int| 0 <= j < err.cells@.len() implies err.cells@[j] == target[j] by {
                    vstd::arithmetic::div_mod::lemma_fundamental_div_mod(j, w as int);
                    let ex = j % w as int;
                    let ey = j / w as int;
                    assert(ey < h) by {
                        if ey >= h {
                            vstd::arithmetic::mul::lemma_mul_inequality(h as int, ey, w as int);
                            assert(h as int * w as int == w as int * h as int)
                                by (nonlinear_arith);
                            assert(ey * w as int == w as int * ey) by (nonlinear_arith);
                        }
                    }
                    assert(ey * w as int + ex == j) by {
                        assert(w as int * ey == ey * w as int) by (nonlinear_arith);
                    }
                    assert(err.at(ex, ey) == err.cells@[j]);
                    assert(residual_channel_of(res, 0) == res.r as int);
                    assert(residual_channel_of(res, 1) == res.g as int);
                    assert(residual_channel_of(res, 2) == res.b as int);
                    assert(residual_channel_of(res, 3) == res.a as int);
                }
            }
            assert(out@ =~= out_after_spec(
                catalog@,
                *src,
                rr as int,
                *kern,
                w as int,
                h as int,
                t1,
            ));
        }
        t += 1;
    }
    let g = OutputGrid { width: w, height: h, cells: out };
    g
}

} // verus!
