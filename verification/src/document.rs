//! The structure serializer: builds, from an output grid and the catalog's
//! block metadata, a self-contained document value with header metadata,
//! one named region, a palette of the variants actually used, and the
//! bit-packed index array. The document value is plain data; writing it out
//! in its on-disk container is the caller's concern.

use vstd::prelude::*;
use vstd::arithmetic::power2::pow2;
use vstd::bits::lemma_u64_shl_is_mul;
use vstd::bits::lemma_u64_pow2_no_overflow;
use vstd::pervasive::VecAdditionalExecFns;
use crate::errors::Error;
use crate::grid::OutputGrid;
use crate::grid::lemma_grid_index;
use crate::packing::bits_per_entry;
use crate::packing::bits_per_entry_spec;
use crate::packing::extracted_spec;
use crate::packing::hi_zero_spec;
use crate::packing::pack_entries;
use crate::packing::unpack_entries;
use crate::variant::Variant;

verus! {

/// First-appearance deduplication: keeps the first occurrence of each value,
/// in order.
pub open spec fn dedup_spec(s: Seq<usize>) -> Seq<usize>
    decreases s.len(),
{
    if s.len() == 0 {
        Seq::empty()
    } else {
        let p = dedup_spec(s.drop_last());
        if p.contains(s.last()) {
            p
        } else {
            p.push(s.last())
        }
    }
}

/// The palette of a grid: the reserved empty/air entry first, then each
/// distinct variant index in order of first appearance, scanning with y as
/// the outer loop and x as the inner one (the buffer's own order).
pub open spec fn palette_spec(g: OutputGrid) -> Seq<usize> {
    dedup_spec(seq![0usize] + g.cells@)
}

pub proof fn lemma_dedup_contains(s: Seq<usize>, v: usize)
    ensures
        dedup_spec(s).contains(v) <==> s.contains(v),
    decreases s.len(),
{
    if s.len() > 0 {
        lemma_dedup_contains(s.drop_last(), v);
        assert(s.contains(v) <==> (s.drop_last().contains(v) || s.last() == v)) by {
            if s.contains(v) {
                let i = choose|i: int| 0 <= i < s.len() && s[i] == v;
                if i < s.len() - 1 {
                    assert(s.drop_last()[i] == v);
                }
            }
            if s.drop_last().contains(v) {
                let i = choose|i: int| 0 <= i < s.drop_last().len() && s.drop_last()[i] == v;
                assert(s[i] == v);
            }
        }
        let p = dedup_spec(s.drop_last());
        if !p.contains(s.last()) {
            assert(p.push(s.last()).contains(v) <==> (p.contains(v) || s.last() == v)) by {
                if p.contains(v) {
                    let i = choose|i: int| 0 <= i < p.len() && p[i] == v;
                    assert(p.push(s.last())[i] == v);
                }
                if s.last() == v {
                    assert(p.push(s.last())[p.len() as int] == v);
                }
                if p.push(s.last()).contains(v) {
                    let i = choose|i: int|
                        0 <= i < p.push(s.last()).len() && p.push(s.last())[i] == v;
                    if i < p.len() {
                        assert(p[i] == v);
                    }
                }
            }
        }
    }
}

pub proof fn lemma_dedup_distinct(s: Seq<usize>)
    ensures
        forall|i: int, j: int|
            0 <= i < j < dedup_spec(s).len() ==> dedup_spec(s)[i] != dedup_spec(s)[j],
    decreases s.len(),
{
    if s.len() > 0 {
        lemma_dedup_distinct(s.drop_last());
        let p = dedup_spec(s.drop_last());
        if !p.contains(s.last()) {
            assert forall|i: int, j: int|
                0 <= i < j < dedup_spec(s).len() implies dedup_spec(s)[i] != dedup_spec(
                s,
            )[j] by {
                if j < p.len() {
                } else {
                    assert(dedup_spec(s)[j] == s.last());
                    assert(dedup_spec(s)[i] == p[i]);
                    assert(!p.contains(s.last()));
                }
            }
        }
    }
}

/// Every palette entry is either the reserved air index or a value of the
/// grid, and is below the catalog size whenever the grid is.
pub proof fn lemma_dedup_members(s: Seq<usize>)
    ensures
        forall|i: int| 0 <= i < dedup_spec(s).len() ==> s.contains(#[trigger] dedup_spec(s)[i]),
    decreases s.len(),
{
    lemma_dedup_distinct(s);
    assert forall|i: int| 0 <= i < dedup_spec(s).len() implies s.contains(
        #[trigger] dedup_spec(s)[i],
    ) by {
        lemma_dedup_contains(s, dedup_spec(s)[i]);
        assert(dedup_spec(s).contains(dedup_spec(s)[i]));
    }
}

/// One block of the palette as the document carries it: the block
/// identifier and the optional property mapping, copied from the catalog.
#[derive(Debug)]
pub struct PaletteBlock {
    pub block_id: String,
    pub properties: Option<Vec<(String, String)>>,
}

/// The bit-packed region payload: the palette (as catalog indices), the
/// derived entry width, and the packed index array.
#[derive(Debug)]
pub struct EncodedRegion {
    pub palette: Vec<usize>,
    pub bits: usize,
    pub words: Vec<u64>,
}

/// The packing traversal visits cell `(t % W, H - 1 - t / W)` at step `t`:
/// the bottom row of the grid first, left to right within each row.
pub open spec fn packed_cell_spec(g: OutputGrid, t: int) -> usize {
    g.at(t % g.width as int, g.height - 1 - t / g.width as int)
}

/// The buffer position of the cell the packing traversal visits at step
/// `t` in a row-major `width` x `height` grid.
pub open spec fn packed_index_spec(width: int, height: int, t: int) -> int {
    (height - 1 - t / width) * width + (t % width)
}

impl EncodedRegion {
    /// The relation the encoder establishes between a grid and its encoded
    /// region: the palette is the first-appearance palette of the grid, the
    /// entry width is derived from the palette size, and entry `t` of the
    /// packed array is the palette index of the cell the traversal visits at
    /// step `t`.
    pub open spec fn encodes(self, g: OutputGrid) -> bool {
        &&& self.palette@ == palette_spec(g)
        &&& self.palette@.len() <= usize::MAX
        &&& self.bits == bits_per_entry_spec(self.palette@.len() as nat)
        &&& 2 <= self.bits <= 32
        &&& self.words@.len() == (g.cells@.len() * self.bits + 63) / 64 + 1
        &&& forall|t: int|
            0 <= t < g.cells@.len() ==> extracted_spec(self.words@, self.bits as nat, t as nat)
                == self.palette@.index_of(packed_cell_spec(g, t)) as u64
        &&& forall|t: int|
            0 <= t < g.cells@.len() ==> self.palette@.contains(packed_cell_spec(g, t))
        &&& hi_zero_spec(self.words@, g.cells@.len() * self.bits as int)
    }
}

/// Encodes a grid: builds its palette (air first, then first appearance),
/// derives the entry width, and packs one palette index per cell in the
/// packing traversal order.
pub fn encode_grid(grid: &OutputGrid, catalog_len: usize) -> (r: EncodedRegion)
    requires
        grid.wf(),
        grid.width > 0,
        grid.height > 0,
        grid.in_catalog(catalog_len as int),
        grid.cells@.len() * 32 + 127 <= usize::MAX,
        grid.cells@.len() + 1 <= 0x1_0000_0000,
    ensures
        r.encodes(*grid),
        r.palette@.len() <= grid.cells@.len() + 1,
        forall|i: int| 0 <= i < r.palette@.len() ==> #[trigger] r.palette@[i] < catalog_len,
        r.palette@[0] == 0,
        // the palette holds only the reserved air entry and values the grid
        // actually uses
        forall|i: int|
            1 <= i < r.palette@.len() ==> grid.cells@.contains(#[trigger] r.palette@[i]),
{
    let ghost full = seq![0usize] + grid.cells@;
    proof {
        assert(grid.cells@.len() >= 1) by {
            assert(grid.width * grid.height >= 1) by (nonlinear_arith)
                requires
                    grid.width >= 1,
                    grid.height >= 1,
            ;
        }
        assert(grid.cells@[0] < catalog_len);
    }
    // The palette, and a lookup table from variant index to palette position.
    let mut palette: Vec<usize> = Vec::new();
    palette.push(0);
    let mut position: Vec<usize> = Vec::new();
    let mut seen: Vec<bool> = Vec::new();
    let mut z: usize = 0;
    while z < catalog_len
        invariant
            position.len() == z,
            seen.len() == z,
            z <= catalog_len,
            forall|j: int| 0 <= j < z ==> #[trigger] seen[j] == (j == 0 && z > 0),
            forall|j: int| 0 <= j < z ==> #[trigger] position[j] == 0,
        decreases catalog_len - z,
    {
        seen.push(z == 0);
        position.push(0);
        z += 1;
    }
    proof {
        assert(full[0] == 0usize);
        assert(full.take(1).len() == 1);
        assert(full.take(1).last() == 0usize);
        assert(full.take(1).drop_last() =~= Seq::<usize>::empty());
        assert(dedup_spec(full.take(1).drop_last()) =~= Seq::<usize>::empty());
        assert(dedup_spec(full.take(1)) =~= seq![0usize]);
        assert(palette@ =~= dedup_spec(full.take(1)));
    }
    let n: usize = grid.cells.len();
    let mut i: usize = 0;
    while i < n
        invariant
            grid.wf(),
            grid.in_catalog(catalog_len as int),
            n == grid.cells@.len(),
            full == seq![0usize] + grid.cells@,
            i <= n,
            position.len() == catalog_len,
            seen.len() == catalog_len,
            palette@ == dedup_spec(full.take(i + 1)),
            palette@.len() <= i + 1,
            palette@[0] == 0,
            forall|v: int|
                0 <= v < catalog_len ==> (#[trigger] seen[v] == full.take(i + 1).contains(
                    v as usize,
                )),
            forall|v: int|
                0 <= v < catalog_len && seen[v] ==> {
                    &&& #[trigger] position[v] < palette@.len()
                    &&& palette@[position[v] as int] == v
                },
            forall|p: int| 0 <= p < palette@.len() ==> #[trigger] palette@[p] < catalog_len,
        decreases n - i,
    {
        let v: usize = grid.cells[i];
        proof {
            assert(full.take(i + 2).drop_last() =~= full.take(i + 1));
            assert(full.take(i + 2).last() == v);
            lemma_dedup_contains(full.take(i + 1), v);
        }
        if !seen[v] {
            position.set(v, palette.len());
            palette.push(v);
            seen.set(v, true);
        }
        proof {
            assert forall|w: int| 0 <= w < catalog_len implies (#[trigger] seen[w] == full.take(
                i + 2,
            ).contains(w as usize)) by {
                if full.take(i + 2).contains(w as usize) {
                    let t = choose|t: int|
                        0 <= t < full.take(i + 2).len() && #[trigger] full.take(i + 2)[t] == w as usize;
                    if t < i + 1 {
                        assert(full.take(i + 1)[t] == w as usize);
                        assert(full.take(i + 1).contains(w as usize));
                    }
                }
                if full.take(i + 1).contains(w as usize) {
                    let t = choose|t: int|
                        0 <= t < full.take(i + 1).len() && #[trigger] full.take(i + 1)[t] == w as usize;
                    assert(full.take(i + 2)[t] == w as usize);
                }
            }
        }
        i += 1;
    }
    proof {
        assert(full.take(n + 1) =~= full);
    }
    // The entry width and the packed index array.
    let bits: usize = bits_per_entry(palette.len());
    proof {
        if bits > 32 {
            // a palette of at most 2^32 entries never needs more than 32 bits
            crate::packing::lemma_clog2(palette@.len() as nat);
            assert(crate::packing::clog2_spec(palette@.len() as nat) == bits);
            assert(pow2((bits - 1) as nat) < palette@.len());
            assert(pow2(32) <= pow2((bits - 1) as nat)) by {
                if bits - 1 > 32 {
                    vstd::arithmetic::power2::lemma_pow2_strictly_increases(32, (bits - 1) as nat);
                }
            }
            vstd::arithmetic::power2::lemma2_to64();
            assert(false);
        }
        lemma_u64_pow2_no_overflow(bits as nat);
        lemma_u64_shl_is_mul(1u64, bits as u64);
    }
    let mut values: Vec<u64> = Vec::new();
    let mut t: usize = 0;
    while t < n
        invariant
            grid.wf(),
            grid.width > 0,
            grid.height > 0,
            grid.in_catalog(catalog_len as int),
            n == grid.cells@.len(),
            full == seq![0usize] + grid.cells@,
            t <= n,
            values@.len() == t,
            position.len() == catalog_len,
            seen.len() == catalog_len,
            palette@ == palette_spec(*grid),
            2 <= bits <= 32,
            pow2(bits as nat) >= palette@.len(),
            (1u64 << (bits as u64)) == pow2(bits as nat),
            forall|v: int|
                0 <= v < catalog_len ==> (#[trigger] seen[v] == full.contains(v as usize)),
            forall|v: int|
                0 <= v < catalog_len && seen[v] ==> {
                    &&& #[trigger] position[v] < palette@.len()
                    &&& palette@[position[v] as int] == v
                },
            forall|k: int|
                0 <= k < t ==> #[trigger] values@[k] == palette@.index_of(
                    packed_cell_spec(*grid, k),
                ) as u64,
            forall|k: int| 0 <= k < t ==> palette@.contains(packed_cell_spec(*grid, k)),
            forall|k: int| 0 <= k < t ==> #[trigger] values@[k] < (1u64 << (bits as u64)),
        decreases n - t,
    {
        let x: usize = t % grid.width;
        proof {
            vstd::arithmetic::div_mod::lemma_fundamental_div_mod(t as int, grid.width as int);
            assert(grid.cells@.len() == grid.width * grid.height);
            lemma_scan_step_bounds(n as int, grid.width as int, grid.height as int, t as int);
        }
        let y: usize = grid.height - 1 - t / grid.width;
        proof {
            lemma_grid_index(grid.width as int, grid.height as int, x as int, y as int);
        }
        let v: usize = grid.value_at(x, y);
        let pos: usize = position[v];
        proof {
            // the cell's value occurs in the scan, so it is in the palette
            let gi = y * grid.width + x;
            assert(full[1 + gi] == v);
            assert(full.contains(v));
            lemma_dedup_contains(full, v);
            lemma_dedup_distinct(full);
            // with distinct entries, the recorded position is the index_of
            let iof = palette@.index_of(v);
            assert(palette@.contains(v));
            assert(palette@[iof] == v);
            assert(palette@[pos as int] == v);
            if iof < pos as int {
                assert(palette@[iof] != palette@[pos as int]);
            }
            if (pos as int) < iof {
                assert(palette@[pos as int] != palette@[iof]);
            }
            assert(iof == pos as int);
            assert(pos < palette@.len());
            assert((pos as u64) < (1u64 << (bits as u64)));
            assert(packed_cell_spec(*grid, t as int) == v);
        }
        values.push(pos as u64);
        t += 1;
    }
    proof {
        vstd::arithmetic::mul::lemma_mul_inequality(bits as int, 32, n as int);
        assert(bits as int * n as int == n as int * bits as int) by (nonlinear_arith);
        assert(32 * n as int == n as int * 32) by (nonlinear_arith);
    }
    let words: Vec<u64> = pack_entries(&values, bits);
    proof {
        lemma_dedup_members(full);
        lemma_dedup_distinct(full);
        assert forall|t2: int|
            1 <= t2 < palette@.len() implies grid.cells@.contains(#[trigger] palette@[t2]) by {
            assert(full.contains(palette@[t2]));
            let j = choose|j: int| 0 <= j < full.len() && full[j] == palette@[t2];
            assert(palette@[t2] != 0) by {
                assert(palette@[0] == 0);
            }
            assert(j >= 1);
            assert(grid.cells@[j - 1] == palette@[t2]);
        }
        assert forall|t2: int|
            0 <= t2 < grid.cells@.len() implies extracted_spec(words@, bits as nat, t2 as nat)
            == palette@.index_of(packed_cell_spec(*grid, t2)) as u64 by {
            assert(extracted_spec(words@, bits as nat, t2 as nat) == values@[t2]);
            assert(values@[t2] == palette@.index_of(packed_cell_spec(*grid, t2)) as u64);
        }
    }
    EncodedRegion { palette, bits, words }
}

/// Every scan step of a `width` x `height` grid stays in a row below
/// `height`.
proof fn lemma_scan_step_bounds(n: int, width: int, height: int, k: int)
    requires
        width >= 1,
        height >= 1,
        n == width * height,
        0 <= k < n,
    ensures
        0 <= k % width < width,
        0 <= k / width < height,
{
    vstd::arithmetic::div_mod::lemma_fundamental_div_mod(k, width);
    let q = k / width;
    let rr = k % width;
    if q >= height {
        vstd::arithmetic::mul::lemma_mul_inequality(height, q, width);
        assert(height * width == width * height) by (nonlinear_arith);
        assert(q * width == width * q) by (nonlinear_arith);
    }
}

/// Decodes an encoded region back to the grid values: reads each packed
/// entry and looks it up in the palette, walking the packing traversal.
/// Together with `encode_grid`'s contract this is the round-trip law: the
/// decoder reproduces the encoded grid exactly.
pub fn decode_grid(region: &EncodedRegion, width: usize, height: usize) -> (g: OutputGrid)
    requires
        width > 0,
        height > 0,
        width * height * 32 + 127 <= usize::MAX,
        exists|g0: OutputGrid|
            {
                &&& #[trigger] region.encodes(g0)
                &&& g0.wf()
                &&& g0.width == width
                &&& g0.height == height
            },
    ensures
        forall|g1: OutputGrid|
            (#[trigger] region.encodes(g1) && g1.wf() && g1.width == width && g1.height
                == height) ==> g.cells@ == g1.cells@,
        g.wf(),
        g.width == width,
        g.height == height,
{
    let ghost g0 = choose|g0: OutputGrid|
        {
            &&& #[trigger] region.encodes(g0)
            &&& g0.wf()
            &&& g0.width == width
            &&& g0.height == height
        };
    let n: usize = width * height;
    proof {
        assert(g0.cells@.len() == n);
        assert(n * region.bits <= n * 32) by (nonlinear_arith)
            requires
                region.bits <= 32,
                n >= 0,
        ;
    }
    let entries: Vec<u64> = unpack_entries(&region.words, region.bits, n);
    let mut cells: Vec<usize> = Vec::new();
    let mut i: usize = 0;
    // an all-zero buffer first; the traversal then writes each cell
    while i < n
        invariant
            i <= n,
            cells.len() == i,
            forall|j: int| 0 <= j < i ==> cells[j] == 0usize,
        decreases n - i,
    {
        cells.push(0);
        i += 1;
    }
    proof {
        assert forall|k: int|
            0 <= k < n implies cells[#[trigger] packed_index_spec(
            width as int,
            height as int,
            k,
        )] == 0usize by {
            vstd::arithmetic::div_mod::lemma_fundamental_div_mod(k, width as int);
            lemma_scan_step_bounds(n as int, width as int, height as int, k);
            lemma_grid_index(width as int, height as int, k % width as int, height - 1 - k / width as int);
        }
    }
    let mut t: usize = 0;
    while t < n
        invariant
            region.encodes(g0),
            g0.wf(),
            g0.width == width,
            g0.height == height,
            width > 0,
            height > 0,
            n == width * height,
            n == g0.cells@.len(),
            t <= n,
            cells.len() == n,
            entries@.len() == n,
            forall|k: int|
                0 <= k < n ==> #[trigger] entries@[k] == extracted_spec(
                    region.words@,
                    region.bits as nat,
                    k as nat,
                ),
            forall|k: int|
                0 <= k < t ==> cells[#[trigger] packed_index_spec(width as int, height as int, k)]
                    == g0.cells@[packed_index_spec(width as int, height as int, k)],
            forall|k: int|
                t <= k < n ==> cells[#[trigger] packed_index_spec(width as int, height as int, k)]
                    == 0usize,
        decreases n - t,
    {
        let x: usize = t % width;
        proof {
            vstd::arithmetic::div_mod::lemma_fundamental_div_mod(t as int, width as int);
            lemma_scan_step_bounds(n as int, width as int, height as int, t as int);
        }
        let y: usize = height - 1 - t / width;
        proof {
            lemma_grid_index(width as int, height as int, x as int, y as int);
        }
        let e: u64 = entries[t];
        proof {
            assert(e == region.palette@.index_of(packed_cell_spec(g0, t as int)) as u64);
            assert(region.palette@.contains(packed_cell_spec(g0, t as int)));
            let iof = region.palette@.index_of(packed_cell_spec(g0, t as int));
            assert(0 <= iof < region.palette@.len());
            assert(region.palette@[iof] == packed_cell_spec(g0, t as int));
            assert(region.palette@.len() <= usize::MAX);
            assert(e as usize == iof);
        }
        let v: usize = region.palette[e as usize];
        proof {
            assert(v == packed_cell_spec(g0, t as int));
            assert(v == g0.at(x as int, y as int));
        }
        let ghost pre = cells@;
        cells.set(y * width + x, v);
        proof {
            assert(g0.at(x as int, y as int) == g0.cells@[y as int * width + x as int]);
            assert(packed_index_spec(width as int, height as int, t as int) == y as int * width
                + x as int);
            assert forall|k: int|
                t + 1 <= k < n implies cells[#[trigger] packed_index_spec(
                width as int,
                height as int,
                k,
            )] == 0usize by {
                let x2 = k % width as int;
                let y2 = height - 1 - k / width as int;
                vstd::arithmetic::div_mod::lemma_fundamental_div_mod(k, width as int);
                lemma_scan_step_bounds(n as int, width as int, height as int, k);
                lemma_grid_index(width as int, height as int, x2, y2);
                if y2 * width + x2 == y as int * width + x as int {
                    crate::grid::lemma_distinct_cells(width as int, x as int, y as int, x2, y2);
                    assert(x2 == x as int && y2 == y as int);
                    assert(k == t as int);
                    assert(false);
                }
            }
            assert forall|k: int|
                0 <= k < t + 1 implies cells[#[trigger] packed_index_spec(
                width as int,
                height as int,
                k,
            )] == g0.cells@[packed_index_spec(width as int, height as int, k)] by {
                let x2 = k % width as int;
                let y2 = height - 1 - k / width as int;
                vstd::arithmetic::div_mod::lemma_fundamental_div_mod(k, width as int);
                lemma_scan_step_bounds(n as int, width as int, height as int, k);
                lemma_grid_index(width as int, height as int, x2, y2);
                if k < t as int {
                    assert(pre[packed_index_spec(width as int, height as int, k)] == g0.cells@[
                        packed_index_spec(width as int, height as int, k)]);
                    if y2 * width + x2 == y as int * width + x as int {
                    } else {
                    }
                } else {
                    assert(k == t as int);
                    assert(v == g0.at(x as int, y as int));
                }
            }
        }
        t += 1;
    }
    let g = OutputGrid { width, height, cells };
    proof {
        assert forall|x2: int, y2: int|
            0 <= x2 < width && 0 <= y2 < height implies g.at(x2, y2) == g0.at(x2, y2) by {
            let k = (height - 1 - y2) * width + x2;
            assert(0 <= k < n) by {
                lemma_grid_index(width as int, height as int, x2, height - 1 - y2);
            }
            assert(k % width as int == x2 && k / width as int == height - 1 - y2) by {
                vstd::arithmetic::div_mod::lemma_fundamental_div_mod_converse(
                    k,
                    width as int,
                    height - 1 - y2,
                    x2,
                );
            }
            assert(packed_index_spec(width as int, height as int, k) == y2 * width + x2);
            assert(cells[y2 * width + x2] == g0.cells@[y2 * width + x2]);
        }
        assert forall|g1: OutputGrid|
            (#[trigger] region.encodes(g1) && g1.wf() && g1.width == width && g1.height
                == height) implies g.cells@ == g1.cells@ by {
            assert forall|x2: int, y2: int|
                0 <= x2 < width && 0 <= y2 < height implies g1.at(x2, y2) == g0.at(x2, y2) by {
                lemma_encodes_deterministic(*region, g0, g1, x2, y2);
            }
            assert(g.cells@ =~= g1.cells@) by {
                assert forall|j: int| 0 <= j < n implies g.cells@[j] == g1.cells@[j] by {
                    vstd::arithmetic::div_mod::lemma_fundamental_div_mod(j, width as int);
                    let y3 = j / width as int;
                    let x3 = j % width as int;
                    assert(width as int * y3 == y3 * width as int) by (nonlinear_arith);
                    assert(j == y3 * width as int + x3);
                    assert(y3 < height) by {
                        if y3 >= height {
                            vstd::arithmetic::mul::lemma_mul_inequality(
                                height as int,
                                y3,
                                width as int,
                            );
                            assert(height * width == width * height) by (nonlinear_arith);
                        }
                    }
                    assert(g.at(x3, y3) == g1.at(x3, y3));
                }
            }
        }
    }
    g
}

/// The round-trip law: two grids of one shape with the same encoding agree
/// on every cell, so decoding a packed region with the derived entry width
/// and the documented traversal reproduces the encoded grid exactly. The
/// packed entries pin each cell's palette index, and the palette has no
/// duplicates, so the indices pin the values.
pub proof fn lemma_encodes_deterministic(
    region: EncodedRegion,
    g0: OutputGrid,
    g1: OutputGrid,
    x: int,
    y: int,
)
    requires
        region.encodes(g0),
        region.encodes(g1),
        g0.wf(),
        g1.wf(),
        g0.width == g1.width,
        g0.height == g1.height,
        0 <= x < g0.width,
        0 <= y < g0.height,
    ensures
        g1.at(x, y) == g0.at(x, y),
{
    let width = g0.width as int;
    let height = g0.height as int;
    let t = (height - 1 - y) * width + x;
    assert(0 <= t < width * height) by {
        lemma_grid_index(width, height, x, height - 1 - y);
    }
    assert(g0.cells@.len() == width * height);
    assert(g1.cells@.len() == width * height);
    assert(t % width == x && t / width == height - 1 - y) by {
        vstd::arithmetic::div_mod::lemma_fundamental_div_mod_converse(
            t,
            width,
            height - 1 - y,
            x,
        );
    }
    assert(packed_cell_spec(g0, t) == g0.at(x, y));
    assert(packed_cell_spec(g1, t) == g1.at(x, y));
    let i0 = region.palette@.index_of(packed_cell_spec(g0, t));
    let i1 = region.palette@.index_of(packed_cell_spec(g1, t));
    assert(region.palette@.contains(packed_cell_spec(g0, t)));
    assert(region.palette@.contains(packed_cell_spec(g1, t)));
    assert(region.palette@[i0] == packed_cell_spec(g0, t));
    assert(region.palette@[i1] == packed_cell_spec(g1, t));
    assert(extracted_spec(region.words@, region.bits as nat, t as nat) == i0 as u64);
    assert(extracted_spec(region.words@, region.bits as nat, t as nat) == i1 as u64);
    assert(0 <= i0 < region.palette@.len());
    assert(0 <= i1 < region.palette@.len());
    assert(region.palette@.len() <= usize::MAX);
    assert(i0 as u64 as int == i0);
    assert(i1 as u64 as int == i1);
    assert(i0 == i1);
}


/// How many entries of `s` equal `v`.
pub open spec fn count_val_spec(s: Seq<usize>, v: usize) -> int
    decreases s.len(),
{
    if s.len() == 0 {
        0
    } else {
        count_val_spec(s.drop_last(), v) + if s.last() == v {
            1int
        } else {
            0int
        }
    }
}

pub proof fn lemma_count_val_bound(s: Seq<usize>, v: usize)
    ensures
        0 <= count_val_spec(s, v) <= s.len(),
    decreases s.len(),
{
    if s.len() > 0 {
        lemma_count_val_bound(s.drop_last(), v);
    }
}

/// The property mapping of a block, as the contracts see it: the key and
/// value strings of each pair, in order.
pub open spec fn props_view_spec(p: Option<Vec<(String, String)>>) -> Option<
    Seq<(Seq<char>, Seq<char>)>,
> {
    match p {
        Option::None => Option::None,
        Option::Some(v) => Option::Some(
            Seq::new(v.len() as nat, |i: int| (v[i].0@, v[i].1@)),
        ),
    }
}

/// Copies an optional property mapping, pair by pair.
fn clone_properties(p: &Option<Vec<(String, String)>>) -> (r: Option<Vec<(String, String)>>)
    ensures
        props_view_spec(r) == props_view_spec(*p),
{
    match p {
        Option::None => Option::None,
        Option::Some(v) => {
            let mut out: Vec<(String, String)> = Vec::new();
            let mut i: usize = 0;
            while i < v.len()
                invariant
                    i <= v.len(),
                    out.len() == i,
                    forall|j: int|
                        0 <= j < i ==> (#[trigger] out[j].0@, out[j].1@) == (v[j].0@, v[j].1@),
                decreases v.len() - i,
            {
                let key: String = v[i].0.clone();
                let val: String = v[i].1.clone();
                out.push((key, val));
                i += 1;
            }
            proof {
                assert(props_view_spec(Option::Some(out)) matches Option::Some(a) && props_view_spec(
                    Option::Some(*v),
                ) matches Option::Some(b) ==> a =~= b) by {
                    let a = Seq::new(out.len() as nat, |j: int| (out[j].0@, out[j].1@));
                    let b = Seq::new(v.len() as nat, |j: int| (v[j].0@, v[j].1@));
                    assert(a =~= b);
                }
            }
            Option::Some(out)
        },
    }
}

/// The finished structure document: fixed format and version tags, header
/// metadata, and exactly one named region holding the palette's block
/// descriptors and the packed index array. Writing this value out in its
/// on-disk container is the caller's concern.
#[derive(Debug)]
pub struct StructureDocument {
    pub data_version: i32,
    pub sub_version: i32,
    pub version: i32,
    pub enclosing_x: i32,
    pub enclosing_y: i32,
    pub enclosing_z: i32,
    pub region_count: i32,
    pub total_blocks: i32,
    pub total_volume: i32,
    pub time_created: i64,
    pub time_modified: i64,
    pub author: String,
    pub description: String,
    pub name: String,
    pub region_name: String,
    pub blocks: Vec<PaletteBlock>,
    pub region: EncodedRegion,
}

/// Builds the document for a finished output grid. The timestamps are
/// milliseconds since the epoch, read by the caller; the name is the
/// caller's output name. Fails with the consistency error exactly when some
/// cell references a variant index outside the catalog; on success every
/// header field, the palette's block descriptors, and the packed array are
/// pinned by the contract.
#[verifier::rlimit(100)]
pub fn build_document(
    grid: &OutputGrid,
    catalog: &Vec<Variant>,
    name: String,
    time_created: i64,
    time_modified: i64,
) -> (result: Result<StructureDocument, Error>)
    requires
        grid.wf(),
        grid.width > 0,
        grid.height > 0,
        grid.cells@.len() <= i32::MAX,
        grid.cells@.len() + 1 <= 0x1_0000_0000,
        grid.cells@.len() * 32 + 127 <= usize::MAX,
        catalog.len() > 0,
        catalog[0].block_id@ == "minecraft:air"@,
        catalog[0].properties is None,
    ensures
        result is Ok <==> grid.in_catalog(catalog.len() as int),
        result matches Err(e) ==> e matches Error::Consistency { variant_index } && variant_index
            >= catalog.len() && grid.cells@.contains(variant_index),
        result matches Ok(d) ==> d.data_version == 3465 && d.sub_version == 1 && d.version
            == 6,
        result matches Ok(d) ==> d.enclosing_x == grid.width && d.enclosing_y == grid.height
            && d.enclosing_z == 1 && d.region_count == 1,
        result matches Ok(d) ==> d.total_volume == grid.cells@.len() && d.total_blocks
            == grid.cells@.len() - count_val_spec(grid.cells@, 0),
        result matches Ok(d) ==> d.time_created == time_created && d.time_modified
            == time_modified,
        result matches Ok(d) ==> d.author@ == "img2mc"@ && d.description@
            == "Generated by img2mc"@ && d.name@ == name@ && d.region_name@ == "Unnamed"@,
        result matches Ok(d) ==> d.region.encodes(*grid),
        result matches Ok(d) ==> d.blocks@.len() == d.region.palette@.len(),
        // the reserved palette entry 0 maps to the built-in air identifier
        // with no properties
        result matches Ok(d) ==> d.blocks@[0].block_id@ == "minecraft:air"@
            && d.blocks@[0].properties is None,
        result matches Ok(d) ==> forall|i: int|
            0 <= i < d.blocks@.len() ==> (#[trigger] d.blocks@[i]).block_id@ == catalog@[d.region.palette@[i] as int].block_id@,
        result matches Ok(d) ==> forall|i: int|
            0 <= i < d.blocks@.len() ==> props_view_spec((#[trigger] d.blocks@[i]).properties)
                == props_view_spec(catalog@[d.region.palette@[i] as int].properties),
{
    let ghost name0 = name@;
    let n: usize = grid.cells.len();
    // Consistency: every cell must reference a catalog variant, and the
    // air cells are counted for the header.
    let mut air: usize = 0;
    let mut i: usize = 0;
    while i < n
        invariant
            n == grid.cells@.len(),
            i <= n,
            catalog.len() > 0,
            air == count_val_spec(grid.cells@.take(i as int), 0),
            air <= i,
            forall|j: int| 0 <= j < i ==> grid.cells@[j] < catalog.len(),
        decreases n - i,
    {
        let v: usize = grid.cells[i];
        proof {
            assert(grid.cells@.take(i + 1).drop_last() =~= grid.cells@.take(i as int));
            lemma_count_val_bound(grid.cells@.take(i + 1), 0);
        }
        if v >= catalog.len() {
            return Err(Error::Consistency { variant_index: v });
        }
        if v == 0 {
            air += 1;
        }
        i += 1;
    }
    proof {
        assert(grid.cells@.take(n as int) =~= grid.cells@);
    }
    let region: EncodedRegion = encode_grid(grid, catalog.len());
    let mut blocks: Vec<PaletteBlock> = Vec::new();
    let mut p: usize = 0;
    while p < region.palette.len()
        invariant
            p <= region.palette@.len(),
            blocks.len() == p,
            forall|j: int| 0 <= j < region.palette@.len() ==> #[trigger] region.palette@[j] < catalog.len(),
            forall|j: int|
                0 <= j < p ==> {
                    &&& #[trigger] blocks[j].block_id@ == catalog@[region.palette@[j] as int].block_id@
                    &&& props_view_spec(blocks[j].properties) == props_view_spec(
                        catalog@[region.palette@[j] as int].properties,
                    )
                },
        decreases region.palette@.len() - p,
    {
        let v: usize = region.palette[p];
        let entry: &Variant = &catalog[v];
        blocks.push(
            PaletteBlock {
                block_id: entry.block_id.clone(),
                properties: clone_properties(&entry.properties),
            },
        );
        p += 1;
    }
    proof {
        assert(grid.width <= grid.width * grid.height) by (nonlinear_arith)
            requires
                grid.height >= 1,
                grid.width >= 0,
        ;
        assert(grid.height <= grid.width * grid.height) by (nonlinear_arith)
            requires
                grid.width >= 1,
                grid.height >= 0,
        ;
    }
    let d = StructureDocument {
        data_version: 3465,
        sub_version: 1,
        version: 6,
        enclosing_x: grid.width as i32,
        enclosing_y: grid.height as i32,
        enclosing_z: 1,
        region_count: 1,
        total_blocks: (n - air) as i32,
        total_volume: n as i32,
        time_created,
        time_modified,
        author: "img2mc".to_owned(),
        description: "Generated by img2mc".to_owned(),
        name,
        region_name: "Unnamed".to_owned(),
        blocks,
        region,
    };
    proof {
        assert(d.data_version == 3465 && d.sub_version == 1 && d.version == 6);
        assert(d.enclosing_x == grid.width && d.enclosing_y == grid.height && d.enclosing_z == 1);
        assert(d.region_count == 1);
        assert(d.total_volume == grid.cells@.len());
        assert(d.total_blocks == grid.cells@.len() - count_val_spec(grid.cells@, 0));
        assert(d.time_created == time_created && d.time_modified == time_modified);
        assert(d.author@ == "img2mc"@);
        assert(d.description@ == "Generated by img2mc"@);
        assert(d.region_name@ == "Unnamed"@);
        assert(d.name@ == name0);
        assert(d.region.encodes(*grid));
        assert(d.blocks@.len() == d.region.palette@.len());
        assert forall|i: int| 0 <= i < d.blocks@.len() implies {
            &&& (#[trigger] d.blocks@[i]).block_id@ == catalog@[d.region.palette@[i] as int].block_id@
            &&& props_view_spec(d.blocks@[i].properties) == props_view_spec(
                catalog@[d.region.palette@[i] as int].properties,
            )
        } by {
            assert(d.blocks@[i] == blocks@[i]);
        }
    }
    Ok(d)
}

} // verus!
