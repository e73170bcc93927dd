//! The bit-packed index array: fixed-width entries stored consecutively in
//! 64-bit words, values allowed to straddle word boundaries (low bits in the
//! current word, remaining high bits in the next), with no padding at
//! boundaries and one extra guard word beyond the exact requirement.

use vstd::prelude::*;
use vstd::arithmetic::div_mod::lemma_fundamental_div_mod;
use vstd::arithmetic::mul::lemma_mul_inequality;
use vstd::arithmetic::power2::pow2;
use vstd::arithmetic::power2::lemma_pow2_unfold;
use vstd::arithmetic::power2::lemma2_to64;
use vstd::arithmetic::power2::lemma2_to64_rest;
use vstd::arithmetic::power2::lemma_pow2_pos;
use vstd::arithmetic::power2::lemma_pow2_strictly_increases;
use vstd::pervasive::VecAdditionalExecFns;

verus! {

/// The ceiling of the base-2 logarithm: the least `b` with `pow2(b) >= n`.
pub open spec fn clog2_spec(n: nat) -> nat
    decreases n,
{
    if n <= 1 {
        0
    } else {
        1 + clog2_spec((n + 1) / 2)
    }
}

/// The entry width for a palette of `n` entries:
/// `max(2, ceil(log2(n)))`. The floor of 2 bits is a format requirement and
/// holds even for palettes of at most 4 entries.
pub open spec fn bits_per_entry_spec(n: nat) -> nat {
    if clog2_spec(n) < 2 {
        2
    } else {
        clog2_spec(n)
    }
}

/// `clog2_spec` is exactly the ceiling of log2: `pow2` of it reaches `n`,
/// and one bit fewer does not.
pub proof fn lemma_clog2(n: nat)
    requires
        n >= 1,
    ensures
        pow2(clog2_spec(n)) >= n,
        clog2_spec(n) > 0 ==> pow2((clog2_spec(n) - 1) as nat) < n,
    decreases n,
{
    if n <= 1 {
        lemma2_to64();
    } else {
        let m = (n + 1) / 2;
        lemma_clog2(m);
        lemma_pow2_unfold(clog2_spec(n));
        if clog2_spec(m) > 0 {
            lemma_pow2_unfold(clog2_spec(m));
        } else {
            lemma2_to64();
        }
    }
}

/// No two widths satisfy the ceiling characterization at once.
pub proof fn lemma_clog2_unique(n: nat, b: nat)
    requires
        n >= 1,
        pow2(b) >= n,
        b > 0 ==> pow2((b - 1) as nat) < n,
    ensures
        b == clog2_spec(n),
{
    lemma_clog2(n);
    let c = clog2_spec(n);
    if b < c {
        assert(pow2(b) <= pow2((c - 1) as nat)) by {
            if b < c - 1 {
                lemma_pow2_strictly_increases(b, (c - 1) as nat);
            }
        }
    }
    if c < b {
        if c < b - 1 {
            lemma_pow2_strictly_increases(c, (b - 1) as nat);
        }
        assert(pow2(c) <= pow2((b - 1) as nat));
    }
}

/// The number of bits each packed entry uses for a palette of size `n`:
/// `max(2, ceil(log2(n)))`; e.g. 1 entry still takes 2 bits, 4 entries take
/// 2, 5 take 3, 256 take 8, 257 take 9.
pub fn bits_per_entry(n: usize) -> (b: usize)
    requires
        n >= 1,
    ensures
        b == bits_per_entry_spec(n as nat),
        2 <= b <= 64,
        pow2(b as nat) >= n,
{
    let mut c: usize = 0;
    let mut p: u128 = 1;
    proof {
        lemma2_to64();
    }
    while p < n as u128
        invariant
            n >= 1,
            c <= 64,
            p == pow2(c as nat),
            c > 0 ==> pow2((c - 1) as nat) < n,
            p <= 0x1_0000_0000_0000_0000u128,
        decreases 2 * (n as int) - p as int,
    {
        proof {
            lemma_pow2_pos(c as nat);
            if c >= 64 {
                lemma2_to64();
                lemma2_to64_rest();
                if c > 64 {
                    lemma_pow2_strictly_increases(64, c as nat);
                }
                assert(false);
            }
            lemma_pow2_unfold((c + 1) as nat);
            lemma2_to64();
            lemma2_to64_rest();
            if c + 1 < 64 {
                lemma_pow2_strictly_increases((c + 1) as nat, 64);
            }
        }
        p = p * 2;
        c = c + 1;
    }
    proof {
        lemma_clog2_unique(n as nat, c as nat);
        lemma2_to64();
        if c >= 2 {
        } else {
            lemma_pow2_strictly_increases(c as nat, 2);
        }
    }
    if c < 2 {
        2
    } else {
        c
    }
}

/// The low `b` bits set, the mask a packed entry occupies.
pub open spec fn mask_spec(b: nat) -> u64
    recommends
        1 <= b <= 63,
{
    ((1u64 << (b as u64)) - 1) as u64
}

/// The value of packed entry `k`: read at bit offset `k * b`, from one word
/// or, when the entry straddles a word boundary, from the low bits of the
/// next word as well.
pub open spec fn extracted_spec(words: Seq<u64>, b: nat, k: nat) -> u64
    recommends
        1 <= b <= 32,
        (k + 1) * b <= words.len() * 64,
        k * b / 64 + 1 < words.len(),
{
    let off = (k * b) % 64;
    let wi = (k * b) / 64;
    if off + b <= 64 {
        (words[wi as int] >> (off as u64)) & mask_spec(b)
    } else {
        ((words[wi as int] >> (off as u64)) | (words[wi as int + 1] << ((64 - off) as u64)))
            & mask_spec(b)
    }
}

/// All bits at positions `pos` and beyond are zero.
pub open spec fn hi_zero_spec(words: Seq<u64>, pos: int) -> bool
    recommends
        0 <= pos <= words.len() * 64,
{
    &&& (pos < words.len() * 64 ==> (words[pos / 64] >> ((pos % 64) as u64)) == 0)
    &&& forall|j: int| pos / 64 < j < words.len() ==> words[j] == 0
}

proof fn lemma_write_single(w: u64, v: u64, off: u64, b: u64)
    by (bit_vector)
    requires
        1 <= b <= 32,
        off + b <= 64,
        off < 64,
        w >> off == 0,
        v < (1u64 << b),
    ensures
        ((w | (v << off)) >> off) & (((1u64 << b) - 1) as u64) == v,
        off + b < 64 ==> ((w | (v << off)) >> ((off + b) as u64)) == 0,
{
}

proof fn lemma_write_straddle(w: u64, v: u64, off: u64, b: u64)
    by (bit_vector)
    requires
        1 <= b <= 32,
        off < 64,
        off + b > 64,
        w >> off == 0,
        v < (1u64 << b),
    ensures
        (((w | (v << off)) >> off) | ((v >> ((64 - off) as u64)) << ((64 - off) as u64))) & (((1u64 << b) - 1) as u64)
            == v,
        (v >> ((64 - off) as u64)) >> (((off + b) - 64) as u64) == 0,
{
}

proof fn lemma_frame_low(w: u64, v: u64, off: u64, off1: u64, b1: u64)
    by (bit_vector)
    requires
        1 <= b1 <= 32,
        off1 + b1 <= off,
        off < 64,
    ensures
        ((w | (v << off)) >> off1) & (((1u64 << b1) - 1) as u64) == (w >> off1) & (((1u64 << b1) - 1) as u64),
{
}

proof fn lemma_frame_straddle_high(x: u64, w: u64, v: u64, off: u64, off1: u64, b1: u64)
    by (bit_vector)
    requires
        1 <= b1 <= 32,
        off1 < 64,
        off1 + b1 > 64,
        (off1 + b1) - 64 <= off,
        off < 64,
    ensures
        ((x >> off1) | ((w | (v << off)) << ((64 - off1) as u64))) & (((1u64 << b1) - 1) as u64) == ((x >> off1)
            | (w << ((64 - off1) as u64))) & (((1u64 << b1) - 1) as u64),
{
}

/// Packs `values`, each below `pow2(b)`, into consecutive `b`-bit entries of
/// an array of 64-bit words sized `ceil(b * n / 64)` plus one guard word.
/// Every bit beyond the payload is zero.
pub fn pack_entries(values: &Vec<u64>, b: usize) -> (words: Vec<u64>)
    requires
        2 <= b <= 32,
        forall|i: int| 0 <= i < values.len() ==> values[i] < (1u64 << (b as u64)),
        values.len() * b + 127 <= usize::MAX,
    ensures
        words.len() == (values.len() * b + 63) / 64 + 1,
        forall|k: int|
            0 <= k < values.len() ==> extracted_spec(words@, b as nat, k as nat) == values[k],
        hi_zero_spec(words@, values.len() * b),
{
    let n = values.len();
    let total_bits: usize = n * b;
    let len: usize = (total_bits + 63) / 64 + 1;
    let mut words: Vec<u64> = Vec::new();
    let mut z: usize = 0;
    while z < len
        invariant
            z <= len,
            words.len() == z,
            forall|j: int| 0 <= j < z ==> words[j] == 0u64,
        decreases len - z,
    {
        words.push(0);
        z += 1;
    }
    proof {
        let ghost w0: u64 = words@[0];
        assert(w0 >> 0u64 == 0u64) by (bit_vector)
            requires
                w0 == 0u64,
        ;
    }
    let mut k: usize = 0;
    let mut bit: usize = 0;
    while k < n
        invariant
            2 <= b <= 32,
            n == values.len(),
            total_bits == n * b,
            len == (total_bits + 63) / 64 + 1,
            words.len() == len,
            k <= n,
            bit == k * b,
            forall|i: int| 0 <= i < n ==> values[i] < (1u64 << (b as u64)),
            forall|k2: int|
                0 <= k2 < k ==> extracted_spec(words@, b as nat, k2 as nat) == values[k2],
            hi_zero_spec(words@, bit as int),
        decreases n - k,
    {
        let v: u64 = values[k];
        let wi: usize = bit / 64;
        let off: usize = bit % 64;
        proof {
            lemma_bit_bounds(n as int, k as int, b as int, len as int);
        }
        let ghost old_words = words@;
        if off + b <= 64 {
            let w: u64 = words[wi];
            words.set(wi, w | (v << (off as u64)));
            proof {
                lemma_write_single(w, v, off as u64, b as u64);
                lemma_step_preserved(old_words, words@, values@, b as int, k as int, bit as int);
                lemma_step_hi_zero_single(old_words, words@, b as int, bit as int);
                lemma_step_new_entry(words@, values@, b as int, k as int, bit as int);
            }
        } else {
            let w: u64 = words[wi];
            words.set(wi, w | (v << (off as u64)));
            let w2: u64 = words[wi + 1];
            words.set(wi + 1, w2 | (v >> ((64 - off) as u64)));
            proof {
                assert(w2 == 0);
                assert(w2 | (v >> ((64 - off) as u64)) == v >> ((64 - off) as u64))
                    by (bit_vector)
                    requires
                        w2 == 0u64,
                ;
                lemma_write_straddle(w, v, off as u64, b as u64);
                lemma_step_preserved(old_words, words@, values@, b as int, k as int, bit as int);
                lemma_step_hi_zero_straddle(old_words, words@, b as int, bit as int);
                lemma_step_new_entry(words@, values@, b as int, k as int, bit as int);
            }
        }
        proof {
            assert((k + 1) * b == k * b + b) by (nonlinear_arith);
        }
        bit += b;
        k += 1;
    }
    words
}

/// Offsets and word indices of the entry being written stay inside the
/// allocated words.
proof fn lemma_bit_bounds(n: int, k: int, b: int, len: int)
    requires
        2 <= b <= 32,
        0 <= k < n,
        len == (n * b + 63) / 64 + 1,
    ensures
        k * b + b <= n * b,
        (k * b) / 64 + 1 < len,
        (k * b) / 64 < len,
{
    lemma_mul_inequality(k + 1, n, b);
    assert((k + 1) * b == k * b + b) by (nonlinear_arith);
    lemma_fundamental_div_mod(k * b, 64);
    lemma_fundamental_div_mod(n * b + 63, 64);
    assert((k * b) / 64 + 1 < len) by {
        let q = (k * b) / 64;
        let r = (k * b) % 64;
        let q2 = (n * b + 63) / 64;
        let r2 = (n * b + 63) % 64;
        assert(64 * q + r == k * b);
        assert(64 * q2 + r2 == n * b + 63);
        assert(q2 >= q + 1);
    }
}

proof fn lemma_step_new_entry(new: Seq<u64>, values: Seq<u64>, b: int, k: int, bit: int)
    requires
        2 <= b <= 32,
        0 <= k < values.len(),
        bit == k * b,
        (bit / 64) + 1 < new.len(),
        ({
            let off = bit % 64;
            let wi = bit / 64;
            if off + b <= 64 {
                (new[wi] >> (off as u64)) & mask_spec(b as nat) == values[k]
            } else {
                ((new[wi] >> (off as u64)) | (new[wi + 1] << ((64 - off) as u64))) & mask_spec(
                    b as nat,
                ) == values[k]
            }
        }),
    ensures
        extracted_spec(new, b as nat, k as nat) == values[k],
{
    assert(k as nat * b as nat == (k * b) as nat);
}

/// Writing entry `k` does not change any already-written entry.
proof fn lemma_step_preserved(
    old_w: Seq<u64>,
    new: Seq<u64>,
    values: Seq<u64>,
    b: int,
    k: int,
    bit: int,
)
    requires
        2 <= b <= 32,
        0 <= k < values.len(),
        bit == k * b,
        old_w.len() == new.len(),
        (bit / 64) + 1 < old_w.len(),
        forall|j: int| 0 <= j < old_w.len() && j < bit / 64 ==> new[j] == old_w[j],
        // the word at bit/64 only gained bits at off and above:
        ({
            let off = (bit % 64) as u64;
            exists|v: u64|
                v < (1u64 << (b as u64)) && new[bit / 64] == #[trigger] (old_w[bit / 64] | (v << off))
        }),
        forall|k2: int|
            0 <= k2 < k ==> extracted_spec(old_w, b as nat, k2 as nat) == values[k2],
    ensures
        forall|k2: int|
            0 <= k2 < k ==> extracted_spec(new, b as nat, k2 as nat) == values[k2],
{
    let wi = bit / 64;
    let off = bit % 64;
    let v = choose|v: u64|
        v < (1u64 << (b as u64)) && new[bit / 64] == #[trigger] (old_w[bit / 64] | (v << (off as u64)));
    assert forall|k2: int| 0 <= k2 < k implies extracted_spec(new, b as nat, k2 as nat)
        == values[k2] by {
        let bit2 = k2 * b;
        let wi2 = bit2 / 64;
        let off2 = bit2 % 64;
        lemma_fundamental_div_mod(bit2, 64);
        lemma_fundamental_div_mod(bit, 64);
        lemma_mul_inequality(k2 + 1, k, b);
        assert((k2 + 1) * b == k2 * b + b) by (nonlinear_arith);
        assert(bit2 + b <= bit);
        assert(k2 as nat * b as nat == bit2 as nat);
        assert(wi2 <= wi);
        if off2 + b <= 64 {
            // entry k2 lies in word wi2 alone
            if wi2 < wi {
                assert(new[wi2] == old_w[wi2]);
            } else {
                assert(wi2 == wi);
                assert(off2 + b <= off);
                lemma_frame_low(old_w[wi], v, off as u64, off2 as u64, b as u64);
            }
        } else {
            // entry k2 straddles words wi2 and wi2 + 1
            assert(bit2 + b <= bit);
            assert(64 * wi2 + off2 + b <= 64 * wi + off);
            assert(wi2 + 1 <= wi);
            if wi2 + 1 < wi {
                assert(new[wi2] == old_w[wi2]);
                assert(new[wi2 + 1] == old_w[wi2 + 1]);
            } else {
                assert(wi2 + 1 == wi);
                assert(off2 + b - 64 <= off);
                assert(new[wi2] == old_w[wi2]);
                lemma_frame_straddle_high(
                    old_w[wi2],
                    old_w[wi],
                    v,
                    off as u64,
                    off2 as u64,
                    b as u64,
                );
            }
        }
    }
}

/// After a single-word write, everything at and beyond the new bit position
/// is still zero.
proof fn lemma_step_hi_zero_single(old_w: Seq<u64>, new: Seq<u64>, b: int, bit: int)
    requires
        2 <= b <= 32,
        0 <= bit,
        old_w.len() == new.len(),
        (bit / 64) + 1 < old_w.len(),
        (bit % 64) + b <= 64,
        hi_zero_spec(old_w, bit),
        forall|j: int| 0 <= j < old_w.len() && j != bit / 64 ==> new[j] == old_w[j],
        ({
            let off = (bit % 64) as u64;
            (bit % 64) + b < 64 ==> (new[bit / 64] >> ((bit % 64 + b) as u64)) == 0
        }),
    ensures
        hi_zero_spec(new, bit + b),
{
    let wi = bit / 64;
    let off = bit % 64;
    lemma_fundamental_div_mod(bit, 64);
    lemma_fundamental_div_mod(bit + b, 64);
    if off + b < 64 {
        assert((bit + b) / 64 == wi && (bit + b) % 64 == off + b) by {
            assert(bit == 64 * wi + off);
        }
        assert(forall|j: int| (bit + b) / 64 < j < new.len() ==> new[j] == 0);
    } else {
        // off + b == 64: the next position starts a fresh word, which is zero
        assert((bit + b) / 64 == wi + 1 && (bit + b) % 64 == 0) by {
            assert(bit == 64 * wi + off);
        }
        assert(new[wi + 1] == old_w[wi + 1]);
        assert(old_w[wi + 1] == 0);
        let nw: u64 = new[wi + 1];
        assert(nw >> 0u64 == 0u64) by (bit_vector)
            requires
                nw == 0u64,
        ;
        assert(forall|j: int| (bit + b) / 64 < j < new.len() ==> new[j] == 0);
    }
}

/// After a straddling write, everything at and beyond the new bit position
/// is still zero.
proof fn lemma_step_hi_zero_straddle(old_w: Seq<u64>, new: Seq<u64>, b: int, bit: int)
    requires
        2 <= b <= 32,
        0 <= bit,
        old_w.len() == new.len(),
        (bit / 64) + 1 < old_w.len(),
        (bit % 64) + b > 64,
        hi_zero_spec(old_w, bit),
        forall|j: int|
            0 <= j < old_w.len() && j != bit / 64 && j != bit / 64 + 1 ==> new[j] == old_w[j],
        (new[bit / 64 + 1] >> (((bit % 64) + b - 64) as u64)) == 0,
    ensures
        hi_zero_spec(new, bit + b),
{
    let wi = bit / 64;
    let off = bit % 64;
    lemma_fundamental_div_mod(bit, 64);
    lemma_fundamental_div_mod(bit + b, 64);
    assert((bit + b) / 64 == wi + 1 && (bit + b) % 64 == off + b - 64) by {
        assert(bit == 64 * wi + off);
    }
    assert(forall|j: int| (bit + b) / 64 < j < new.len() ==> new[j] == 0);
}

/// Reads back the `n` packed `b`-bit entries of a word array.
pub fn unpack_entries(words: &Vec<u64>, b: usize, n: usize) -> (values: Vec<u64>)
    requires
        2 <= b <= 32,
        n * b + 127 <= usize::MAX,
        words.len() >= (n * b + 63) / 64 + 1,
    ensures
        values.len() == n,
        forall|k: int| 0 <= k < n ==> values[k] == extracted_spec(words@, b as nat, k as nat),
{
    let mut values: Vec<u64> = Vec::new();
    let mut k: usize = 0;
    let mut bit: usize = 0;
    while k < n
        invariant
            2 <= b <= 32,
            n * b + 127 <= usize::MAX,
            words.len() >= (n * b + 63) / 64 + 1,
            k <= n,
            bit == k * b,
            values.len() == k,
            forall|k2: int|
                0 <= k2 < k ==> values[k2] == extracted_spec(words@, b as nat, k2 as nat),
        decreases n - k,
    {
        proof {
            lemma_bit_bounds(n as int, k as int, b as int, ((n * b + 63) / 64 + 1) as int);
            assert(k as nat * b as nat == (k * b) as nat);
        }
        let wi: usize = bit / 64;
        let off: usize = bit % 64;
        let bb: u64 = b as u64;
        proof {
            assert(1u64 << bb >= 1u64) by (bit_vector)
                requires
                    bb <= 32,
            ;
        }
        let mask: u64 = (1u64 << bb) - 1;
        let v: u64;
        if off + b <= 64 {
            v = (words[wi] >> (off as u64)) & mask;
        } else {
            v = ((words[wi] >> (off as u64)) | (words[wi + 1] << ((64 - off) as u64))) & mask;
        }
        values.push(v);
        proof {
            assert((k + 1) * b == k * b + b) by (nonlinear_arith);
        }
        bit += b;
        k += 1;
    }
    values
}

} // verus!
