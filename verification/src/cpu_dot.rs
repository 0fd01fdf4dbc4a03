//! CPU-side expert math for the CPU expert tier, as far as it is integer
//! math: the iq2_xxs x q8_K dot.
//!
//! An iq2_xxs block is an f16 scale and eight sub-blocks of 32 values. A
//! sub-block is two little-endian words: the first holds four 8-bit grid
//! indices, the second four 7-bit sign masks and a 4-bit scale in the top
//! nibble. A value is a grid byte with its sign; its sub-block factor is
//! `2 * scale + 1`. Floats appear as their bits.

use vstd::arithmetic::power2::*;
use vstd::prelude::*;
use vstd::slice::slice_subrange;

verus! {

pub const QK_K: usize = 256;

/// iq2_xxs: 2 bytes f16 d + 16 u32 per 256 values
pub const IQ2_XXS_BLOCK_BYTES: usize = 66;

/// How many of the lowest `n` bits of `x` are set.
pub open spec fn ones_below(x: u32, n: int) -> int
    decreases n,
{
    if n <= 0 {
        0
    } else {
        ones_below(x, n - 1) + ((x >> ((n - 1) as u32)) & 1) as int
    }
}

/// How many bits of `x` are set.
pub open spec fn ones(x: u32) -> int {
    ones_below(x, 32)
}

/// A sign mask with its parity in bit 7.
pub open spec fn full_mask(s7: u32) -> u32 {
    if ones(s7) % 2 == 0 {
        s7
    } else {
        s7 | 0x80
    }
}

/// The full 8-bit sign mask from the stored 7 bits (bit 7 keeps popcount even).
pub fn sign_mask(s7: u32) -> (m: u32)
    ensures
        m == full_mask(s7),
{
    let mut odd: bool = false;
    let mut i: u32 = 0;
    while i < 32
        invariant
            i <= 32,
            odd == (ones_below(s7, i as int) % 2 == 1),
        decreases 32 - i,
    {
        assert((s7 >> i) & 1 == 0 || (s7 >> i) & 1 == 1) by (bit_vector);
        if (s7 >> i) & 1 == 1 {
            odd = !odd;
        }
        i += 1;
    }
    if odd {
        s7 | 0x80
    } else {
        s7
    }
}

proof fn lemma_ones_below_set_bit_7(x: u32, n: int)
    requires
        x < 128,
        0 <= n <= 32,
    ensures
        ones_below(x | 0x80, n) == ones_below(x, n) + if n > 7 {
            1int
        } else {
            0
        },
    decreases n,
{
    if n > 0 {
        lemma_ones_below_set_bit_7(x, n - 1);
        let i = (n - 1) as u32;
        assert(x < 128 && i < 32 && i != 7 ==> ((x | 0x80) >> i) & 1 == (x >> i) & 1)
            by (bit_vector);
        assert(x < 128 && i == 7 ==> ((x | 0x80) >> i) & 1 == 1 && (x >> i) & 1 == 0)
            by (bit_vector);
    }
}

/// A mask made from 7 bits keeps them, fits in 8 bits and has an even number
/// of ones.
pub proof fn full_mask_is_even(s7: u32)
    requires
        s7 < 128,
    ensures
        full_mask(s7) < 256,
        full_mask(s7) & 0x7f == s7,
        ones(full_mask(s7)) % 2 == 0,
{
    lemma_ones_below_set_bit_7(s7, 32);
    assert(s7 < 128 ==> s7 | 0x80 < 256 && (s7 | 0x80) & 0x7f == s7 && s7 & 0x7f == s7)
        by (bit_vector);
}

/// The 32-bit little-endian word at `at`.
pub open spec fn word_at(blk: Seq<u8>, at: int) -> u32 {
    (blk[at] as u32) | (blk[at + 1] as u32) << 8 | (blk[at + 2] as u32) << 16 | (blk[at + 3] as u32)
        << 24
}

/// A byte as a signed number.
pub open spec fn signed_byte(b: u64) -> int {
    if b < 128 {
        b as int
    } else {
        b - 256
    }
}

/// One weight of a block, short of the block's own scale.
#[derive(Clone, Copy, Debug)]
pub struct Weight {
    /// The grid byte.
    pub grid: i8,
    /// Whether the sign bit is set.
    pub negative: bool,
    /// The factor of the sub-block, `2 * scale + 1`.
    pub factor: u32,
}

/// The factor of sub-block `ib`.
pub open spec fn factor_of(blk: Seq<u8>, ib: int) -> int {
    2 * (word_at(blk, 6 + 8 * ib) >> 28) + 1
}

/// The sign mask of the `k`th group of eight in sub-block `ib`.
pub open spec fn mask_of(blk: Seq<u8>, ib: int, k: int) -> u32 {
    full_mask((word_at(blk, 6 + 8 * ib) >> ((7 * k) as u32)) & 127)
}

/// The grid entry of the `k`th group of eight in sub-block `ib`.
pub open spec fn entry_of(blk: Seq<u8>, grid: Seq<u64>, ib: int, k: int) -> u64 {
    grid[blk[2 + 8 * ib + k] as int]
}

/// The `i`th value of the `k`th group of eight in sub-block `ib`: a grid
/// byte, its sign, and the factor of the sub-block.
pub open spec fn is_weight(
    w: Weight,
    blk: Seq<u8>,
    grid: Seq<u64>,
    ib: int,
    k: int,
    i: int,
) -> bool {
    &&& w.grid == signed_byte((entry_of(blk, grid, ib, k) >> ((8 * i) as u64)) & 0xff)
    &&& w.negative == ((mask_of(blk, ib, k) >> (i as u32)) & 1 == 1)
    &&& w.factor == factor_of(blk, ib)
}

/// Whether `ws` are the weights of a block, in order.
pub open spec fn are_weights(ws: Seq<Weight>, blk: Seq<u8>, grid: Seq<u64>) -> bool {
    &&& ws.len() == QK_K
    &&& forall|j: int|
        0 <= j < QK_K ==> is_weight(#[trigger] ws[j], blk, grid, j / 32, j % 32 / 8, j % 8)
}

/// The signed value at position `j` of a block, without any factor.
pub open spec fn value_of(blk: Seq<u8>, grid: Seq<u64>, j: int) -> int {
    let ib = j / 32;
    let k = j % 32 / 8;
    let i = j % 8;
    let g = signed_byte((entry_of(blk, grid, ib, k) >> ((8 * i) as u64)) & 0xff);
    if (mask_of(blk, ib, k) >> (i as u32)) & 1 == 1 {
        -g
    } else {
        g
    }
}

/// The sum of the first `n` products of a block with activations, in units of
/// an eighth of the two scales.
pub open spec fn dot_below(blk: Seq<u8>, grid: Seq<u64>, q8: Seq<i8>, n: int) -> int
    decreases n,
{
    if n <= 0 {
        0
    } else {
        dot_below(blk, grid, q8, n - 1) + factor_of(blk, (n - 1) / 32) * (value_of(
            blk,
            grid,
            n - 1,
        ) * q8[n - 1])
    }
}

proof fn lemma_dot_step(blk: Seq<u8>, grid: Seq<u64>, q8: Seq<i8>, ib: int, k: int, i: int)
    requires
        0 <= ib,
        0 <= k < 4,
        0 <= i < 8,
    ensures
        ({
            let j = 32 * ib + 8 * k + i;
            let g = signed_byte((entry_of(blk, grid, ib, k) >> ((8 * i) as u64)) & 0xff);
            let w = if (mask_of(blk, ib, k) >> (i as u32)) & 1 == 1 {
                -g
            } else {
                g
            };
            dot_below(blk, grid, q8, j + 1) == dot_below(blk, grid, q8, j) + factor_of(blk, ib) * (w
                * q8[j])
        }),
{
}

fn read_word(blk: &[u8], at: usize) -> (w: u32)
    requires
        at + 4 <= blk@.len(),
    ensures
        w == word_at(blk@, at as int),
{
    (blk[at] as u32) | (blk[at + 1] as u32) << 8 | (blk[at + 2] as u32) << 16 | (blk[at + 3] as u32)
        << 24
}

/// Byte `i` of a grid entry.
fn grid_byte(entry: u64, i: usize) -> (g: i8)
    requires
        i < 8,
    ensures
        g == signed_byte((entry >> ((8 * i) as u64)) & 0xff),
{
    let shift: u64 = 8 * i as u64;
    let b: u64 = (entry >> shift) & 0xff;
    assert((entry >> shift) & 0xff < 256) by (bit_vector);
    if b < 128 {
        b as i8
    } else {
        (b as i32 - 256) as i8
    }
}

/// The 256 weights of a block.
pub fn block_weights(blk: &[u8], grid: &[u64]) -> (out: Vec<Weight>)
    requires
        blk@.len() >= IQ2_XXS_BLOCK_BYTES,
        grid@.len() >= 256,
    ensures
        are_weights(out@, blk@, grid@),
{
    let mut out: Vec<Weight> = Vec::new();
    let mut ib: usize = 0;
    while ib < 8
        invariant
            ib <= 8,
            blk@.len() >= IQ2_XXS_BLOCK_BYTES,
            grid@.len() >= 256,
            out@.len() == 32 * ib,
            forall|j: int|
                0 <= j < 32 * ib ==> is_weight(
                    #[trigger] out@[j],
                    blk@,
                    grid@,
                    j / 32,
                    j % 32 / 8,
                    j % 8,
                ),
        decreases 8 - ib,
    {
        let aux1: u32 = read_word(blk, 6 + 8 * ib);
        assert(aux1 >> 28 < 16) by (bit_vector);
        let factor: u32 = 2 * (aux1 >> 28) + 1;
        let mut k: usize = 0;
        while k < 4
            invariant
                k <= 4,
                ib < 8,
                blk@.len() >= IQ2_XXS_BLOCK_BYTES,
                grid@.len() >= 256,
                aux1 == word_at(blk@, 6 + 8 * ib),
                factor == factor_of(blk@, ib as int),
                out@.len() == 32 * ib + 8 * k,
                forall|j: int|
                    0 <= j < 32 * ib + 8 * k ==> is_weight(
                        #[trigger] out@[j],
                        blk@,
                        grid@,
                        j / 32,
                        j % 32 / 8,
                        j % 8,
                    ),
            decreases 4 - k,
        {
            let entry: u64 = grid[blk[2 + 8 * ib + k] as usize];
            let sm: u32 = sign_mask((aux1 >> (7 * k as u32)) & 127);
            let mut i: usize = 0;
            while i < 8
                invariant
                    i <= 8,
                    k < 4,
                    ib < 8,
                    factor == factor_of(blk@, ib as int),
                    entry == entry_of(blk@, grid@, ib as int, k as int),
                    sm == mask_of(blk@, ib as int, k as int),
                    out@.len() == 32 * ib + 8 * k + i,
                    forall|j: int|
                        0 <= j < 32 * ib + 8 * k + i ==> is_weight(
                            #[trigger] out@[j],
                            blk@,
                            grid@,
                            j / 32,
                            j % 32 / 8,
                            j % 8,
                        ),
                decreases 8 - i,
            {
                out.push(
                    Weight {
                        grid: grid_byte(entry, i),
                        negative: (sm >> (i as u32)) & 1 == 1,
                        factor,
                    },
                );
                i += 1;
            }
            k += 1;
        }
        ib += 1;
    }
    out
}

/// The dot of one block with its activations, short of the two scales.
pub fn block_dot(blk: &[u8], q8: &[i8], grid: &[u64]) -> (sum: i32)
    requires
        blk@.len() >= IQ2_XXS_BLOCK_BYTES,
        q8@.len() >= QK_K,
        grid@.len() >= 256,
    ensures
        sum == dot_below(blk@, grid@, q8@, 256),
{
    let mut bsum: i32 = 0;
    let mut ib: usize = 0;
    while ib < 8
        invariant
            ib <= 8,
            blk@.len() >= IQ2_XXS_BLOCK_BYTES,
            q8@.len() >= QK_K,
            grid@.len() >= 256,
            bsum == dot_below(blk@, grid@, q8@, 32 * ib),
            -16252928 * ib <= bsum <= 16252928 * ib,
        decreases 8 - ib,
    {
        let aux1: u32 = read_word(blk, 6 + 8 * ib);
        assert(aux1 >> 28 < 16) by (bit_vector);
        let ls: i32 = (2 * (aux1 >> 28) + 1) as i32;
        let ghost start = dot_below(blk@, grid@, q8@, 32 * ib);
        let mut sumi: i32 = 0;
        let mut k: usize = 0;
        while k < 4
            invariant
                k <= 4,
                ib < 8,
                blk@.len() >= IQ2_XXS_BLOCK_BYTES,
                q8@.len() >= QK_K,
                grid@.len() >= 256,
                aux1 == word_at(blk@, 6 + 8 * ib),
                ls == factor_of(blk@, ib as int),
                1 <= ls <= 31,
                start == dot_below(blk@, grid@, q8@, 32 * ib),
                dot_below(blk@, grid@, q8@, 32 * ib + 8 * k) == start + ls * sumi,
                -131072 * k <= sumi <= 131072 * k,
            decreases 4 - k,
        {
            let entry: u64 = grid[blk[2 + 8 * ib + k] as usize];
            let sm: u32 = sign_mask((aux1 >> (7 * k as u32)) & 127);
            let mut i: usize = 0;
            while i < 8
                invariant
                    i <= 8,
                    k < 4,
                    ib < 8,
                    q8@.len() >= QK_K,
                    ls == factor_of(blk@, ib as int),
                    entry == entry_of(blk@, grid@, ib as int, k as int),
                    sm == mask_of(blk@, ib as int, k as int),
                    dot_below(blk@, grid@, q8@, 32 * ib + 8 * k + i) == start + ls * sumi,
                    -131072 * k - 16384 * i <= sumi <= 131072 * k + 16384 * i,
                decreases 8 - i,
            {
                let g: i32 = grid_byte(entry, i) as i32;
                let w: i32 = if (sm >> (i as u32)) & 1 == 1 {
                    -g
                } else {
                    g
                };
                let j: usize = 32 * ib + 8 * k + i;
                let q: i32 = q8[j] as i32;
                assert(-16384 <= w * q <= 16384) by (nonlinear_arith)
                    requires
                        -128 <= w <= 128,
                        -128 <= q <= 127,
                ;
                assert(ls * (sumi + w * q) == ls * sumi + ls * (w * q)) by (nonlinear_arith);
                proof {
                    lemma_dot_step(blk@, grid@, q8@, ib as int, k as int, i as int);
                }
                sumi = sumi + w * q;
                i += 1;
            }
            k += 1;
        }
        assert(-16252928 <= ls * sumi <= 16252928) by (nonlinear_arith)
            requires
                1 <= ls <= 31,
                -524288 <= sumi <= 524288,
        ;
        assert(sumi * ls == ls * sumi) by (nonlinear_arith);
        bsum = bsum + sumi * ls;
        ib += 1;
    }
    bsum
}

/// The exponent field of an f16.
pub open spec fn half_exp(h: u16) -> int {
    h as int / 1024 % 32
}

/// The fraction field of an f16.
pub open spec fn half_man(h: u16) -> int {
    h as int % 1024
}

/// A finite f16 in units of the smallest positive f32.
pub open spec fn half_units(h: u16) -> int {
    let size = if half_exp(h) == 0 {
        half_man(h) * pow2(125)
    } else {
        (1024 + half_man(h)) * pow2((half_exp(h) + 124) as nat)
    };
    if h >= 0x8000 {
        -size
    } else {
        size
    }
}

/// The exponent field of an f32.
pub open spec fn single_exp(f: u32) -> int {
    f as int / 0x80_0000 % 256
}

/// The fraction field of an f32.
pub open spec fn single_man(f: u32) -> int {
    f as int % 0x80_0000
}

/// A finite f32 in units of the smallest positive f32.
pub open spec fn single_units(f: u32) -> int {
    let size = if single_exp(f) == 0 {
        single_man(f)
    } else {
        (0x80_0000 + single_man(f)) * pow2((single_exp(f) - 1) as nat)
    };
    if f >= 0x8000_0000 {
        -size
    } else {
        size
    }
}

/// The f32 with the given fields.
pub open spec fn single(negative: bool, exp: int, man: int) -> int {
    (if negative {
        0x8000_0000int
    } else {
        0
    }) + exp * 0x80_0000 + man
}

/// Whether `f` is the f32 of the f16 `h`: the same sign and, of a finite
/// value, the same value. An infinity stays one, and a NaN keeps its fraction
/// bits.
pub open spec fn is_widened(h: u16, f: u32) -> bool {
    &&& (f >= 0x8000_0000) == (h >= 0x8000)
    &&& half_exp(h) < 31 ==> single_exp(f) < 255 && single_units(f) == half_units(h)
    &&& half_exp(h) == 31 ==> f == single(h >= 0x8000, 255, half_man(h) * 8192)
    &&& 1 <= half_exp(h) <= 30 ==> f == single(
        h >= 0x8000,
        half_exp(h) + 112,
        half_man(h) * 8192,
    )
    &&& half_exp(h) == 0 && half_man(h) == 0 ==> f == single(h >= 0x8000, 0, 0)
}

proof fn lemma_fields(f: u32, negative: bool, exp: int, man: int)
    requires
        f == single(negative, exp, man),
        0 <= exp < 256,
        0 <= man < 0x80_0000,
    ensures
        (f >= 0x8000_0000) == negative,
        single_exp(f) == exp,
        single_man(f) == man,
{
}

/// A normal f16 and the f32 with a fraction that is 13 bits longer.
proof fn lemma_normal_units(exp: int, man: int)
    requires
        exp > 0,
    ensures
        (0x80_0000 + man * 8192) * pow2((exp + 111) as nat) == (1024 + man) * pow2(
            (exp + 124) as nat,
        ),
{
    lemma_pow2_adds((exp + 111) as nat, 13);
    lemma2_to64();
    let p = pow2((exp + 111) as nat) as int;
    assert((0x80_0000 + man * 8192) * p == (1024 + man) * (p * 8192)) by (nonlinear_arith);
}

/// A subnormal f16, its fraction shifted into the place of an f32's.
proof fn lemma_subnormal_units(man: int, sig: int, e: int)
    requires
        1 <= e <= 113,
        sig == man * 8192 * pow2((113 - e) as nat),
    ensures
        sig * pow2((e - 1) as nat) == man * pow2(125),
{
    lemma_pow2_adds((113 - e) as nat, (e - 1) as nat);
    lemma_pow2_adds(13, 112);
    lemma2_to64();
    let p = pow2((113 - e) as nat) as int;
    let q = pow2((e - 1) as nat) as int;
    assert((man * 8192 * p) * q == man * (8192 * (p * q))) by (nonlinear_arith);
}

/// Doubling a fraction that is below its place takes one from the exponent.
proof fn lemma_shift(man: int, sig: int, e: int)
    requires
        man >= 1,
        103 <= e <= 113,
        sig == man * 8192 * pow2((113 - e) as nat),
        sig < 0x80_0000,
    ensures
        e > 103,
        2 * sig == man * 8192 * pow2((114 - e) as nat),
{
    lemma2_to64();
    lemma_pow2_unfold((114 - e) as nat);
    let p = pow2((113 - e) as nat) as int;
    assert(man * 8192 * (2 * p) == 2 * (man * 8192 * p)) by (nonlinear_arith);
    assert(man * 8192 * p >= 8192 * p) by (nonlinear_arith)
        requires
            man >= 1,
            p >= 0,
    ;
    if e == 103 {
        assert(p == 1024);
    }
}

/// The bits of the f32 with the value of an f16.
pub fn f16_to_f32(bits: u16) -> (f: u32)
    ensures
        is_widened(bits, f),
{
    let ghost negative = bits >= 0x8000;
    let sign: u32 = if bits >= 0x8000 {
        0x8000_0000
    } else {
        0
    };
    let exp: u32 = bits as u32 / 1024 % 32;
    let man: u32 = bits as u32 % 1024;
    assert(exp == half_exp(bits) && man == half_man(bits));
    if exp == 31 {
        let f: u32 = sign + 0x7f80_0000 + man * 8192;
        proof {
            lemma_fields(f, negative, 255, man * 8192);
        }
        return f;
    }
    if exp > 0 {
        let f: u32 = sign + (exp + 112) * 0x80_0000 + man * 8192;
        proof {
            lemma_fields(f, negative, exp + 112, man * 8192);
            lemma_normal_units(exp as int, man as int);
        }
        return f;
    }
    if man == 0 {
        proof {
            lemma_fields(sign, negative, 0, 0);
            let p = pow2(125) as int;
            assert(0 * p == 0) by (nonlinear_arith);
        }
        return sign;
    }
    let mut sig: u32 = man * 8192;
    let mut e: u32 = 113;
    proof {
        lemma2_to64();
        let p = pow2((113 - e) as nat) as int;
        assert(man * 8192 * p == man * 8192) by (nonlinear_arith)
            requires
                p == 1,
        ;
    }
    while sig < 0x80_0000
        invariant
            103 <= e <= 113,
            0 < man < 1024,
            0 < sig < 0x100_0000,
            sig == man * 8192 * pow2((113 - e) as nat),
        decreases 0x100_0000 - sig,
    {
        proof {
            lemma_shift(man as int, sig as int, e as int);
        }
        sig = sig * 2;
        e = e - 1;
    }
    let f: u32 = sign + e * 0x80_0000 + (sig - 0x80_0000);
    proof {
        lemma_fields(f, negative, e as int, sig - 0x80_0000);
        lemma_subnormal_units(man as int, sig as int, e as int);
    }
    f
}

/// A normalized fraction with its exponent is told apart from any other by
/// its size.
proof fn lemma_units_unique(a: int, e: int, b: int, f: int)
    requires
        0x80_0000 <= a < 0x100_0000,
        0x80_0000 <= b < 0x100_0000,
        0 <= e <= f,
        a * pow2(e as nat) == b * pow2(f as nat),
    ensures
        a == b,
        e == f,
{
    let p = pow2(e as nat) as int;
    let q = pow2((f - e) as nat) as int;
    lemma_pow2_adds(e as nat, (f - e) as nat);
    lemma_pow2_pos(e as nat);
    lemma_pow2_pos((f - e) as nat);
    assert(a == b * q) by (nonlinear_arith)
        requires
            a * p == b * (p * q),
            p > 0,
    ;
    lemma2_to64();
    if e < f {
        lemma_pow2_unfold((f - e) as nat);
        lemma_pow2_pos((f - e - 1) as nat);
        assert(b * q >= b * 2) by (nonlinear_arith)
            requires
                q >= 2,
                b > 0,
        ;
    } else {
        assert(b * q == b) by (nonlinear_arith)
            requires
                q == 1,
        ;
    }
}

/// An f16 has one f32 only.
pub proof fn widening_is_unique(h: u16, f: u32, g: u32)
    requires
        is_widened(h, f),
        is_widened(h, g),
    ensures
        f == g,
{
    if half_exp(h) == 0 && half_man(h) > 0 {
        let size = half_man(h) * pow2(125);
        lemma_pow2_adds(24, 101);
        lemma_pow2_pos(101);
        lemma2_to64();
        let p = pow2(101) as int;
        assert(size >= 0x100_0000) by (nonlinear_arith)
            requires
                size == half_man(h) * (0x100_0000 * p),
                half_man(h) >= 1,
                p >= 1,
        ;
        assert(single_exp(f) > 0 && single_exp(g) > 0);
        let a = 0x80_0000 + single_man(f);
        let b = 0x80_0000 + single_man(g);
        let e = single_exp(f) - 1;
        let d = single_exp(g) - 1;
        assert(a * pow2(e as nat) == size && b * pow2(d as nat) == size);
        if e <= d {
            lemma_units_unique(a, e, b, d);
        } else {
            lemma_units_unique(b, d, a, e);
        }
        assert(f as int / 0x80_0000 == g as int / 0x80_0000);
    }
}

/// The bytes of block `b` of a row.
pub open spec fn block_of(row: Seq<u8>, b: int) -> Seq<u8> {
    row.subrange(b * IQ2_XXS_BLOCK_BYTES, (b + 1) * IQ2_XXS_BLOCK_BYTES)
}

/// The scale that block `b` of a row stores, as an f16.
pub open spec fn block_scale(row: Seq<u8>, b: int) -> int {
    block_of(row, b)[0] + 256 * block_of(row, b)[1]
}

fn read_scale(blk: &[u8]) -> (d: u32)
    requires
        blk@.len() >= IQ2_XXS_BLOCK_BYTES,
    ensures
        is_widened((blk@[0] + 256 * blk@[1]) as u16, d),
{
    f16_to_f32(blk[0] as u16 + 256 * blk[1] as u16)
}

/// What one block adds to a dot: an eighth of `sum`, times the block's scale
/// and the scale of the activations.
#[derive(Clone, Copy, Debug)]
pub struct BlockTerm {
    /// The bits of the block's f32 scale.
    pub d: u32,
    /// The integer dot of the block.
    pub sum: i32,
}

/// Whether a term is what block `b` of a row adds to its dot.
pub open spec fn is_term(
    t: BlockTerm,
    row: Seq<u8>,
    qs: Seq<i8>,
    grid: Seq<u64>,
    b: int,
) -> bool {
    &&& is_widened(block_scale(row, b) as u16, t.d)
    &&& t.sum == dot_below(
        block_of(row, b),
        grid,
        qs.subrange(b * QK_K, (b + 1) * QK_K),
        256,
    )
}

/// Whether a block taken apart is block `b` of a row.
pub open spec fn is_block(w: BlockWeights, row: Seq<u8>, grid: Seq<u64>, b: int) -> bool {
    &&& is_widened(block_scale(row, b) as u16, w.d)
    &&& are_weights(w.weights@, block_of(row, b), grid)
}

/// One expert row (n columns, iq2_xxs) dotted against the values of a q8_K
/// activation row: the terms of the dot, one for each block.
pub fn vec_dot_iq2_xxs_q8_k(row: &[u8], qs: &[i8], n: usize, grid: &[u64]) -> (terms: Vec<
    BlockTerm,
>)
    requires
        row@.len() >= n / QK_K * IQ2_XXS_BLOCK_BYTES,
        qs@.len() >= n / QK_K * QK_K,
        grid@.len() >= 256,
    ensures
        terms@.len() == n / QK_K,
        forall|b: int|
            0 <= b < n / QK_K ==> {
                &&& is_widened(block_scale(row@, b) as u16, (#[trigger] terms@[b]).d)
                &&& terms@[b].sum == dot_below(
                    block_of(row@, b),
                    grid@,
                    qs@.subrange(b * QK_K, (b + 1) * QK_K),
                    256,
                )
            },
        forall|b: int|
            0 <= b < n / QK_K ==> is_term(#[trigger] terms@[b], row@, qs@, grid@, b),
{
    let nb: usize = n / QK_K;
    let mut terms: Vec<BlockTerm> = Vec::new();
    let mut b: usize = 0;
    while b < nb
        invariant
            b <= nb,
            nb == n / QK_K,
            row@.len() >= nb * IQ2_XXS_BLOCK_BYTES,
            qs@.len() >= nb * QK_K,
            grid@.len() >= 256,
            terms@.len() == b,
            forall|j: int|
                0 <= j < b ==> {
                    &&& is_widened(block_scale(row@, j) as u16, (#[trigger] terms@[j]).d)
                    &&& terms@[j].sum == dot_below(
                        block_of(row@, j),
                        grid@,
                        qs@.subrange(j * QK_K, (j + 1) * QK_K),
                        256,
                    )
                },
        decreases nb - b,
    {
        assert(row@.len() == row.len() && qs@.len() == qs.len());
        let blk: &[u8] = slice_subrange(row, b * IQ2_XXS_BLOCK_BYTES, (b + 1) * IQ2_XXS_BLOCK_BYTES);
        let q8: &[i8] = slice_subrange(qs, b * QK_K, (b + 1) * QK_K);
        terms.push(BlockTerm { d: read_scale(blk), sum: block_dot(blk, q8, grid) });
        b += 1;
    }
    terms
}

/// The weights of one block and the bits of its f32 scale. A weight's value is
/// an eighth of the scale, times its factor and its signed grid byte.
#[derive(Debug)]
pub struct BlockWeights {
    pub d: u32,
    pub weights: Vec<Weight>,
}

/// An iq2_xxs row taken apart, block by block.
pub fn dequant_row_iq2_xxs(row: &[u8], n: usize, grid: &[u64]) -> (out: Vec<BlockWeights>)
    requires
        row@.len() >= n / QK_K * IQ2_XXS_BLOCK_BYTES,
        grid@.len() >= 256,
    ensures
        out@.len() == n / QK_K,
        forall|b: int|
            0 <= b < n / QK_K ==> {
                &&& is_widened(block_scale(row@, b) as u16, (#[trigger] out@[b]).d)
                &&& are_weights(out@[b].weights@, block_of(row@, b), grid@)
            },
        forall|b: int| 0 <= b < n / QK_K ==> is_block(#[trigger] out@[b], row@, grid@, b),
{
    let nb: usize = n / QK_K;
    let mut out: Vec<BlockWeights> = Vec::new();
    let mut b: usize = 0;
    while b < nb
        invariant
            b <= nb,
            nb == n / QK_K,
            row@.len() >= nb * IQ2_XXS_BLOCK_BYTES,
            grid@.len() >= 256,
            out@.len() == b,
            forall|j: int|
                0 <= j < b ==> {
                    &&& is_widened(block_scale(row@, j) as u16, (#[trigger] out@[j]).d)
                    &&& are_weights(out@[j].weights@, block_of(row@, j), grid@)
                },
        decreases nb - b,
    {
        assert(row@.len() == row.len());
        let blk: &[u8] = slice_subrange(row, b * IQ2_XXS_BLOCK_BYTES, (b + 1) * IQ2_XXS_BLOCK_BYTES);
        out.push(BlockWeights { d: read_scale(blk), weights: block_weights(blk, grid) });
        b += 1;
    }
    out
}

/// The integer a weight stands for, with the factor of its sub-block.
pub open spec fn weight_value(w: Weight) -> int {
    w.factor * (if w.negative {
        -w.grid
    } else {
        w.grid as int
    })
}

/// The sum of the first `n` products of weights and activations.
pub open spec fn weights_dot(ws: Seq<Weight>, q8: Seq<i8>, n: int) -> int
    decreases n,
{
    if n <= 0 {
        0
    } else {
        weights_dot(ws, q8, n - 1) + weight_value(ws[n - 1]) * q8[n - 1]
    }
}

/// The dot of a block is the dot of its weights: a dot taken on the packed
/// bytes and one taken on the dequantized row agree, in exact integers.
pub proof fn dot_matches_dequant(ws: Seq<Weight>, blk: Seq<u8>, grid: Seq<u64>, q8: Seq<i8>, n: int)
    requires
        are_weights(ws, blk, grid),
        n <= QK_K,
    ensures
        weights_dot(ws, q8, n) == dot_below(blk, grid, q8, n),
    decreases n,
{
    if n > 0 {
        dot_matches_dequant(ws, blk, grid, q8, n - 1);
        let j = n - 1;
        let f = factor_of(blk, j / 32);
        let v = value_of(blk, grid, j);
        let w = ws[j];
        assert(weight_value(w) == f * v);
        let q = q8[j] as int;
        assert((f * v) * q == f * (v * q)) by (nonlinear_arith);
    }
}

proof fn lemma_word_bytes(a: u8, b: u8, c: u8, d: u8)
    ensures
        ({
            let w = (a as u32) | (b as u32) << 8 | (c as u32) << 16 | (d as u32) << 24;
            &&& w == a + 0x100 * b + 0x1_0000 * c + 0x100_0000 * d
            &&& (w >> 0) & 0xff == a
            &&& (w >> 8) & 0xff == b
            &&& (w >> 16) & 0xff == c
            &&& (w >> 24) & 0xff == d
        }),
{
    assert({
        let w = (a as u32) | (b as u32) << 8 | (c as u32) << 16 | (d as u32) << 24;
        &&& w == a + 0x100 * b + 0x1_0000 * c + 0x100_0000 * d
        &&& (w >> 0) & 0xff == a
        &&& (w >> 8) & 0xff == b
        &&& (w >> 16) & 0xff == c
        &&& (w >> 24) & 0xff == d
    }) by (bit_vector);
}

/// A word has its lowest byte first.
pub proof fn word_is_little_endian(blk: Seq<u8>, at: int)
    ensures
        word_at(blk, at) == blk[at] + 0x100 * blk[at + 1] + 0x1_0000 * blk[at + 2] + 0x100_0000
            * blk[at + 3],
{
    lemma_word_bytes(blk[at], blk[at + 1], blk[at + 2], blk[at + 3]);
}

/// Group `k` of a sub-block takes the grid entry that bits `8k..8k + 8` of the
/// sub-block's first word point to.
pub proof fn group_takes_its_index_byte(blk: Seq<u8>, grid: Seq<u64>, ib: int, k: int)
    requires
        0 <= k < 4,
    ensures
        entry_of(blk, grid, ib, k) == grid[((word_at(blk, 2 + 8 * ib) >> ((8 * k) as u32))
            & 0xff) as int],
{
    let at = 2 + 8 * ib;
    lemma_word_bytes(blk[at], blk[at + 1], blk[at + 2], blk[at + 3]);
}

proof fn lemma_ones_of_seven_bits(x: u32, n: int)
    requires
        x < 128,
        7 <= n <= 32,
    ensures
        ones_below(x, n) == ones_below(x, 7),
    decreases n,
{
    if n > 7 {
        lemma_ones_of_seven_bits(x, n - 1);
        let i = (n - 1) as u32;
        assert(x < 128 && 7 <= i < 32 ==> (x >> i) & 1 == 0) by (bit_vector);
    }
}

/// A full sign mask holds the seven stored bits, and as its eighth their
/// exclusive or.
pub proof fn eighth_sign_is_the_parity(s7: u32, i: u32)
    requires
        s7 < 128,
        i < 8,
    ensures
        (full_mask(s7) >> i) & 1 == if i < 7 {
            (s7 >> i) & 1
        } else {
            (s7 ^ (s7 >> 1) ^ (s7 >> 2) ^ (s7 >> 3) ^ (s7 >> 4) ^ (s7 >> 5) ^ (s7 >> 6)) & 1
        },
{
    lemma_ones_of_seven_bits(s7, 32);
    reveal_with_fuel(ones_below, 8);
    assert(((s7 >> 0) & 1) + ((s7 >> 1) & 1) + ((s7 >> 2) & 1) + ((s7 >> 3) & 1) + ((s7 >> 4) & 1)
        + ((s7 >> 5) & 1) + ((s7 >> 6) & 1) == ones(s7));
    let x = (s7 ^ (s7 >> 1) ^ (s7 >> 2) ^ (s7 >> 3) ^ (s7 >> 4) ^ (s7 >> 5) ^ (s7 >> 6)) & 1;
    assert((((s7 >> 0) & 1) + ((s7 >> 1) & 1) + ((s7 >> 2) & 1) + ((s7 >> 3) & 1) + ((s7 >> 4) & 1)
        + ((s7 >> 5) & 1) + ((s7 >> 6) & 1)) % 2 == x) by (bit_vector)
        requires
            x == (s7 ^ (s7 >> 1) ^ (s7 >> 2) ^ (s7 >> 3) ^ (s7 >> 4) ^ (s7 >> 5) ^ (s7 >> 6)) & 1,
    ;
    assert(s7 < 128 && i < 7 ==> ((s7 | 0x80) >> i) & 1 == (s7 >> i) & 1) by (bit_vector);
    assert(s7 < 128 && i == 7 ==> ((s7 | 0x80) >> i) & 1 == 1 && (s7 >> i) & 1 == 0)
        by (bit_vector);
}

/// What the packed bits say of the weight at position `j`: with `indices` and
/// `signs` the two words of its sub-block, its grid byte is byte `j % 8` of
/// the entry that byte `j % 32 / 8` of `indices` points to; its sign is bit
/// `j % 8` of the seven bits of its group in `signs`, or their parity; its
/// factor is twice the top four bits of `signs`, and one.
pub proof fn weights_decode_the_packed_bits(
    ws: Seq<Weight>,
    blk: Seq<u8>,
    grid: Seq<u64>,
    j: int,
)
    requires
        are_weights(ws, blk, grid),
        0 <= j < 256,
    ensures
        ws.len() == 256,
        ({
            let indices = word_at(blk, 2 + 8 * (j / 32));
            let signs = word_at(blk, 6 + 8 * (j / 32));
            let k = j % 32 / 8;
            let i = j % 8;
            let g = (grid[((indices >> ((8 * k) as u32)) & 0xff) as int] >> ((8 * i) as u64)) & 0xff;
            let s = (signs >> ((7 * k) as u32)) & 127;
            let parity = (s ^ (s >> 1) ^ (s >> 2) ^ (s >> 3) ^ (s >> 4) ^ (s >> 5) ^ (s >> 6)) & 1;
            &&& ws[j].grid == if g < 128 {
                g as int
            } else {
                g - 256
            }
            &&& ws[j].negative == if i < 7 {
                (s >> (i as u32)) & 1 == 1
            } else {
                parity == 1
            }
            &&& ws[j].factor == 2 * (signs >> 28) + 1
        }),
{
    let signs = word_at(blk, 6 + 8 * (j / 32));
    let k = j % 32 / 8;
    let sh = (7 * k) as u32;
    let s = (signs >> sh) & 127;
    assert(s < 128) by (bit_vector)
        requires
            s == (signs >> sh) & 127,
    ;
    assert(is_weight(ws[j], blk, grid, j / 32, k, j % 8));
    group_takes_its_index_byte(blk, grid, j / 32, k);
    eighth_sign_is_the_parity(s, (j % 8) as u32);
}

/// A dot grows, value by value, by the product of the weight that the packed
/// bits say and its activation.
pub proof fn dot_grows_by_weight_times_activation(
    blk: Seq<u8>,
    grid: Seq<u64>,
    q8: Seq<i8>,
    j: int,
)
    requires
        0 <= j < 256,
    ensures
        dot_below(blk, grid, q8, 0) == 0,
        ({
            let indices = word_at(blk, 2 + 8 * (j / 32));
            let signs = word_at(blk, 6 + 8 * (j / 32));
            let k = j % 32 / 8;
            let i = j % 8;
            let g = (grid[((indices >> ((8 * k) as u32)) & 0xff) as int] >> ((8 * i) as u64)) & 0xff;
            let s = (signs >> ((7 * k) as u32)) & 127;
            let parity = (s ^ (s >> 1) ^ (s >> 2) ^ (s >> 3) ^ (s >> 4) ^ (s >> 5) ^ (s >> 6)) & 1;
            let size = if g < 128 {
                g as int
            } else {
                g - 256
            };
            let negative = if i < 7 {
                (s >> (i as u32)) & 1 == 1
            } else {
                parity == 1
            };
            dot_below(blk, grid, q8, j + 1) == dot_below(blk, grid, q8, j) + (2 * (signs >> 28)
                + 1) * ((if negative {
                -size
            } else {
                size
            }) * q8[j])
        }),
{
    let signs = word_at(blk, 6 + 8 * (j / 32));
    let k = j % 32 / 8;
    let sh = (7 * k) as u32;
    let s = (signs >> sh) & 127;
    assert(s < 128) by (bit_vector)
        requires
            s == (signs >> sh) & 127,
    ;
    group_takes_its_index_byte(blk, grid, j / 32, k);
    eighth_sign_is_the_parity(s, (j % 8) as u32);
}

/// An activation counts on its own: two rows of activations together have the
/// dots of each, added.
pub proof fn dot_is_additive(
    blk: Seq<u8>,
    grid: Seq<u64>,
    a: Seq<i8>,
    b: Seq<i8>,
    c: Seq<i8>,
    n: int,
)
    requires
        forall|j: int| 0 <= j < n ==> #[trigger] c[j] == a[j] + b[j],
    ensures
        dot_below(blk, grid, c, n) == dot_below(blk, grid, a, n) + dot_below(blk, grid, b, n),
    decreases n,
{
    if n > 0 {
        dot_is_additive(blk, grid, a, b, c, n - 1);
        let f = factor_of(blk, (n - 1) / 32);
        let v = value_of(blk, grid, n - 1);
        let x = a[n - 1] as int;
        let y = b[n - 1] as int;
        assert(c[n - 1] == x + y);
        assert(f * (v * (x + y)) == f * (v * x) + f * (v * y)) by (nonlinear_arith);
    }
}

/// Block `b` of a row is its bytes from `66 b` on, and its scale the number in
/// the first two, lowest byte first.
pub proof fn blocks_lie_one_behind_the_other(row: Seq<u8>, b: int, i: int)
    requires
        0 <= b,
        66 * b + 66 <= row.len(),
        0 <= i < 66,
    ensures
        block_of(row, b).len() == 66,
        block_of(row, b)[i] == row[66 * b + i],
        block_scale(row, b) == row[66 * b] + 256 * row[66 * b + 1],
        0 <= block_scale(row, b) < 0x1_0000,
{
}

/// The f32 of an f16 has its sign; a normal one its fraction and its exponent
/// moved to the wider bias; an infinity or a NaN stays one; a zero stays zero;
/// and one below the normal range, a fraction `m` of units `2^-24`, becomes a
/// normal f32 of that very value.
pub proof fn widened_value(h: u16, f: u32)
    requires
        is_widened(h, f),
    ensures
        ({
            let e = h as int / 1024 % 32;
            let m = h as int % 1024;
            let fe = f as int / 0x80_0000 % 256;
            let fm = f as int % 0x80_0000;
            &&& f / 0x8000_0000 == h / 0x8000
            &&& 1 <= e <= 30 ==> fe == e + 112 && fm == m * 8192
            &&& e == 31 ==> fe == 255 && fm == m * 8192
            &&& e == 0 && m == 0 ==> fe == 0 && fm == 0
            &&& e == 0 && m > 0 ==> fe > 0 && (0x80_0000 + fm) * pow2(fe as nat) == m * pow2(126)
        }),
{
    if half_exp(h) == 0 && half_man(h) > 0 {
        let size = half_man(h) * pow2(125);
        lemma_pow2_adds(24, 101);
        lemma_pow2_pos(101);
        lemma2_to64();
        let p = pow2(101) as int;
        assert(size >= 0x100_0000) by (nonlinear_arith)
            requires
                size == half_man(h) * (0x100_0000 * p),
                half_man(h) >= 1,
                p >= 1,
        ;
        let fe = single_exp(f);
        let sig = 0x80_0000 + single_man(f);
        assert(fe > 0);
        lemma_pow2_unfold(fe as nat);
        lemma_pow2_unfold(126);
        let q = pow2((fe - 1) as nat) as int;
        let r = pow2(125) as int;
        let m = half_man(h);
        assert(sig * (2 * q) == m * (2 * r)) by (nonlinear_arith)
            requires
                sig * q == m * r,
        ;
    }
}

proof fn lemma_ones_below_flip(x: u32, i: u32, n: int)
    requires
        i < 32,
        0 <= n <= 32,
    ensures
        ones_below(x ^ (1u32 << i), n) == ones_below(x, n) + (if i < n {
            1 - 2 * ((x >> i) & 1)
        } else {
            0
        }),
    decreases n,
{
    if n > 0 {
        lemma_ones_below_flip(x, i, n - 1);
        let j = (n - 1) as u32;
        assert(i < 32 && j < 32 && i != j ==> ((x ^ (1u32 << i)) >> j) & 1 == (x >> j) & 1)
            by (bit_vector);
        assert(i < 32 ==> ((x ^ (1u32 << i)) >> i) & 1 == 1 - ((x >> i) & 1)) by (bit_vector);
    }
}

/// The count of set bits starts at none, and turning one bit over changes it
/// by one.
pub proof fn ones_count_the_bits(x: u32, i: u32)
    requires
        i < 32,
    ensures
        ones(0) == 0,
        ones(x ^ (1u32 << i)) == if (x >> i) & 1 == 1 {
            ones(x) - 1
        } else {
            ones(x) + 1
        },
{
    lemma_ones_of_zero(32);
    lemma_ones_below_flip(x, i, 32);
    assert((x >> i) & 1 == 0 || (x >> i) & 1 == 1) by (bit_vector);
}

proof fn lemma_ones_of_zero(n: int)
    requires
        0 <= n <= 32,
    ensures
        ones_below(0, n) == 0,
    decreases n,
{
    if n > 0 {
        lemma_ones_of_zero(n - 1);
        let j = (n - 1) as u32;
        assert((0u32 >> j) & 1 == 0) by (bit_vector);
    }
}

/// A full mask changes nothing but bit 7, which it sets where the number of
/// set bits is odd and leaves otherwise.
pub proof fn full_mask_sets_bit_seven_only(x: u32)
    ensures
        full_mask(x) | 0x80 == x | 0x80,
        (full_mask(x) >> 7) & 1 == 1 <==> (x >> 7) & 1 == 1 || ones(x) % 2 != 0,
{
    assert((x | 0x80) | 0x80 == x | 0x80) by (bit_vector);
    assert(((x | 0x80) >> 7) & 1 == 1) by (bit_vector);
}

/// A row of blocks of 66 bytes meets its activations 256 at a time: a term has
/// the scale in the first two bytes of its block, widened, and the dot of the
/// block with its own 256 activations; a block taken apart has the same scale
/// and the weights of that block.
pub proof fn blocks_meet_their_own_activations(
    t: BlockTerm,
    w: BlockWeights,
    row: Seq<u8>,
    qs: Seq<i8>,
    grid: Seq<u64>,
    b: int,
)
    requires
        0 <= b,
        66 * b + 66 <= row.len(),
        256 * b + 256 <= qs.len(),
    ensures
        is_term(t, row, qs, grid, b) ==> {
            &&& is_widened((row[66 * b] + 256 * row[66 * b + 1]) as u16, t.d)
            &&& t.sum == dot_below(
                row.subrange(66 * b, 66 * b + 66),
                grid,
                qs.subrange(256 * b, 256 * b + 256),
                256,
            )
        },
        is_block(w, row, grid, b) ==> {
            &&& is_widened((row[66 * b] + 256 * row[66 * b + 1]) as u16, w.d)
            &&& are_weights(w.weights@, row.subrange(66 * b, 66 * b + 66), grid)
        },
        is_term(t, row, qs, grid, b) && is_block(w, row, grid, b) ==> t.d == w.d && t.sum
            == weights_dot(w.weights@, qs.subrange(256 * b, 256 * b + 256), 256),
{
    assert(block_of(row, b) =~= row.subrange(66 * b, 66 * b + 66));
    if is_term(t, row, qs, grid, b) && is_block(w, row, grid, b) {
        widening_is_unique(block_scale(row, b) as u16, t.d, w.d);
        dot_matches_dequant(
            w.weights@,
            block_of(row, b),
            grid,
            qs.subrange(256 * b, 256 * b + 256),
            256,
        );
    }
}

} // verus!
