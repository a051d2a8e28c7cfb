//! Space-filling-curve keys: FNV-1a hashing of dimension values, 2-D Morton
//! (Z-order) interleaving and its inverse, Z-range decomposition of boxes,
//! 3-D Morton keys and the Hilbert curve.
use vstd::prelude::*;
use crate::text::{chars_of, decimal_digits, parse_u128, parse_u128_spec, u128_to_text};

verus! {

/// FNV-1a 64-bit offset basis.
pub const FNV_OFFSET_BASIS: u64 = 0xcbf2_9ce4_8422_2325;

/// FNV-1a 64-bit prime.
pub const FNV_PRIME: u64 = 0x0000_0100_0000_01b3;

/// One FNV-1a round: xor the byte in, then multiply by the prime modulo 2^64.
pub open spec fn fnv1a_step(hash: u64, byte: u8) -> u64 {
    (((hash ^ (byte as u64)) as int * FNV_PRIME as int) % 0x1_0000_0000_0000_0000int) as u64
}

/// FNV-1a over a byte sequence, folding from the first byte to the last.
pub open spec fn fnv1a_spec(bytes: Seq<u8>) -> u64
    decreases bytes.len(),
{
    if bytes.len() == 0 {
        FNV_OFFSET_BASIS
    } else {
        fnv1a_step(fnv1a_spec(bytes.drop_last()), bytes.last())
    }
}

/// FNV-1a 64-bit hash: stable across processes and platforms.
pub fn fnv1a_64(bytes: &[u8]) -> (hash: u64)
    ensures
        hash == fnv1a_spec(bytes@),
{
    let mut hash: u64 = FNV_OFFSET_BASIS;
    let n: usize = bytes.len();
    let mut i: usize = 0;
    while i < n
        invariant
            n == bytes@.len(),
            i <= n,
            hash == fnv1a_spec(bytes@.take(i as int)),
        decreases n - i,
    {
        let b: u8 = bytes[i];
        proof {
            assert(bytes@.take(i as int + 1).drop_last() =~= bytes@.take(i as int));
        }
        hash = hash ^ (b as u64);
        hash = hash.wrapping_mul(FNV_PRIME);
        i = i + 1;
    }
    proof {
        assert(bytes@.take(n as int) =~= bytes@);
    }
    hash
}

// ---------------------------------------------------------------------------
// 2-D Morton codes
// ---------------------------------------------------------------------------

/// The bits of `x` placed on the even bit positions: bit `i` of `x` becomes
/// bit `2i` of the result, all odd bits are zero.
#[verifier::opaque]
pub open spec fn morton_spread(x: nat) -> nat
    decreases x,
{
    if x == 0 {
        0
    } else {
        (x % 2) + 4 * morton_spread(x / 2)
    }
}

/// The even bits of `z` gathered into a dense number: bit `2i` of `z` becomes
/// bit `i` of the result; odd bits are ignored.
pub open spec fn morton_compact(z: nat) -> nat
    decreases z,
{
    if z == 0 {
        0
    } else {
        (z % 2) + 2 * morton_compact(z / 4)
    }
}

/// The 2-D Morton key of `(x, y)`: bits of `x` on even positions, bits of `y`
/// on odd positions.
pub open spec fn morton2(x: nat, y: nat) -> nat {
    morton_spread(x) + 2 * morton_spread(y)
}

spec fn spread_formula(x: u64) -> u128 {
    let r0: u128 = x as u128;
    let r1: u128 = (r0 | (r0 << 32u128)) & 0x00000000FFFFFFFF00000000FFFFFFFFu128;
    let r2: u128 = (r1 | (r1 << 16u128)) & 0x0000FFFF0000FFFF0000FFFF0000FFFFu128;
    let r3: u128 = (r2 | (r2 << 8u128)) & 0x00FF00FF00FF00FF00FF00FF00FF00FFu128;
    let r4: u128 = (r3 | (r3 << 4u128)) & 0x0F0F0F0F0F0F0F0F0F0F0F0F0F0F0F0Fu128;
    let r5: u128 = (r4 | (r4 << 2u128)) & 0x33333333333333333333333333333333u128;
    let r6: u128 = (r5 | (r5 << 1u128)) & 0x55555555555555555555555555555555u128;
    r6
}

spec fn compact_formula(z: u128) -> u64 {
    let r0: u128 = z & 0x55555555555555555555555555555555u128;
    let r1: u128 = (r0 | (r0 >> 1u128)) & 0x33333333333333333333333333333333u128;
    let r2: u128 = (r1 | (r1 >> 2u128)) & 0x0F0F0F0F0F0F0F0F0F0F0F0F0F0F0F0Fu128;
    let r3: u128 = (r2 | (r2 >> 4u128)) & 0x00FF00FF00FF00FF00FF00FF00FF00FFu128;
    let r4: u128 = (r3 | (r3 >> 8u128)) & 0x0000FFFF0000FFFF0000FFFF0000FFFFu128;
    let r5: u128 = (r4 | (r4 >> 16u128)) & 0x00000000FFFFFFFF00000000FFFFFFFFu128;
    let r6: u128 = (r5 | (r5 >> 32u128)) & 0x0000000000000000FFFFFFFFFFFFFFFFu128;
    r6 as u64
}

proof fn lemma_spread_formula_step(x: u64)
    ensures
        spread_formula(x) as int == (x % 2) as int + 4 * spread_formula(x / 2) as int,
        spread_formula(0) == 0,
{
    assert(spread_formula(x) == ((x & 1) as u128) + spread_formula(x >> 1) * 4) by (bit_vector);
    assert(x & 1 == x % 2) by (bit_vector);
    assert(x >> 1 == x / 2) by (bit_vector);
    assert(spread_formula(0) == 0) by (bit_vector);
}

proof fn lemma_spread_formula(x: u64)
    ensures
        spread_formula(x) as nat == morton_spread(x as nat),
    decreases x,
{
    lemma_spread_formula_step(x);
    lemma_spread_unfold(x as nat);
    if x != 0 {
        lemma_spread_formula(x / 2);
    }
}

proof fn lemma_compact_formula_step(z: u128)
    ensures
        compact_formula(z) as int == (z % 2) as int + 2 * compact_formula(z / 4) as int,
        compact_formula(0) == 0,
{
    assert(compact_formula(z) as u128 == (z & 1) + (compact_formula(z >> 2) as u128) * 2)
        by (bit_vector);
    assert(z & 1 == z % 2) by (bit_vector);
    assert(z >> 2 == z / 4) by (bit_vector);
    assert(compact_formula(0) == 0) by (bit_vector);
}

proof fn lemma_compact_formula(z: u128)
    ensures
        compact_formula(z) as nat == morton_compact(z as nat),
    decreases z,
{
    lemma_compact_formula_step(z);
    lemma_compact_unfold(z as nat);
    if z != 0 {
        lemma_compact_formula(z / 4);
    }
}

proof fn lemma_interleave_formula(x: u64, y: u64)
    ensures
        (spread_formula(x) | (spread_formula(y) << 1u128)) as int == spread_formula(x) as int + 2
            * spread_formula(y) as int,
{
    assert((spread_formula(x) | (spread_formula(y) << 1u128)) == spread_formula(x) + spread_formula(
        y,
    ) * 2) by (bit_vector);
}

/// Spreading then compacting gives the number back.
pub proof fn lemma_compact_spread(x: nat)
    ensures
        morton_compact(morton_spread(x)) == x,
    decreases x,
{
    if x != 0 {
        lemma_compact_spread(x / 2);
        lemma_spread_unfold(x);
        let s = morton_spread(x / 2);
        let z = morton_spread(x);
        assert(z == (x % 2) + 4 * s);
        assert(z % 2 == x % 2 && z / 4 == s) by {
            assert(x % 2 < 2);
        }
        lemma_compact_unfold(z);
        assert(x == x % 2 + 2 * (x / 2));
    } else {
        lemma_spread_unfold(0);
        lemma_compact_unfold(0);
    }
}

proof fn lemma_spread_unfold(x: nat)
    ensures
        morton_spread(x) == (x % 2) + 4 * morton_spread(x / 2),
        morton_spread(0) == 0,
{
    reveal(morton_spread);
}

proof fn lemma_compact_unfold(z: nat)
    ensures
        morton_compact(z) == (z % 2) + 2 * morton_compact(z / 4),
        morton_compact(0) == 0,
{
    reveal(morton_compact);
}

/// Compacting a key whose odd positions hold the spread `y` reads only `x`.
pub proof fn lemma_compact_morton2(x: nat, y: nat)
    ensures
        morton_compact(morton2(x, y)) == x,
    decreases x + y,
{
    let z = morton2(x, y);
    if x == 0 && y == 0 {
        lemma_spread_unfold(0);
        lemma_compact_unfold(0);
    } else {
        lemma_compact_morton2(x / 2, y / 2);
        lemma_spread_unfold(x);
        lemma_spread_unfold(y);
        lemma_compact_unfold(z);
        let sx = morton_spread(x / 2);
        let sy = morton_spread(y / 2);
        assert(z == (x % 2 + 2 * (y % 2)) + 4 * (sx + 2 * sy));
        assert(z % 2 == x % 2 && z / 4 == sx + 2 * sy) by {
            assert(x % 2 + 2 * (y % 2) < 4);
        }
        assert(morton2(x / 2, y / 2) == sx + 2 * sy);
        assert(x == x % 2 + 2 * (x / 2));
    }
}

proof fn lemma_spread_positive(x: nat)
    requires
        x > 0,
    ensures
        morton_spread(x) > 0,
    decreases x,
{
    lemma_spread_unfold(x);
    if x % 2 == 0 {
        lemma_spread_positive(x / 2);
    }
}

/// Shifting a key right by one swaps the roles of the two coordinates.
pub proof fn lemma_morton2_half(x: nat, y: nat)
    ensures
        morton2(x, y) / 2 == morton2(y, x / 2),
{
    let sx = morton_spread(x / 2);
    lemma_spread_unfold(x);
    assert(morton2(x, y) == (x % 2) + 2 * (morton_spread(y) + 2 * sx));
}

/// The spread is strictly increasing.
pub proof fn lemma_spread_strictly_increasing(a: nat, b: nat)
    requires
        a < b,
    ensures
        morton_spread(a) < morton_spread(b),
    decreases b,
{
    let sa = morton_spread(a / 2);
    let sb = morton_spread(b / 2);
    lemma_spread_unfold(a);
    lemma_spread_unfold(b);
    if a / 2 < b / 2 {
        lemma_spread_strictly_increasing(a / 2, b / 2);
    } else {
        assert(a / 2 == b / 2);
        assert(a % 2 < b % 2);
    }
}

/// Spreads a 64-bit value over the even bit positions of a 128-bit value.
pub fn spread_64(x: u64) -> (res: u128)
    ensures
        res as nat == morton_spread(x as nat),
{
    let mut res: u128 = x as u128;
    res = (res | (res << 32u32)) & 0x00000000FFFFFFFF00000000FFFFFFFF_u128;
    res = (res | (res << 16u32)) & 0x0000FFFF0000FFFF0000FFFF0000FFFF_u128;
    res = (res | (res << 8u32)) & 0x00FF00FF00FF00FF00FF00FF00FF00FF_u128;
    res = (res | (res << 4u32)) & 0x0F0F0F0F0F0F0F0F0F0F0F0F0F0F0F0F_u128;
    res = (res | (res << 2u32)) & 0x33333333333333333333333333333333_u128;
    res = (res | (res << 1u32)) & 0x55555555555555555555555555555555_u128;
    proof {
        assert(res == spread_formula(x));
        lemma_spread_formula(x);
    }
    res
}

/// The 2-D Morton key of `(x, y)`.
pub fn interleave_64(x: u64, y: u64) -> (z: u128)
    ensures
        z as nat == morton2(x as nat, y as nat),
{
    let sx = spread_64(x);
    let sy = spread_64(y);
    proof {
        lemma_spread_formula(x);
        lemma_spread_formula(y);
        lemma_interleave_formula(x, y);
        assert(sx == spread_formula(x));
        assert(sy == spread_formula(y));
    }
    sx | (sy << 1u32)
}

/// Gathers the even bits of `res` back into a 64-bit value (inverse of
/// `spread_64`).
pub fn spread_64_back(res: u128) -> (x: u64)
    ensures
        x as nat == morton_compact(res as nat),
{
    let mut r: u128 = res & 0x55555555555555555555555555555555_u128;
    r = (r | (r >> 1u32)) & 0x33333333333333333333333333333333_u128;
    r = (r | (r >> 2u32)) & 0x0F0F0F0F0F0F0F0F0F0F0F0F0F0F0F0F_u128;
    r = (r | (r >> 4u32)) & 0x00FF00FF00FF00FF00FF00FF00FF00FF_u128;
    r = (r | (r >> 8u32)) & 0x0000FFFF0000FFFF0000FFFF0000FFFF_u128;
    r = (r | (r >> 16u32)) & 0x00000000FFFFFFFF00000000FFFFFFFF_u128;
    r = (r | (r >> 32u32)) & 0x0000000000000000FFFFFFFFFFFFFFFF_u128;
    proof {
        assert(r as u64 == compact_formula(res));
        lemma_compact_formula(res);
    }
    r as u64
}

/// Splits a 2-D Morton key into its two coordinates.
pub fn decode_zorder_2d(z: u128) -> (xy: (u64, u64))
    ensures
        xy.0 as nat == morton_compact(z as nat),
        xy.1 as nat == morton_compact(z as nat / 2),
{
    let x = spread_64_back(z);
    let y = spread_64_back(z >> 1u32);
    proof {
        assert(z >> 1u128 == z / 2) by (bit_vector);
    }
    (x, y)
}

/// Law: decoding the key of `(x, y)` gives back `(x, y)`.
pub proof fn lemma_decode_interleave(x: u64, y: u64)
    ensures
        morton_compact(morton2(x as nat, y as nat)) == x as nat,
        morton_compact(morton2(x as nat, y as nat) / 2) == y as nat,
{
    lemma_compact_morton2(x as nat, y as nat);
    lemma_morton2_half(x as nat, y as nat);
    lemma_compact_morton2(y as nat, x as nat / 2);
}

/// Law: distinct points have distinct keys.
pub proof fn lemma_interleave_injective(x1: u64, y1: u64, x2: u64, y2: u64)
    requires
        morton2(x1 as nat, y1 as nat) == morton2(x2 as nat, y2 as nat),
    ensures
        x1 == x2,
        y1 == y2,
{
    lemma_decode_interleave(x1, y1);
    lemma_decode_interleave(x2, y2);
}

/// Law: for a fixed second coordinate the key grows strictly with the first.
pub proof fn lemma_interleave_monotone(x1: u64, x2: u64, y: u64)
    requires
        x1 < x2,
    ensures
        morton2(x1 as nat, y as nat) < morton2(x2 as nat, y as nat),
{
    lemma_spread_strictly_increasing(x1 as nat, x2 as nat);
}


// ---------------------------------------------------------------------------
// Keys over a time coordinate and a list of dimensions
// ---------------------------------------------------------------------------

/// The shifted hash contribution of dimension number `i`.
pub open spec fn dim_shift(i: int) -> u64 {
    (i % 8) as u64
}

/// The second coordinate of a time/string-dimension key: the xor of the
/// FNV-1a hash of each present dimension's UTF-8 bytes, shifted left by the
/// dimension's position modulo 8 (bits shifted past bit 63 are dropped).
pub open spec fn string_dims_key(dims: Seq<Option<String>>) -> u64
    decreases dims.len(),
{
    if dims.len() == 0 {
        0
    } else {
        let prev = string_dims_key(dims.drop_last());
        match dims.last() {
            Some(d) => prev ^ (fnv1a_spec(utf8_of(d@)) << dim_shift(dims.len() - 1)),
            None => prev,
        }
    }
}

/// The UTF-8 bytes of a character sequence.
pub open spec fn utf8_of(s: Seq<char>) -> Seq<u8> {
    vstd::utf8::encode_utf8(s)
}

/// The second coordinate of a time/integer-dimension key: the xor of each
/// dimension (sign-extended to 64 bits) shifted left by its position modulo 8.
pub open spec fn int_dims_key(dims: Seq<i32>) -> u64
    decreases dims.len(),
{
    if dims.len() == 0 {
        0
    } else {
        int_dims_key(dims.drop_last()) ^ ((dims.last() as u64) << dim_shift(dims.len() - 1))
    }
}

/// The Morton key of a time value (reinterpreted as unsigned) and a list of
/// text dimensions.
pub fn spiral_zorder_core(t: i64, dimensions: Vec<Option<String>>) -> (z: u128)
    ensures
        z as nat == morton2((t as u64) as nat, string_dims_key(dimensions@) as nat),
{
    let x: u64 = t as u64;
    let mut y: u64 = 0;
    let n: usize = dimensions.len();
    let mut i: usize = 0;
    while i < n
        invariant
            n == dimensions@.len(),
            i <= n,
            y == string_dims_key(dimensions@.take(i as int)),
        decreases n - i,
    {
        proof {
            assert(dimensions@.take(i as int + 1).drop_last() =~= dimensions@.take(i as int));
        }
        match &dimensions[i] {
            Some(d) => {
                let h = fnv1a_64(d.as_str().as_bytes());
                y = y ^ (h << ((i % 8) as u64));
            },
            None => {},
        }
        i = i + 1;
    }
    proof {
        assert(dimensions@.take(n as int) =~= dimensions@);
    }
    interleave_64(x, y)
}

/// The Morton key of a time value (reinterpreted as unsigned) and a list of
/// integer dimensions.
pub fn spiral_zorder_int_array_core(t: i64, dimensions: Vec<i32>) -> (z: u128)
    ensures
        z as nat == morton2((t as u64) as nat, int_dims_key(dimensions@) as nat),
{
    let x: u64 = t as u64;
    let mut y: u64 = 0;
    let n: usize = dimensions.len();
    let mut i: usize = 0;
    while i < n
        invariant
            n == dimensions@.len(),
            i <= n,
            y == int_dims_key(dimensions@.take(i as int)),
        decreases n - i,
    {
        proof {
            assert(dimensions@.take(i as int + 1).drop_last() =~= dimensions@.take(i as int));
        }
        let d: i32 = dimensions[i];
        y = y ^ ((d as u64) << ((i % 8) as u64));
        i = i + 1;
    }
    proof {
        assert(dimensions@.take(n as int) =~= dimensions@);
    }
    interleave_64(x, y)
}


// ---------------------------------------------------------------------------
// 3-D Morton keys
// ---------------------------------------------------------------------------

/// Bit `i` of `v`.
pub open spec fn bit_of(v: u128, i: u128) -> u128 {
    (v >> i) & 1u128
}

/// The three bits of level `i`, as a number below 8.
pub open spec fn morton3_digit(x: u128, y: u128, z: u128, i: nat) -> nat {
    (bit_of(x, i as u128) + 2 * bit_of(y, i as u128) + 4 * bit_of(z, i as u128)) as nat
}

/// The 3-D Morton key built from the low `n` bits of each coordinate: bit `i`
/// of `x`, `y` and `z` lands on bits `3i`, `3i + 1` and `3i + 2`.
pub open spec fn morton3_prefix(x: u128, y: u128, z: u128, n: nat) -> nat
    decreases n,
{
    if n == 0 {
        0
    } else {
        let i = (n - 1) as nat;
        morton3_prefix(x, y, z, i) + morton3_digit(x, y, z, i) * vstd::arithmetic::power2::pow2(
            3 * i,
        )
    }
}

proof fn lemma_morton3_bound(x: u128, y: u128, z: u128, n: nat)
    ensures
        morton3_prefix(x, y, z, n) < vstd::arithmetic::power2::pow2(3 * n),
    decreases n,
{
    vstd::arithmetic::power2::lemma_pow2_pos(3 * n);
    if n > 0 {
        let i = (n - 1) as nat;
        lemma_morton3_bound(x, y, z, i);
        let iu: u128 = i as u128;
        assert(bit_of(x, iu) <= 1) by (bit_vector);
        assert(bit_of(y, iu) <= 1) by (bit_vector);
        assert(bit_of(z, iu) <= 1) by (bit_vector);
        vstd::arithmetic::power2::lemma_pow2_adds(3 * i, 3);
        vstd::arithmetic::power2::lemma2_to64();
        let p = vstd::arithmetic::power2::pow2(3 * i);
        let d = morton3_digit(x, y, z, i);
        assert(d <= 7);
        assert(d * p <= 7 * p) by (nonlinear_arith)
            requires
                d <= 7,
                p >= 0,
        ;
        assert(3 * n == 3 * i + 3);
    }
}

/// The 3-D Morton key of three 42-bit coordinates (each reinterpreted as
/// unsigned 128-bit, so a negative coordinate contributes its two's-complement
/// bits).
pub fn zorder_3d_core(x: i64, y: i64, z: i64) -> (res: u128)
    ensures
        res as nat == morton3_prefix(x as u128, y as u128, z as u128, 42),
{
    let xx: u128 = x as u128;
    let yy: u128 = y as u128;
    let zz: u128 = z as u128;
    let mut res: u128 = 0;
    let mut i: u128 = 0;
    while i < 42
        invariant
            i <= 42,
            xx == x as u128,
            yy == y as u128,
            zz == z as u128,
            res as nat == morton3_prefix(xx, yy, zz, i as nat),
        decreases 42 - i,
    {
        proof {
            lemma_morton3_bound(xx, yy, zz, i as nat);
            vstd::arithmetic::power2::lemma2_to64();
            vstd::arithmetic::power2::lemma2_to64_rest();
            assert(vstd::arithmetic::power2::pow2(3 * i as nat) == (1u128 << (3 * i))) by {
                lemma_pow2_shl_u128((3 * i) as u128);
            }
        }
        let bx: u128 = (xx >> i) & 1;
        let by: u128 = (yy >> i) & 1;
        let bz: u128 = (zz >> i) & 1;
        proof {
            assert(bx <= 1) by (bit_vector)
                requires
                    bx == (xx >> i) & 1,
            ;
            assert(by <= 1) by (bit_vector)
                requires
                    by == (yy >> i) & 1,
            ;
            assert(bz <= 1) by (bit_vector)
                requires
                    bz == (zz >> i) & 1,
            ;
        }
        let old_res = res;
        res = res | (bx << (3 * i));
        res = res | (by << (3 * i + 1));
        res = res | (bz << (3 * i + 2));
        proof {
            let sh: u128 = (3 * i) as u128;
            assert(res == old_res + (bx + 2 * by + 4 * bz) * (1u128 << sh)) by (bit_vector)
                requires
                    old_res < (1u128 << sh),
                    sh <= 123,
                    bx <= 1,
                    by <= 1,
                    bz <= 1,
                    res == ((old_res | (bx << sh)) | (by << (sh + 1))) | (bz << (sh + 2)),
            ;
        }
        i = i + 1;
    }
    res
}

proof fn lemma_pow2_shl_u128(e: u128)
    requires
        e < 128,
    ensures
        vstd::arithmetic::power2::pow2(e as nat) == (1u128 << e),
    decreases e,
{
    if e == 0 {
        assert(1u128 << 0u128 == 1) by (bit_vector);
        vstd::arithmetic::power2::lemma2_to64();
    } else {
        lemma_pow2_shl_u128((e - 1) as u128);
        let e1: u128 = (e - 1) as u128;
        assert((1u128 << e) == (1u128 << e1) * 2) by (bit_vector)
            requires
                0 < e < 128,
                e1 + 1 == e,
        ;
        vstd::arithmetic::power2::lemma_pow2_unfold(e as nat);
    }
}

// ---------------------------------------------------------------------------
// Hilbert curve
// ---------------------------------------------------------------------------

/// The Hilbert quadrant digit for the bits `rx`, `ry` of the current level.
pub open spec fn hilbert_digit(rx: bool, ry: bool) -> nat {
    if rx {
        if ry {
            2
        } else {
            3
        }
    } else {
        if ry {
            1
        } else {
            0
        }
    }
}

/// One level of the Hilbert walk at bit `s`: the contribution of the quadrant
/// and the coordinates reflected/rotated into the sub-square.
pub open spec fn hilbert_level(x: u64, y: u64, s: u64) -> (u64, u64, nat) {
    let n: u64 = (1u64 << s);
    let rx = (x & n) > 0;
    let ry = (y & n) > 0;
    let c: nat = (n as nat) * (n as nat) * hilbert_digit(rx, ry);
    let x1: u64 = if rx { x ^ n } else { x };
    let y1: u64 = if ry { y ^ n } else { y };
    if !ry {
        if rx {
            (
                vstd::wrapping::u64_specs::wrapping_sub(
                    vstd::wrapping::u64_specs::wrapping_sub(n, 1),
                    y1,
                ),
                vstd::wrapping::u64_specs::wrapping_sub(
                    vstd::wrapping::u64_specs::wrapping_sub(n, 1),
                    x1,
                ),
                c,
            )
        } else {
            (y1, x1, c)
        }
    } else {
        (x1, y1, c)
    }
}

/// The Hilbert-curve distance accumulated over levels `k - 1` down to `0`.
pub open spec fn hilbert_from(x: u64, y: u64, k: nat) -> nat
    decreases k,
{
    if k == 0 {
        0
    } else {
        let r = hilbert_level(x, y, (k - 1) as u64);
        r.2 + hilbert_from(r.0, r.1, (k - 1) as nat)
    }
}

/// The distance of `(x, y)` along the Hilbert curve of order 64.
pub open spec fn hilbert_spec(x: u64, y: u64) -> nat {
    hilbert_from(x, y, 64)
}

fn rot(n: u64, x: &mut u64, y: &mut u64, rx: bool, ry: bool)
    ensures
        !ry && rx ==> *final(x) == vstd::wrapping::u64_specs::wrapping_sub(
            vstd::wrapping::u64_specs::wrapping_sub(n, 1),
            *old(y),
        ) && *final(y) == vstd::wrapping::u64_specs::wrapping_sub(
            vstd::wrapping::u64_specs::wrapping_sub(n, 1),
            *old(x),
        ),
        !ry && !rx ==> *final(x) == *old(y) && *final(y) == *old(x),
        ry ==> *final(x) == *old(x) && *final(y) == *old(y),
{
    if !ry {
        if rx {
            *x = n.wrapping_sub(1).wrapping_sub(*x);
            *y = n.wrapping_sub(1).wrapping_sub(*y);
        }
        std::mem::swap(x, y);
    }
}

/// Distance of `(x, y)` along the 64-level Hilbert curve.
pub fn hilbert_encode(x: u64, y: u64) -> (d: u128)
    ensures
        d as nat == hilbert_spec(x, y),
{
    let mut x: u64 = x;
    let mut y: u64 = y;
    let ghost x0 = x;
    let ghost y0 = y;
    let mut d: u128 = 0;
    let mut k: u64 = 64;
    while k > 0
        invariant
            k <= 64,
            d as nat + hilbert_from(x, y, k as nat) == hilbert_spec(x0, y0),
            d as nat + vstd::arithmetic::power2::pow2(2 * k as nat) <= vstd::arithmetic::power2::pow2(128),
        decreases k,
    {
        let s: u64 = k - 1;
        let n: u64 = 1u64 << s;
        let rx: bool = (x & n) > 0;
        let ry: bool = (y & n) > 0;
        proof {
            vstd::bits::lemma_u64_pow2_no_overflow(s as nat);
            vstd::bits::lemma_u64_shl_is_mul(1, s);
            vstd::arithmetic::power2::lemma_pow2_adds(s as nat, s as nat);
            vstd::arithmetic::power2::lemma_pow2_adds(2 * s as nat, 2);
            vstd::arithmetic::power2::lemma2_to64();
            assert(2 * k as nat == 2 * s as nat + 2);
            assert((n as nat) * (n as nat) == vstd::arithmetic::power2::pow2(2 * s as nat));
        }
        let three_rx: u64 = 3 * rx as u64;
        let q: u64 = three_rx ^ (ry as u64);
        proof {
            assert(q as nat == hilbert_digit(rx, ry)) by {
                if rx {
                    if ry {
                        assert(3u64 ^ 1u64 == 2u64) by (bit_vector);
                    } else {
                        assert(3u64 ^ 0u64 == 3u64) by (bit_vector);
                    }
                } else {
                    if ry {
                        assert(0u64 ^ 1u64 == 1u64) by (bit_vector);
                    } else {
                        assert(0u64 ^ 0u64 == 0u64) by (bit_vector);
                    }
                }
            }
            let p = vstd::arithmetic::power2::pow2(2 * s as nat);
            assert(p * q as nat <= 3 * p) by (nonlinear_arith)
                requires
                    q <= 3,
            ;
            vstd::arithmetic::power2::lemma_pow2_adds(64, 64);
            assert(vstd::arithmetic::power2::pow2(128) == 0x1_0000_0000_0000_0000_0000_0000_0000_0000nat);
            assert((n as u128) * (n as u128) == p);
            assert(d as nat + p * q as nat + p <= vstd::arithmetic::power2::pow2(128));
        }
        d = d + (n as u128 * n as u128) * (q as u128);
        if rx {
            x = x ^ n;
        }
        if ry {
            y = y ^ n;
        }
        rot(n, &mut x, &mut y, rx, ry);
        k = k - 1;
    }
    d
}


// ---------------------------------------------------------------------------
// Z-range decomposition of a 2-D box
// ---------------------------------------------------------------------------

/// The largest value of a 64-bit coordinate.
pub open spec fn coord_max() -> nat {
    0xFFFF_FFFF_FFFF_FFFFnat
}

/// The offset from the first to the last coordinate of a quadrant at `level`.
pub open spec fn quadrant_side(level: nat) -> nat {
    if level >= 64 {
        coord_max()
    } else {
        (vstd::arithmetic::power2::pow2(level) - 1) as nat
    }
}

/// Addition clamped to the largest 64-bit coordinate.
pub open spec fn saturating_coord_add(a: nat, b: nat) -> nat {
    if a + b > coord_max() {
        coord_max()
    } else {
        a + b
    }
}

/// The closed Z-ranges produced for the quadrant with lower corner `(x, y)` at
/// `level` against the box `[min_x, max_x] x [min_y, max_y]`: nothing for a
/// quadrant outside the box, the quadrant's key range for one inside it, and
/// otherwise the ranges of its four sub-quadrants in Morton order.
pub open spec fn decompose_spec(
    x: nat,
    y: nat,
    level: nat,
    min_x: nat,
    min_y: nat,
    max_x: nat,
    max_y: nat,
) -> Seq<(nat, nat)>
    decreases level,
{
    let side = quadrant_side(level);
    let x_end = saturating_coord_add(x, side);
    let y_end = saturating_coord_add(y, side);
    if x > max_x || x_end < min_x || y > max_y || y_end < min_y {
        Seq::empty()
    } else if x >= min_x && x_end <= max_x && y >= min_y && y_end <= max_y {
        seq![(morton2(x, y), morton2(x_end, y_end))]
    } else if level == 0 {
        seq![(morton2(x, y), morton2(x, y))]
    } else {
        let h = vstd::arithmetic::power2::pow2((level - 1) as nat);
        let l = (level - 1) as nat;
        decompose_spec(x, y, l, min_x, min_y, max_x, max_y) + decompose_spec(
            x + h,
            y,
            l,
            min_x,
            min_y,
            max_x,
            max_y,
        ) + decompose_spec(x, y + h, l, min_x, min_y, max_x, max_y) + decompose_spec(
            x + h,
            y + h,
            l,
            min_x,
            min_y,
            max_x,
            max_y,
        )
    }
}

/// The ranges as pairs of mathematical integers.
pub open spec fn ranges_view(r: Seq<(u128, u128)>) -> Seq<(nat, nat)> {
    r.map_values(|p: (u128, u128)| (p.0 as nat, p.1 as nat))
}

proof fn lemma_ranges_view_push(r: Seq<(u128, u128)>, p: (u128, u128))
    ensures
        ranges_view(r.push(p)) == ranges_view(r).push((p.0 as nat, p.1 as nat)),
{
    assert(ranges_view(r.push(p)) =~= ranges_view(r).push((p.0 as nat, p.1 as nat)));
}

fn decompose_quadrant(
    x: u64,
    y: u64,
    level: u32,
    min_x: u64,
    min_y: u64,
    max_x: u64,
    max_y: u64,
    ranges: &mut Vec<(u128, u128)>,
)
    requires
        level <= 64,
        x as nat + vstd::arithmetic::power2::pow2(level as nat) <= coord_max() + 1,
        y as nat + vstd::arithmetic::power2::pow2(level as nat) <= coord_max() + 1,
    ensures
        ranges_view(final(ranges)@) == ranges_view(old(ranges)@) + decompose_spec(
            x as nat,
            y as nat,
            level as nat,
            min_x as nat,
            min_y as nat,
            max_x as nat,
            max_y as nat,
        ),
    decreases level,
{
    proof {
        vstd::arithmetic::power2::lemma2_to64();
        vstd::arithmetic::power2::lemma_pow2_pos(level as nat);
    }
    let side: u64 = if level == 64 {
        u64::MAX
    } else {
        proof {
            vstd::bits::lemma_u64_pow2_no_overflow(level as nat);
            vstd::bits::lemma_u64_shl_is_mul(1, level as u64);
        }
        (1u64 << level).wrapping_sub(1)
    };
    let x_end: u64 = x.saturating_add(side);
    let y_end: u64 = y.saturating_add(side);
    let ghost spec_ranges = decompose_spec(
        x as nat,
        y as nat,
        level as nat,
        min_x as nat,
        min_y as nat,
        max_x as nat,
        max_y as nat,
    );
    assert(side as nat == quadrant_side(level as nat));
    if x > max_x || x_end < min_x || y > max_y || y_end < min_y {
        assert(spec_ranges =~= Seq::<(nat, nat)>::empty());
        assert(ranges_view(ranges@) =~= ranges_view(ranges@) + spec_ranges);
        return ;
    }
    if x >= min_x && x_end <= max_x && y >= min_y && y_end <= max_y {
        let start = interleave_64(x, y);
        let end = interleave_64(x_end, y_end);
        proof {
            lemma_ranges_view_push(ranges@, (start, end));
        }
        ranges.push((start, end));
        return ;
    }
    if level == 0 {
        let z = interleave_64(x, y);
        proof {
            lemma_ranges_view_push(ranges@, (z, z));
        }
        ranges.push((z, z));
        return ;
    }
    let next_level: u32 = level - 1;
    proof {
        vstd::arithmetic::power2::lemma_pow2_unfold(level as nat);
        vstd::bits::lemma_u64_pow2_no_overflow(next_level as nat);
        vstd::bits::lemma_u64_shl_is_mul(1, next_level as u64);
    }
    let next_side: u64 = 1u64 << next_level;
    let ghost r0 = ranges@;
    decompose_quadrant(x, y, next_level, min_x, min_y, max_x, max_y, ranges);
    decompose_quadrant(x + next_side, y, next_level, min_x, min_y, max_x, max_y, ranges);
    decompose_quadrant(x, y + next_side, next_level, min_x, min_y, max_x, max_y, ranges);
    decompose_quadrant(
        x + next_side,
        y + next_side,
        next_level,
        min_x,
        min_y,
        max_x,
        max_y,
        ranges,
    );
    proof {
        let l = next_level as nat;
        let h = vstd::arithmetic::power2::pow2(l);
        let a = decompose_spec(x as nat, y as nat, l, min_x as nat, min_y as nat, max_x as nat, max_y as nat);
        let b = decompose_spec(x as nat + h, y as nat, l, min_x as nat, min_y as nat, max_x as nat, max_y as nat);
        let c = decompose_spec(x as nat, y as nat + h, l, min_x as nat, min_y as nat, max_x as nat, max_y as nat);
        let d = decompose_spec(x as nat + h, y as nat + h, l, min_x as nat, min_y as nat, max_x as nat, max_y as nat);
        assert(spec_ranges == a + b + c + d);
        assert(ranges_view(ranges@) =~= ranges_view(r0) + (a + b + c + d));
    }
}

/// The closed Z-ranges whose union is exactly the set of keys of the points
/// in the box `[min_x, max_x] x [min_y, max_y]`.
pub fn generate_z_ranges_2d(min_x: u64, min_y: u64, max_x: u64, max_y: u64) -> (ranges: Vec<(u128, u128)>)
    ensures
        ranges_view(ranges@) == decompose_spec(
            0,
            0,
            64,
            min_x as nat,
            min_y as nat,
            max_x as nat,
            max_y as nat,
        ),
{
    let mut ranges: Vec<(u128, u128)> = Vec::new();
    proof {
        vstd::arithmetic::power2::lemma2_to64();
        vstd::arithmetic::power2::lemma_pow2_adds(32, 32);
        assert(ranges_view(ranges@) =~= Seq::<(nat, nat)>::empty());
    }
    decompose_quadrant(0, 0, 64, min_x, min_y, max_x, max_y, &mut ranges);
    proof {
        assert(ranges_view(ranges@) =~= decompose_spec(
            0,
            0,
            64,
            min_x as nat,
            min_y as nat,
            max_x as nat,
            max_y as nat,
        ));
    }
    ranges
}


// ---------------------------------------------------------------------------
// Keys of aligned blocks
// ---------------------------------------------------------------------------

proof fn lemma_pow2_facts(l: nat)
    ensures
        vstd::arithmetic::power2::pow2(l) >= 1,
        vstd::arithmetic::power2::pow2(2 * l) == vstd::arithmetic::power2::pow2(l)
            * vstd::arithmetic::power2::pow2(l),
        l > 0 ==> vstd::arithmetic::power2::pow2(l) == 2 * vstd::arithmetic::power2::pow2(
            (l - 1) as nat,
        ),
        l > 0 ==> vstd::arithmetic::power2::pow2(2 * l) == 4 * vstd::arithmetic::power2::pow2(
            2 * (l - 1) as nat,
        ),
        vstd::arithmetic::power2::pow2(0) == 1,
{
    vstd::arithmetic::power2::lemma_pow2_pos(l);
    vstd::arithmetic::power2::lemma_pow2_adds(l, l);
    vstd::arithmetic::power2::lemma2_to64();
    if l > 0 {
        vstd::arithmetic::power2::lemma_pow2_unfold(l);
        vstd::arithmetic::power2::lemma_pow2_adds(2 * (l - 1) as nat, 2);
        assert(2 * l == 2 * (l - 1) as nat + 2);
    }
}

/// Spreading a value whose low `l` bits are `u` and high part is `a`.
proof fn lemma_spread_split(a: nat, u: nat, l: nat)
    requires
        u < vstd::arithmetic::power2::pow2(l),
    ensures
        morton_spread(a * vstd::arithmetic::power2::pow2(l) + u) == morton_spread(a)
            * vstd::arithmetic::power2::pow2(2 * l) + morton_spread(u),
    decreases l,
{
    lemma_pow2_facts(l);
    if l == 0 {
        lemma_spread_unfold(0);
        assert(u == 0);
    } else {
        let pl = vstd::arithmetic::power2::pow2((l - 1) as nat);
        let ql = vstd::arithmetic::power2::pow2(2 * (l - 1) as nat);
        let big_a = a * pl;
        assert(a * vstd::arithmetic::power2::pow2(l) == 2 * big_a) by (nonlinear_arith)
            requires
                vstd::arithmetic::power2::pow2(l) == 2 * pl,
                big_a == a * pl,
        ;
        let v = 2 * big_a + u;
        assert(v % 2 == u % 2 && v / 2 == big_a + u / 2);
        assert(u / 2 < pl);
        lemma_spread_split(a, u / 2, (l - 1) as nat);
        lemma_spread_unfold(v);
        lemma_spread_unfold(u);
        let sa = morton_spread(a);
        assert(sa * vstd::arithmetic::power2::pow2(2 * l) == 4 * (sa * ql)) by (nonlinear_arith)
            requires
                vstd::arithmetic::power2::pow2(2 * l) == 4 * ql,
        ;
    }
}

/// The spread of an `l`-bit value stays below a third of `4^l`.
proof fn lemma_spread_small(u: nat, l: nat)
    requires
        u < vstd::arithmetic::power2::pow2(l),
    ensures
        3 * morton_spread(u) < vstd::arithmetic::power2::pow2(2 * l),
    decreases l,
{
    lemma_pow2_facts(l);
    lemma_spread_unfold(u);
    if l == 0 {
        assert(u == 0);
        lemma_spread_unfold(0);
    } else {
        lemma_spread_small(u / 2, (l - 1) as nat);
    }
}

/// Every number is the key of its even-bit and odd-bit halves.
#[verifier::spinoff_prover]
proof fn lemma_morton2_compact(w: nat)
    ensures
        w == morton2(morton_compact(w), morton_compact(w / 2)),
    decreases w,
{
    if w == 0 {
        lemma_compact_unfold(0);
        lemma_spread_unfold(0);
    } else {
        lemma_morton2_compact(w / 4);
        let c1 = morton_compact(w / 4);
        let c2 = morton_compact(w / 8);
        lemma_compact_unfold(w);
        lemma_compact_unfold(w / 2);
        assert((w / 2) / 4 == w / 8);
        assert((w / 4) / 2 == w / 8);
        let cw = morton_compact(w);
        let cw2 = morton_compact(w / 2);
        assert(cw == w % 2 + 2 * c1);
        assert(cw2 == (w / 2) % 2 + 2 * c2);
        lemma_spread_unfold(cw);
        lemma_spread_unfold(cw2);
        assert(cw % 2 == w % 2 && cw / 2 == c1);
        assert(cw2 % 2 == (w / 2) % 2 && cw2 / 2 == c2);
        assert(w / 4 == morton_spread(c1) + 2 * morton_spread(c2));
        assert(w == w % 2 + 2 * ((w / 2) % 2) + 4 * (w / 4));
    }
}

/// Keys of points inside an aligned block of side `2^l` lie between the keys
/// of its two extreme corners.
proof fn lemma_block_contains(a: nat, c: nat, l: nat, u: nat, v: nat)
    requires
        u < vstd::arithmetic::power2::pow2(l),
        v < vstd::arithmetic::power2::pow2(l),
    ensures
        morton2(a * vstd::arithmetic::power2::pow2(l) + u, c * vstd::arithmetic::power2::pow2(l)
            + v) == morton2(a, c) * vstd::arithmetic::power2::pow2(2 * l) + morton2(u, v),
        morton2(u, v) < vstd::arithmetic::power2::pow2(2 * l),
        morton2(u, v) <= morton2(
            (vstd::arithmetic::power2::pow2(l) - 1) as nat,
            (vstd::arithmetic::power2::pow2(l) - 1) as nat,
        ),
{
    let p = vstd::arithmetic::power2::pow2(l);
    let q = vstd::arithmetic::power2::pow2(2 * l);
    lemma_pow2_facts(l);
    lemma_spread_split(a, u, l);
    lemma_spread_split(c, v, l);
    lemma_spread_small(u, l);
    lemma_spread_small(v, l);
    let sa = morton_spread(a);
    let sc = morton_spread(c);
    assert(sa * q + 2 * (sc * q) == (sa + 2 * sc) * q) by (nonlinear_arith);
    let top = (p - 1) as nat;
    if u < top {
        lemma_spread_strictly_increasing(u, top);
    }
    if v < top {
        lemma_spread_strictly_increasing(v, top);
    }
}

/// Injectivity of the key on mathematical integers.
proof fn lemma_morton2_injective(a1: nat, c1: nat, a2: nat, c2: nat)
    requires
        morton2(a1, c1) == morton2(a2, c2),
    ensures
        a1 == a2,
        c1 == c2,
{
    lemma_compact_morton2(a1, c1);
    lemma_compact_morton2(a2, c2);
    lemma_morton2_half(a1, c1);
    lemma_morton2_half(a2, c2);
    lemma_compact_morton2(c1, a1 / 2);
    lemma_compact_morton2(c2, a2 / 2);
}

/// Every key between the keys of the extreme corners of an aligned block of
/// side `2^l` decodes to a point of that block.
proof fn lemma_block_keys(a: nat, c: nat, l: nat, z: nat)
    requires
        morton2(a, c) * vstd::arithmetic::power2::pow2(2 * l) <= z,
        z < (morton2(a, c) + 1) * vstd::arithmetic::power2::pow2(2 * l),
    ensures
        a * vstd::arithmetic::power2::pow2(l) <= morton_compact(z) < (a + 1)
            * vstd::arithmetic::power2::pow2(l),
        c * vstd::arithmetic::power2::pow2(l) <= morton_compact(z / 2) < (c + 1)
            * vstd::arithmetic::power2::pow2(l),
{
    let p = vstd::arithmetic::power2::pow2(l);
    let q = vstd::arithmetic::power2::pow2(2 * l);
    lemma_pow2_facts(l);
    let pz = morton_compact(z);
    let qz = morton_compact(z / 2);
    lemma_morton2_compact(z);
    vstd::arithmetic::div_mod::lemma_fundamental_div_mod(pz as int, p as int);
    vstd::arithmetic::div_mod::lemma_fundamental_div_mod(qz as int, p as int);
    let a2 = pz / p;
    let u2 = pz % p;
    let c2 = qz / p;
    let v2 = qz % p;
    assert(pz == a2 * p + u2) by (nonlinear_arith)
        requires
            pz == p * (pz / p) + pz % p,
            a2 == pz / p,
            u2 == pz % p,
    ;
    assert(qz == c2 * p + v2) by (nonlinear_arith)
        requires
            qz == p * (qz / p) + qz % p,
            c2 == qz / p,
            v2 == qz % p,
    ;
    lemma_block_contains(a2, c2, l, u2, v2);
    let m = morton2(a, c);
    let m2 = morton2(a2, c2);
    let r = morton2(u2, v2);
    assert(z == m2 * q + r);
    vstd::arithmetic::div_mod::lemma_fundamental_div_mod_converse_div(z as int, q as int, m2 as int, r as int);
    let r1 = z - m * q;
    assert(z == m * q + r1);
    assert(0 <= r1 < q) by (nonlinear_arith)
        requires
            m * q <= z,
            z < (m + 1) * q,
            r1 == z - m * q,
    ;
    vstd::arithmetic::div_mod::lemma_fundamental_div_mod_converse_div(z as int, q as int, m as int, r1 as int);
    assert(m == m2);
    lemma_morton2_injective(a, c, a2, c2);
    assert(a * p <= pz < (a + 1) * p) by (nonlinear_arith)
        requires
            pz == a * p + u2,
            u2 < p,
    ;
    assert(c * p <= qz < (c + 1) * p) by (nonlinear_arith)
        requires
            qz == c * p + v2,
            v2 < p,
    ;
}


// ---------------------------------------------------------------------------
// The Z-ranges of a box cover exactly the box
// ---------------------------------------------------------------------------

/// `(px, py)` lies in the closed box `[min_x, max_x] x [min_y, max_y]`.
pub open spec fn in_box(px: nat, py: nat, min_x: nat, min_y: nat, max_x: nat, max_y: nat) -> bool {
    min_x <= px <= max_x && min_y <= py <= max_y
}

/// The key `k` lies inside one of the closed ranges of `r`.
pub open spec fn key_in_ranges(r: Seq<(nat, nat)>, k: nat) -> bool {
    exists|i: int| #![trigger r[i]] 0 <= i < r.len() && r[i].0 <= k <= r[i].1
}

/// A quadrant whose corner is aligned to its side `2^l` and that fits in the
/// 64-bit coordinate space.
pub open spec fn aligned_quadrant(x: nat, y: nat, l: nat) -> bool {
    &&& l <= 64
    &&& x % vstd::arithmetic::power2::pow2(l) == 0
    &&& y % vstd::arithmetic::power2::pow2(l) == 0
    &&& x + vstd::arithmetic::power2::pow2(l) <= coord_max() + 1
    &&& y + vstd::arithmetic::power2::pow2(l) <= coord_max() + 1
}

proof fn lemma_quadrant_end(x: nat, l: nat)
    requires
        l <= 64,
        x + vstd::arithmetic::power2::pow2(l) <= coord_max() + 1,
    ensures
        saturating_coord_add(x, quadrant_side(l)) == x + vstd::arithmetic::power2::pow2(l) - 1,
{
    vstd::arithmetic::power2::lemma2_to64();
    lemma_pow2_facts(l);
}

proof fn lemma_quadrant_corner(x: nat, l: nat) -> (a: nat)
    requires
        x % vstd::arithmetic::power2::pow2(l) == 0,
    ensures
        x == a * vstd::arithmetic::power2::pow2(l),
{
    let p = vstd::arithmetic::power2::pow2(l);
    lemma_pow2_facts(l);
    vstd::arithmetic::div_mod::lemma_fundamental_div_mod(x as int, p as int);
    let a = x / p;
    assert(x == a * p) by (nonlinear_arith)
        requires
            x == p * (x / p) + x % p,
            x % p == 0,
            a == x / p,
    ;
    a
}

proof fn lemma_children_aligned(x: nat, y: nat, l: nat)
    requires
        aligned_quadrant(x, y, l),
        l > 0,
    ensures
        ({
            let h = vstd::arithmetic::power2::pow2((l - 1) as nat);
            &&& aligned_quadrant(x, y, (l - 1) as nat)
            &&& aligned_quadrant(x + h, y, (l - 1) as nat)
            &&& aligned_quadrant(x, y + h, (l - 1) as nat)
            &&& aligned_quadrant(x + h, y + h, (l - 1) as nat)
        }),
{
    let h = vstd::arithmetic::power2::pow2((l - 1) as nat);
    lemma_pow2_facts(l);
    lemma_pow2_facts((l - 1) as nat);
    let a = lemma_quadrant_corner(x, l);
    let c = lemma_quadrant_corner(y, l);
    assert(x == (2 * a) * h) by (nonlinear_arith)
        requires
            x == a * (2 * h),
    ;
    assert(y == (2 * c) * h) by (nonlinear_arith)
        requires
            y == c * (2 * h),
    ;
    assert(x + h == (2 * a + 1) * h) by (nonlinear_arith)
        requires
            x == (2 * a) * h,
    ;
    assert(y + h == (2 * c + 1) * h) by (nonlinear_arith)
        requires
            y == (2 * c) * h,
    ;
    vstd::arithmetic::div_mod::lemma_mod_multiples_basic((2 * a) as int, h as int);
    vstd::arithmetic::div_mod::lemma_mod_multiples_basic((2 * c) as int, h as int);
    vstd::arithmetic::div_mod::lemma_mod_multiples_basic((2 * a + 1) as int, h as int);
    vstd::arithmetic::div_mod::lemma_mod_multiples_basic((2 * c + 1) as int, h as int);
}

/// Every key inside a range produced for an aligned quadrant decodes to a
/// point of the box within that quadrant.
proof fn lemma_decompose_sound(
    x: nat,
    y: nat,
    l: nat,
    min_x: nat,
    min_y: nat,
    max_x: nat,
    max_y: nat,
)
    requires
        aligned_quadrant(x, y, l),
    ensures
        forall|i: int, z: nat|
            #![trigger decompose_spec(x, y, l, min_x, min_y, max_x, max_y)[i], morton_compact(z)]
            0 <= i < decompose_spec(x, y, l, min_x, min_y, max_x, max_y).len()
                && decompose_spec(x, y, l, min_x, min_y, max_x, max_y)[i].0 <= z
                <= decompose_spec(x, y, l, min_x, min_y, max_x, max_y)[i].1 ==> {
                &&& in_box(morton_compact(z), morton_compact(z / 2), min_x, min_y, max_x, max_y)
                &&& x <= morton_compact(z) < x + vstd::arithmetic::power2::pow2(l)
                &&& y <= morton_compact(z / 2) < y + vstd::arithmetic::power2::pow2(l)
            },
    decreases l,
{
    let r = decompose_spec(x, y, l, min_x, min_y, max_x, max_y);
    let p = vstd::arithmetic::power2::pow2(l);
    let q = vstd::arithmetic::power2::pow2(2 * l);
    lemma_pow2_facts(l);
    lemma_quadrant_end(x, l);
    lemma_quadrant_end(y, l);
    let x_end = x + p - 1;
    let y_end = y + p - 1;
    if x > max_x || x_end < min_x || y > max_y || y_end < min_y {
        assert(r.len() == 0);
    } else if x >= min_x && x_end <= max_x && y >= min_y && y_end <= max_y {
        let a = lemma_quadrant_corner(x, l);
        let c = lemma_quadrant_corner(y, l);
        lemma_block_contains(a, c, l, 0, 0);
        lemma_block_contains(a, c, l, (p - 1) as nat, (p - 1) as nat);
        lemma_spread_unfold(0);
        assert(morton2(0, 0) == 0);
        let m = morton2(a, c);
        assert(r[0].0 == m * q);
        assert(r[0].1 < (m + 1) * q) by (nonlinear_arith)
            requires
                r[0].1 == m * q + morton2((p - 1) as nat, (p - 1) as nat),
                morton2((p - 1) as nat, (p - 1) as nat) < q,
        ;
        assert forall|i: int, z: nat|
            #![trigger r[i], morton_compact(z)]
            0 <= i < r.len() && r[i].0 <= z <= r[i].1 implies {
                &&& in_box(morton_compact(z), morton_compact(z / 2), min_x, min_y, max_x, max_y)
                &&& x <= morton_compact(z) < x + p
                &&& y <= morton_compact(z / 2) < y + p
            } by {
            lemma_block_keys(a, c, l, z);
            assert((a + 1) * p == a * p + p) by (nonlinear_arith);
            assert((c + 1) * p == c * p + p) by (nonlinear_arith);
        }
    } else if l == 0 {
        assert(p == 1);
        assert forall|i: int, z: nat|
            #![trigger r[i], morton_compact(z)]
            0 <= i < r.len() && r[i].0 <= z <= r[i].1 implies {
                &&& in_box(morton_compact(z), morton_compact(z / 2), min_x, min_y, max_x, max_y)
                &&& x <= morton_compact(z) < x + p
                &&& y <= morton_compact(z / 2) < y + p
            } by {
            assert(z == morton2(x, y));
            lemma_compact_morton2(x, y);
            lemma_morton2_half(x, y);
            lemma_compact_morton2(y, x / 2);
        }
    } else {
        let ll = (l - 1) as nat;
        let h = vstd::arithmetic::power2::pow2(ll);
        lemma_children_aligned(x, y, l);
        lemma_decompose_sound(x, y, ll, min_x, min_y, max_x, max_y);
        lemma_decompose_sound(x + h, y, ll, min_x, min_y, max_x, max_y);
        lemma_decompose_sound(x, y + h, ll, min_x, min_y, max_x, max_y);
        lemma_decompose_sound(x + h, y + h, ll, min_x, min_y, max_x, max_y);
        let ra = decompose_spec(x, y, ll, min_x, min_y, max_x, max_y);
        let rb = decompose_spec(x + h, y, ll, min_x, min_y, max_x, max_y);
        let rc = decompose_spec(x, y + h, ll, min_x, min_y, max_x, max_y);
        let rd = decompose_spec(x + h, y + h, ll, min_x, min_y, max_x, max_y);
        assert(r == ra + rb + rc + rd);
        assert forall|i: int, z: nat|
            #![trigger r[i], morton_compact(z)]
            0 <= i < r.len() && r[i].0 <= z <= r[i].1 implies {
                &&& in_box(morton_compact(z), morton_compact(z / 2), min_x, min_y, max_x, max_y)
                &&& x <= morton_compact(z) < x + p
                &&& y <= morton_compact(z / 2) < y + p
            } by {
            let na = ra.len() as int;
            let nb = rb.len() as int;
            let nc = rc.len() as int;
            if i < na {
                assert(r[i] == ra[i]);
            } else if i < na + nb {
                assert(r[i] == rb[i - na]);
            } else if i < na + nb + nc {
                assert(r[i] == rc[i - na - nb]);
            } else {
                assert(r[i] == rd[i - na - nb - nc]);
            }
        }
    }
}

/// Every point of the box within an aligned quadrant has its key inside one
/// of the ranges produced for that quadrant.
proof fn lemma_decompose_complete(
    x: nat,
    y: nat,
    l: nat,
    min_x: nat,
    min_y: nat,
    max_x: nat,
    max_y: nat,
    px: nat,
    py: nat,
)
    requires
        aligned_quadrant(x, y, l),
        in_box(px, py, min_x, min_y, max_x, max_y),
        x <= px < x + vstd::arithmetic::power2::pow2(l),
        y <= py < y + vstd::arithmetic::power2::pow2(l),
    ensures
        key_in_ranges(decompose_spec(x, y, l, min_x, min_y, max_x, max_y), morton2(px, py)),
    decreases l,
{
    let r = decompose_spec(x, y, l, min_x, min_y, max_x, max_y);
    let p = vstd::arithmetic::power2::pow2(l);
    lemma_pow2_facts(l);
    lemma_quadrant_end(x, l);
    lemma_quadrant_end(y, l);
    let x_end = x + p - 1;
    let y_end = y + p - 1;
    let z = morton2(px, py);
    if x > max_x || x_end < min_x || y > max_y || y_end < min_y {
        assert(false);
    } else if x >= min_x && x_end <= max_x && y >= min_y && y_end <= max_y {
        let a = lemma_quadrant_corner(x, l);
        let c = lemma_quadrant_corner(y, l);
        lemma_block_contains(a, c, l, 0, 0);
        lemma_block_contains(a, c, l, (p - 1) as nat, (p - 1) as nat);
        lemma_block_contains(a, c, l, (px - x) as nat, (py - y) as nat);
        lemma_spread_unfold(0);
        assert(morton2(0, 0) == 0);
        assert(r[0].0 <= z <= r[0].1);
        assert(key_in_ranges(r, z));
    } else if l == 0 {
        assert(px == x && py == y);
        assert(r[0].0 <= z <= r[0].1);
        assert(key_in_ranges(r, z));
    } else {
        let ll = (l - 1) as nat;
        let h = vstd::arithmetic::power2::pow2(ll);
        lemma_children_aligned(x, y, l);
        let ra = decompose_spec(x, y, ll, min_x, min_y, max_x, max_y);
        let rb = decompose_spec(x + h, y, ll, min_x, min_y, max_x, max_y);
        let rc = decompose_spec(x, y + h, ll, min_x, min_y, max_x, max_y);
        let rd = decompose_spec(x + h, y + h, ll, min_x, min_y, max_x, max_y);
        assert(r == ra + rb + rc + rd);
        let na = ra.len() as int;
        let nb = rb.len() as int;
        let nc = rc.len() as int;
        if px < x + h && py < y + h {
            lemma_decompose_complete(x, y, ll, min_x, min_y, max_x, max_y, px, py);
            let j = choose|j: int| #![trigger ra[j]] 0 <= j < ra.len() && ra[j].0 <= z <= ra[j].1;
            assert(r[j] == ra[j]);
            assert(key_in_ranges(r, z));
        } else if py < y + h {
            lemma_decompose_complete(x + h, y, ll, min_x, min_y, max_x, max_y, px, py);
            let j = choose|j: int| #![trigger rb[j]] 0 <= j < rb.len() && rb[j].0 <= z <= rb[j].1;
            assert(r[na + j] == rb[j]);
            assert(key_in_ranges(r, z));
        } else if px < x + h {
            lemma_decompose_complete(x, y + h, ll, min_x, min_y, max_x, max_y, px, py);
            let j = choose|j: int| #![trigger rc[j]] 0 <= j < rc.len() && rc[j].0 <= z <= rc[j].1;
            assert(r[na + nb + j] == rc[j]);
            assert(key_in_ranges(r, z));
        } else {
            lemma_decompose_complete(x + h, y + h, ll, min_x, min_y, max_x, max_y, px, py);
            let j = choose|j: int| #![trigger rd[j]] 0 <= j < rd.len() && rd[j].0 <= z <= rd[j].1;
            assert(r[na + nb + nc + j] == rd[j]);
            assert(key_in_ranges(r, z));
        }
    }
}

/// Law: the Z-ranges generated for a box cover exactly the keys of the box's
/// points. Every key in a range decodes to a point of the box, and the key of
/// every point of the box lies in some range.
pub proof fn lemma_z_ranges_cover_box(min_x: u64, min_y: u64, max_x: u64, max_y: u64)
    ensures
        forall|i: int, z: nat|
            #![trigger decompose_spec(0, 0, 64, min_x as nat, min_y as nat, max_x as nat, max_y as nat)[i], morton_compact(z)]
            0 <= i < decompose_spec(0, 0, 64, min_x as nat, min_y as nat, max_x as nat, max_y as nat).len()
                && decompose_spec(0, 0, 64, min_x as nat, min_y as nat, max_x as nat, max_y as nat)[i].0 <= z
                <= decompose_spec(0, 0, 64, min_x as nat, min_y as nat, max_x as nat, max_y as nat)[i].1
                ==> in_box(
                morton_compact(z),
                morton_compact(z / 2),
                min_x as nat,
                min_y as nat,
                max_x as nat,
                max_y as nat,
            ),
        forall|px: u64, py: u64|
            #![trigger morton2(px as nat, py as nat)]
            in_box(px as nat, py as nat, min_x as nat, min_y as nat, max_x as nat, max_y as nat)
                ==> key_in_ranges(
                decompose_spec(0, 0, 64, min_x as nat, min_y as nat, max_x as nat, max_y as nat),
                morton2(px as nat, py as nat),
            ),
{
    vstd::arithmetic::power2::lemma2_to64();
    assert(aligned_quadrant(0, 0, 64));
    lemma_decompose_sound(0, 0, 64, min_x as nat, min_y as nat, max_x as nat, max_y as nat);
    assert forall|px: u64, py: u64|
        #![trigger morton2(px as nat, py as nat)]
        in_box(px as nat, py as nat, min_x as nat, min_y as nat, max_x as nat, max_y as nat) implies key_in_ranges(
            decompose_spec(0, 0, 64, min_x as nat, min_y as nat, max_x as nat, max_y as nat),
            morton2(px as nat, py as nat),
        ) by {
        lemma_decompose_complete(
            0,
            0,
            64,
            min_x as nat,
            min_y as nat,
            max_x as nat,
            max_y as nat,
            px as nat,
            py as nat,
        );
    }
}

// ---------------------------------------------------------------------------
// SQL-facing keys, rendered as decimal numerics
// ---------------------------------------------------------------------------

/// `spiral_zorder(t, text[])`: the Morton key of a time value and text
/// dimensions, as the decimal text of the numeric that SQL receives.
pub fn spiral_zorder(t: i64, dimensions: Vec<Option<String>>) -> (s: String)
    ensures
        s@ == decimal_digits(morton2((t as u64) as nat, string_dims_key(dimensions@) as nat)),
{
    let val = spiral_zorder_core(t, dimensions);
    u128_to_text(val)
}

/// `spiral_zorder(t, int[])`: the Morton key of a time value and integer
/// dimensions, as decimal text.
pub fn spiral_zorder_int_array(t: i64, dimensions: Vec<i32>) -> (s: String)
    ensures
        s@ == decimal_digits(morton2((t as u64) as nat, int_dims_key(dimensions@) as nat)),
{
    let val = spiral_zorder_int_array_core(t, dimensions);
    u128_to_text(val)
}

/// `spiral_zorder_3d(x, y, z)`: the 3-D Morton key over the low 42 bits of
/// each coordinate, as decimal text.
pub fn spiral_zorder_3d(x: i64, y: i64, z: i64) -> (s: String)
    ensures
        s@ == decimal_digits(morton3_prefix(x as u128, y as u128, z as u128, 42)),
{
    let val = zorder_3d_core(x, y, z);
    u128_to_text(val)
}

/// `spiral_hilbert_2d(x, y)`: the Hilbert distance of the coordinates
/// reinterpreted as unsigned, as decimal text.
pub fn spiral_hilbert_2d(x: i64, y: i64) -> (s: String)
    ensures
        s@ == decimal_digits(hilbert_spec(x as u64, y as u64)),
{
    let d = hilbert_encode(x as u64, y as u64);
    u128_to_text(d)
}

/// The key that a numeric's decimal text stands for: its value when it
/// parses as an unsigned 128-bit integer, else 0.
pub open spec fn key_of_text(z: Seq<char>) -> u128 {
    match parse_u128_spec(z) {
        Some(v) => v,
        None => 0,
    }
}

/// The `<@` operator between a Morton key and a box: the key (given as the
/// decimal text of a numeric; text that does not parse counts as key 0)
/// decodes to a point inside the box with corners `(low_x, low_y)` and
/// `(high_x, high_y)`, bounds included.
pub fn spiral_zorder_contained_by(z: &str, low_x: u64, low_y: u64, high_x: u64, high_y: u64) -> (r: bool)
    ensures
        r == in_box(
            morton_compact(key_of_text(z@) as nat),
            morton_compact(key_of_text(z@) as nat / 2),
            low_x as nat,
            low_y as nat,
            high_x as nat,
            high_y as nat,
        ),
{
    let cs = chars_of(z);
    let z_val: u128 = match parse_u128(&cs) {
        Some(v) => v,
        None => 0,
    };
    let (x, y) = decode_zorder_2d(z_val);
    x >= low_x && x <= high_x && y >= low_y && y <= high_y
}

/// Every range is non-empty and lies within `[lo, hi]`.
pub open spec fn ranges_within(r: Seq<(nat, nat)>, lo: nat, hi: nat) -> bool {
    forall|i: int| 0 <= i < r.len() ==> lo <= (#[trigger] r[i]).0 && r[i].0 <= r[i].1 && r[i].1 <= hi
}

/// Each range ends before the next one starts.
pub open spec fn ranges_ordered(r: Seq<(nat, nat)>) -> bool {
    forall|i: int, j: int| 0 <= i < j < r.len() ==> (#[trigger] r[i]).1 < (#[trigger] r[j]).0
}

proof fn lemma_ranges_concat(r1: Seq<(nat, nat)>, lo1: nat, hi1: nat, r2: Seq<(nat, nat)>, lo2: nat, hi2: nat)
    requires
        ranges_within(r1, lo1, hi1),
        ranges_ordered(r1),
        ranges_within(r2, lo2, hi2),
        ranges_ordered(r2),
        lo1 <= hi1 < lo2 <= hi2,
    ensures
        ranges_within(r1 + r2, lo1, hi2),
        ranges_ordered(r1 + r2),
{
    let r = r1 + r2;
    assert forall|i: int| 0 <= i < r.len() implies lo1 <= (#[trigger] r[i]).0 && r[i].0 <= r[i].1 && r[i].1 <= hi2 by {
        if i < r1.len() {
            assert(r[i] == r1[i]);
        } else {
            assert(r[i] == r2[i - r1.len()]);
        }
    }
    assert forall|i: int, j: int| 0 <= i < j < r.len() implies (#[trigger] r[i]).1 < (#[trigger] r[j]).0 by {
        if j < r1.len() {
            assert(r[i] == r1[i] && r[j] == r1[j]);
        } else if i >= r1.len() {
            assert(r[i] == r2[i - r1.len()] && r[j] == r2[j - r1.len()]);
        } else {
            assert(r[i] == r1[i] && r[j] == r2[j - r1.len()]);
        }
    }
}

/// The key of the corner of the child quadrant `(i, j)` (each 0 or 1) of an
/// aligned quadrant at level `l`.
#[verifier::spinoff_prover]
proof fn lemma_child_key(a: nat, c: nat, l: nat, i: nat, j: nat)
    requires
        l > 0,
        i <= 1,
        j <= 1,
    ensures
        ({
            let h = vstd::arithmetic::power2::pow2((l - 1) as nat);
            let q = vstd::arithmetic::power2::pow2(2 * (l - 1) as nat);
            morton2(a * (2 * h) + i * h, c * (2 * h) + j * h) == morton2(a * (2 * h), c * (2 * h)) + (i + 2 * j) * q
        }),
{
    let h = vstd::arithmetic::power2::pow2((l - 1) as nat);
    let q = vstd::arithmetic::power2::pow2(2 * (l - 1) as nat);
    lemma_pow2_facts((l - 1) as nat);
    assert(a * (2 * h) + i * h == (2 * a + i) * h) by (nonlinear_arith);
    assert(c * (2 * h) + j * h == (2 * c + j) * h) by (nonlinear_arith);
    assert(a * (2 * h) == (2 * a) * h) by (nonlinear_arith);
    assert(c * (2 * h) == (2 * c) * h) by (nonlinear_arith);
    lemma_block_contains(2 * a + i, 2 * c + j, (l - 1) as nat, 0, 0);
    lemma_block_contains(2 * a, 2 * c, (l - 1) as nat, 0, 0);
    lemma_spread_unfold(0);
    assert(morton2(0, 0) == 0);
    assert((2 * a + i) * h + 0 == (2 * a + i) * h);
    lemma_spread_unfold(2 * a + i);
    lemma_spread_unfold(2 * c + j);
    lemma_spread_unfold(2 * a);
    lemma_spread_unfold(2 * c);
    assert((2 * a + i) % 2 == i && (2 * a + i) / 2 == a);
    assert((2 * c + j) % 2 == j && (2 * c + j) / 2 == c);
    assert((2 * a) % 2 == 0 && (2 * a) / 2 == a);
    assert((2 * c) % 2 == 0 && (2 * c) / 2 == c);
    assert(morton2(2 * a + i, 2 * c + j) == morton2(2 * a, 2 * c) + i + 2 * j);
    assert((morton2(2 * a, 2 * c) + i + 2 * j) * q == morton2(2 * a, 2 * c) * q + (i + 2 * j) * q) by (nonlinear_arith);
}

/// The ranges of an aligned quadrant lie, in order and apart, within the
/// quadrant's block of keys.
#[verifier::spinoff_prover]
proof fn lemma_decompose_ordered(x: nat, y: nat, l: nat, min_x: nat, min_y: nat, max_x: nat, max_y: nat)
    requires
        aligned_quadrant(x, y, l),
    ensures
        ranges_within(
            decompose_spec(x, y, l, min_x, min_y, max_x, max_y),
            morton2(x, y),
            (morton2(x, y) + vstd::arithmetic::power2::pow2(2 * l) - 1) as nat,
        ),
        ranges_ordered(decompose_spec(x, y, l, min_x, min_y, max_x, max_y)),
    decreases l,
{
    let p = vstd::arithmetic::power2::pow2(l);
    let q = vstd::arithmetic::power2::pow2(2 * l);
    lemma_pow2_facts(l);
    let a = lemma_quadrant_corner(x, l);
    let c = lemma_quadrant_corner(y, l);
    lemma_quadrant_end(x, l);
    lemma_quadrant_end(y, l);
    lemma_block_contains(a, c, l, 0, 0);
    lemma_spread_unfold(0);
    assert(morton2(0, 0) == 0);
    assert(a * p + 0 == x && c * p + 0 == y);
    let k = morton2(x, y);
    assert(k == morton2(a, c) * q);
    let d = decompose_spec(x, y, l, min_x, min_y, max_x, max_y);
    let x_end = saturating_coord_add(x, quadrant_side(l));
    let y_end = saturating_coord_add(y, quadrant_side(l));
    if x > max_x || x_end < min_x || y > max_y || y_end < min_y {
    } else if x >= min_x && x_end <= max_x && y >= min_y && y_end <= max_y {
        lemma_block_contains(a, c, l, (p - 1) as nat, (p - 1) as nat);
        assert(a * p + (p - 1) == x_end && c * p + (p - 1) == y_end);
        assert(d[0] == (morton2(x, y), morton2(x_end, y_end)));
    } else if l == 0 {
        assert(d[0] == (morton2(x, y), morton2(x, y)));
    } else {
        let l1 = (l - 1) as nat;
        let h = vstd::arithmetic::power2::pow2(l1);
        let q1 = vstd::arithmetic::power2::pow2(2 * l1);
        lemma_children_aligned(x, y, l);
        assert(x == a * (2 * h) && y == c * (2 * h));
        lemma_child_key(a, c, l, 1, 0);
        lemma_child_key(a, c, l, 0, 1);
        lemma_child_key(a, c, l, 1, 1);
        assert(a * (2 * h) + 1 * h == x + h && c * (2 * h) + 0 * h == y);
        assert(a * (2 * h) + 0 * h == x && c * (2 * h) + 1 * h == y + h);
        assert(a * (2 * h) + 1 * h == x + h && c * (2 * h) + 1 * h == y + h);
        assert(morton2(x + h, y) == k + q1);
        assert(morton2(x, y + h) == k + 2 * q1);
        assert(morton2(x + h, y + h) == k + 3 * q1);
        lemma_decompose_ordered(x, y, l1, min_x, min_y, max_x, max_y);
        lemma_decompose_ordered(x + h, y, l1, min_x, min_y, max_x, max_y);
        lemma_decompose_ordered(x, y + h, l1, min_x, min_y, max_x, max_y);
        lemma_decompose_ordered(x + h, y + h, l1, min_x, min_y, max_x, max_y);
        let d0 = decompose_spec(x, y, l1, min_x, min_y, max_x, max_y);
        let d1 = decompose_spec(x + h, y, l1, min_x, min_y, max_x, max_y);
        let d2 = decompose_spec(x, y + h, l1, min_x, min_y, max_x, max_y);
        let d3 = decompose_spec(x + h, y + h, l1, min_x, min_y, max_x, max_y);
        assert(q1 >= 1);
        lemma_ranges_concat(d0, k, (k + q1 - 1) as nat, d1, k + q1, (k + 2 * q1 - 1) as nat);
        lemma_ranges_concat(d0 + d1, k, (k + 2 * q1 - 1) as nat, d2, k + 2 * q1, (k + 3 * q1 - 1) as nat);
        lemma_ranges_concat(d0 + d1 + d2, k, (k + 3 * q1 - 1) as nat, d3, k + 3 * q1, (k + 4 * q1 - 1) as nat);
        assert(d == d0 + d1 + d2 + d3);
        assert(q == 4 * q1);
    }
}

/// Law: the Z-ranges generated for a box come out in key order and apart:
/// each is non-empty and ends before the next one starts.
pub proof fn lemma_z_ranges_sorted_disjoint(min_x: u64, min_y: u64, max_x: u64, max_y: u64)
    ensures
        ranges_ordered(decompose_spec(0, 0, 64, min_x as nat, min_y as nat, max_x as nat, max_y as nat)),
        forall|i: int|
            0 <= i < decompose_spec(0, 0, 64, min_x as nat, min_y as nat, max_x as nat, max_y as nat).len() ==> (#[trigger] decompose_spec(
                0,
                0,
                64,
                min_x as nat,
                min_y as nat,
                max_x as nat,
                max_y as nat,
            )[i]).0 <= decompose_spec(0, 0, 64, min_x as nat, min_y as nat, max_x as nat, max_y as nat)[i].1,
{
    vstd::arithmetic::power2::lemma2_to64();
    assert(aligned_quadrant(0, 0, 64));
    lemma_decompose_ordered(0, 0, 64, min_x as nat, min_y as nat, max_x as nat, max_y as nat);
}

// ---------------------------------------------------------------------------
// The Hilbert curve is a continuous walk over the grid
// ---------------------------------------------------------------------------

proof fn lemma_hilbert_bits(x: u64, s: u64)
    by (bit_vector)
    requires
        s < 64,
        x >> s < 2,
    ensures
        ((x & (1u64 << s)) > 0) == (x >= (1u64 << s)),
        x >= (1u64 << s) ==> (x ^ (1u64 << s)) == x - (1u64 << s),
        x < (1u64 << s) || x - (1u64 << s) < (1u64 << s),
{
}

/// The quadrant step of the curve at half-side `h`: the point's place in its
/// sub-square and the quadrant's rank along the curve (lower left, upper
/// left, upper right, lower right).
spec fn quad(x: nat, y: nat, h: nat) -> (nat, nat, nat) {
    if x < h {
        if y < h {
            (y, x, 0)
        } else {
            (x, (y - h) as nat, 1)
        }
    } else if y >= h {
        ((x - h) as nat, (y - h) as nat, 2)
    } else {
        ((h - 1 - y) as nat, (2 * h - 1 - x) as nat, 3)
    }
}

proof fn lemma_hilbert_level(x: u64, y: u64, s: u64)
    requires
        s < 64,
        x < 2 * vstd::arithmetic::power2::pow2(s as nat),
        y < 2 * vstd::arithmetic::power2::pow2(s as nat),
    ensures
        ({
            let h = vstd::arithmetic::power2::pow2(s as nat);
            let q = quad(x as nat, y as nat, h);
            &&& q.0 < h
            &&& q.1 < h
            &&& hilbert_level(x, y, s) == (q.0 as u64, q.1 as u64, h * h * q.2)
        }),
{
    let h = vstd::arithmetic::power2::pow2(s as nat);
    vstd::bits::lemma_u64_pow2_no_overflow(s as nat);
    vstd::bits::lemma_u64_shl_is_mul(1, s);
    assert((1u64 << s) as nat == h);
    vstd::bits::lemma_u64_shr_is_div(x, s);
    vstd::bits::lemma_u64_shr_is_div(y, s);
    vstd::arithmetic::div_mod::lemma_div_is_ordered(x as int, (2 * h - 1) as int, h as int);
    vstd::arithmetic::div_mod::lemma_div_is_ordered(y as int, (2 * h - 1) as int, h as int);
    assert(((2 * h - 1) as int) / (h as int) == 1) by {
        vstd::arithmetic::div_mod::lemma_fundamental_div_mod_converse_div((2 * h - 1) as int, h as int, 1, (h - 1) as int);
    }
    lemma_hilbert_bits(x, s);
    lemma_hilbert_bits(y, s);
    let n: u64 = 1u64 << s;
    let rx = (x & n) > 0;
    let ry = (y & n) > 0;
    let q = quad(x as nat, y as nat, h);
    assert(h * h * hilbert_digit(rx, ry) == h * h * q.2);
}


/// `(x1, y1)` and `(x2, y2)` are neighbouring cells of the grid: they differ
/// by one in exactly one coordinate.
pub open spec fn cells_adjacent(x1: nat, y1: nat, x2: nat, y2: nat) -> bool {
    ||| x1 == x2 && (y2 == y1 + 1 || y1 == y2 + 1)
    ||| y1 == y2 && (x2 == x1 + 1 || x1 == x2 + 1)
}

proof fn lemma_hilbert_step(x: u64, y: u64, k: nat)
    requires
        1 <= k <= 64,
        x < vstd::arithmetic::power2::pow2(k),
        y < vstd::arithmetic::power2::pow2(k),
    ensures
        ({
            let h = vstd::arithmetic::power2::pow2((k - 1) as nat);
            let q = quad(x as nat, y as nat, h);
            &&& vstd::arithmetic::power2::pow2(k) == 2 * h
            &&& h > 0
            &&& q.0 < h
            &&& q.1 < h
            &&& q.2 <= 3
            &&& hilbert_from(x, y, k) == h * h * q.2 + hilbert_from(q.0 as u64, q.1 as u64, (k - 1) as nat)
        }),
{
    vstd::arithmetic::power2::lemma_pow2_unfold(k);
    vstd::arithmetic::power2::lemma_pow2_pos((k - 1) as nat);
    lemma_hilbert_level(x, y, (k - 1) as u64);
}

proof fn lemma_digit_times(big: nat, d: nat)
    by (nonlinear_arith)
    requires
        d <= 3,
    ensures
        big * d == (if d == 0 { 0 } else if d == 1 { big } else if d == 2 { big + big } else { big + big + big }),
{
}

/// The distance of a point of the `2^k` square is below `4^k`.
proof fn lemma_hilbert_range(x: u64, y: u64, k: nat)
    requires
        k <= 64,
        x < vstd::arithmetic::power2::pow2(k),
        y < vstd::arithmetic::power2::pow2(k),
    ensures
        hilbert_from(x, y, k) < vstd::arithmetic::power2::pow2(k) * vstd::arithmetic::power2::pow2(k),
    decreases k,
{
    if k == 0 {
        assert(vstd::arithmetic::power2::pow2(0) == 1) by {
            vstd::arithmetic::power2::lemma2_to64();
        }
    } else {
        lemma_hilbert_step(x, y, k);
        let h = vstd::arithmetic::power2::pow2((k - 1) as nat);
        let q = quad(x as nat, y as nat, h);
        lemma_hilbert_range(q.0 as u64, q.1 as u64, (k - 1) as nat);
        let r = hilbert_from(q.0 as u64, q.1 as u64, (k - 1) as nat);
        let big = h * h;
        lemma_digit_times(big, q.2);
        assert((2 * h) * (2 * h) == big + big + big + big) by (nonlinear_arith)
            requires
                big == h * h,
        ;
    }
}

proof fn lemma_hilbert_origin(k: nat)
    requires
        k <= 64,
    ensures
        hilbert_from(0, 0, k) == 0,
    decreases k,
{
    if k > 0 {
        lemma_hilbert_origin((k - 1) as nat);
        vstd::arithmetic::power2::lemma_pow2_pos(k);
        lemma_hilbert_step(0, 0, k);
        let h = vstd::arithmetic::power2::pow2((k - 1) as nat);
        assert(quad(0, 0, h) == (0nat, 0nat, 0nat));
        lemma_digit_times(h * h, 0);
    }
}

proof fn lemma_hilbert_corner(k: nat)
    requires
        k <= 64,
    ensures
        vstd::arithmetic::power2::pow2(k) <= vstd::arithmetic::power2::pow2(64),
        hilbert_from((vstd::arithmetic::power2::pow2(k) - 1) as u64, 0, k)
            == vstd::arithmetic::power2::pow2(k) * vstd::arithmetic::power2::pow2(k) - 1,
    decreases k,
{
    vstd::arithmetic::power2::lemma2_to64();
    if k < 64 {
        vstd::arithmetic::power2::lemma_pow2_strictly_increases(k, 64);
    }
    if k > 0 {
        lemma_hilbert_corner((k - 1) as nat);
        let h = vstd::arithmetic::power2::pow2((k - 1) as nat);
        let x: u64 = (vstd::arithmetic::power2::pow2(k) - 1) as u64;
        vstd::arithmetic::power2::lemma_pow2_unfold(k);
        vstd::arithmetic::power2::lemma_pow2_pos((k - 1) as nat);
        lemma_hilbert_step(x, 0, k);
        let q = quad(x as nat, 0, h);
        assert(q == ((h - 1) as nat, 0nat, 3nat));
        let big = h * h;
        lemma_digit_times(big, 3);
        assert((2 * h) * (2 * h) == big + big + big + big) by (nonlinear_arith)
            requires
                big == h * h,
        ;
        let r = hilbert_from((h - 1) as u64, 0, (k - 1) as nat);
        assert(r == big - 1);
        assert(hilbert_from(x, 0, k) == big * 3 + r);
    } else {
        assert(vstd::arithmetic::power2::pow2(0) * vstd::arithmetic::power2::pow2(0) == 1);
    }
}

/// Distances written as `big * d + r` with `r < big` have a unique digit and
/// remainder; consecutive ones either share the digit or cross from the last
/// remainder of one digit to the first of the next.
proof fn lemma_digit_split(big: nat, d1: nat, r1: nat, d2: nat, r2: nat)
    requires
        big > 0,
        d1 <= 3,
        d2 <= 3,
        r1 < big,
        r2 < big,
    ensures
        big * d1 + r1 == big * d2 + r2 ==> d1 == d2 && r1 == r2,
        big * d1 + r1 + 1 == big * d2 + r2 ==> (d1 == d2 && r2 == r1 + 1) || (d2 == d1 + 1 && r1 == big - 1
            && r2 == 0),
{
    lemma_digit_times(big, d1);
    lemma_digit_times(big, d2);
}

/// Distinct points of the `2^k` square have distinct distances.
proof fn lemma_hilbert_injective_at(x1: u64, y1: u64, x2: u64, y2: u64, k: nat)
    requires
        k <= 64,
        x1 < vstd::arithmetic::power2::pow2(k),
        y1 < vstd::arithmetic::power2::pow2(k),
        x2 < vstd::arithmetic::power2::pow2(k),
        y2 < vstd::arithmetic::power2::pow2(k),
        hilbert_from(x1, y1, k) == hilbert_from(x2, y2, k),
    ensures
        x1 == x2,
        y1 == y2,
    decreases k,
{
    if k == 0 {
        assert(vstd::arithmetic::power2::pow2(0) == 1) by {
            vstd::arithmetic::power2::lemma2_to64();
        }
    } else {
        lemma_hilbert_step(x1, y1, k);
        lemma_hilbert_step(x2, y2, k);
        let h = vstd::arithmetic::power2::pow2((k - 1) as nat);
        let q1 = quad(x1 as nat, y1 as nat, h);
        let q2 = quad(x2 as nat, y2 as nat, h);
        lemma_hilbert_range(q1.0 as u64, q1.1 as u64, (k - 1) as nat);
        lemma_hilbert_range(q2.0 as u64, q2.1 as u64, (k - 1) as nat);
        let big = h * h;
        assert(big > 0) by (nonlinear_arith)
            requires
                h > 0,
                big == h * h,
        ;
        lemma_digit_split(
            big,
            q1.2,
            hilbert_from(q1.0 as u64, q1.1 as u64, (k - 1) as nat),
            q2.2,
            hilbert_from(q2.0 as u64, q2.1 as u64, (k - 1) as nat),
        );
        lemma_hilbert_injective_at(q1.0 as u64, q1.1 as u64, q2.0 as u64, q2.1 as u64, (k - 1) as nat);
    }
}

/// Consecutive distances on the `2^k` square belong to neighbouring cells.
#[verifier::spinoff_prover]
proof fn lemma_hilbert_adjacent_at(x1: u64, y1: u64, x2: u64, y2: u64, k: nat)
    requires
        k <= 64,
        x1 < vstd::arithmetic::power2::pow2(k),
        y1 < vstd::arithmetic::power2::pow2(k),
        x2 < vstd::arithmetic::power2::pow2(k),
        y2 < vstd::arithmetic::power2::pow2(k),
        hilbert_from(x2, y2, k) == hilbert_from(x1, y1, k) + 1,
    ensures
        cells_adjacent(x1 as nat, y1 as nat, x2 as nat, y2 as nat),
    decreases k,
{
    if k == 0 {
        assert(vstd::arithmetic::power2::pow2(0) == 1) by {
            vstd::arithmetic::power2::lemma2_to64();
        }
    } else {
        lemma_hilbert_step(x1, y1, k);
        lemma_hilbert_step(x2, y2, k);
        let h = vstd::arithmetic::power2::pow2((k - 1) as nat);
        let q1 = quad(x1 as nat, y1 as nat, h);
        let q2 = quad(x2 as nat, y2 as nat, h);
        let r1 = hilbert_from(q1.0 as u64, q1.1 as u64, (k - 1) as nat);
        let r2 = hilbert_from(q2.0 as u64, q2.1 as u64, (k - 1) as nat);
        lemma_hilbert_range(q1.0 as u64, q1.1 as u64, (k - 1) as nat);
        lemma_hilbert_range(q2.0 as u64, q2.1 as u64, (k - 1) as nat);
        let big = h * h;
        assert(big > 0) by (nonlinear_arith)
            requires
                h > 0,
                big == h * h,
        ;
        lemma_digit_split(big, q1.2, r1, q2.2, r2);
        if q1.2 == q2.2 {
            lemma_hilbert_adjacent_at(q1.0 as u64, q1.1 as u64, q2.0 as u64, q2.1 as u64, (k - 1) as nat);
        } else {
            lemma_hilbert_origin((k - 1) as nat);
            lemma_hilbert_corner((k - 1) as nat);
            lemma_hilbert_injective_at(q2.0 as u64, q2.1 as u64, 0, 0, (k - 1) as nat);
            lemma_hilbert_injective_at(q1.0 as u64, q1.1 as u64, (h - 1) as u64, 0, (k - 1) as nat);
        }
    }
}

proof fn lemma_hilbert_lower_left(x: u64, y: u64, k: nat)
    requires
        k < 64,
        x < vstd::arithmetic::power2::pow2(k),
        y < vstd::arithmetic::power2::pow2(k),
    ensures
        hilbert_from(x, y, k + 1) == hilbert_from(y, x, k),
{
    vstd::arithmetic::power2::lemma_pow2_unfold(k + 1);
    lemma_hilbert_step(x, y, k + 1);
    let h = vstd::arithmetic::power2::pow2(k);
    assert(quad(x as nat, y as nat, h) == (y as nat, x as nat, 0nat));
    lemma_digit_times(h * h, 0);
}

/// The curve of order 64 begins with the curve of every even order `k`: the
/// cells of the `2^k` square get the distances that the order-`k` curve
/// gives them.
pub proof fn lemma_hilbert_prefix(x: u64, y: u64, k: nat)
    requires
        k <= 64,
        k % 2 == 0,
        x < vstd::arithmetic::power2::pow2(k),
        y < vstd::arithmetic::power2::pow2(k),
    ensures
        hilbert_spec(x, y) == hilbert_from(x, y, k),
    decreases 64 - k,
{
    if k < 64 {
        vstd::arithmetic::power2::lemma_pow2_strictly_increases(k, k + 1);
        vstd::arithmetic::power2::lemma_pow2_strictly_increases(k + 1, k + 2);
        lemma_hilbert_prefix(x, y, k + 2);
        lemma_hilbert_lower_left(x, y, k + 1);
        lemma_hilbert_lower_left(y, x, k);
    }
}

/// The curve never jumps: the points at two consecutive distances are
/// neighbouring cells, one step apart in exactly one coordinate.
pub proof fn lemma_hilbert_continuous(x1: u64, y1: u64, x2: u64, y2: u64)
    requires
        hilbert_spec(x2, y2) == hilbert_spec(x1, y1) + 1,
    ensures
        cells_adjacent(x1 as nat, y1 as nat, x2 as nat, y2 as nat),
{
    vstd::arithmetic::power2::lemma2_to64();
    lemma_hilbert_adjacent_at(x1, y1, x2, y2, 64);
}

/// Each cell of the grid has a distance of its own, below `2^128`; the curve
/// starts at the origin and ends in the lower right corner.
pub proof fn lemma_hilbert_injective(x1: u64, y1: u64, x2: u64, y2: u64)
    ensures
        hilbert_spec(x1, y1) < vstd::arithmetic::power2::pow2(128),
        hilbert_spec(x1, y1) == hilbert_spec(x2, y2) ==> x1 == x2 && y1 == y2,
        hilbert_spec(0, 0) == 0,
        hilbert_spec(u64::MAX, 0) == vstd::arithmetic::power2::pow2(128) - 1,
{
    vstd::arithmetic::power2::lemma2_to64();
    vstd::arithmetic::power2::lemma_pow2_adds(64, 64);
    lemma_hilbert_range(x1, y1, 64);
    if hilbert_spec(x1, y1) == hilbert_spec(x2, y2) {
        lemma_hilbert_injective_at(x1, y1, x2, y2, 64);
    }
    lemma_hilbert_origin(64);
    lemma_hilbert_corner(64);
}

} // verus!
