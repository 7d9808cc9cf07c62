//! IEEE-754 single-precision numbers as the 32 bits they are stored in.
//!
//! The volume's elements, the voxel spacings and the streamline coordinates
//! are single-precision numbers. This module reads off what such a bit
//! pattern stands for (sign, significand, exponent) and defines, in integer
//! arithmetic, the operations of the standard that the library needs, with
//! results rounded to nearest, ties to even. Every operation that would give
//! a NaN gives the one quiet NaN `NAN`.
use vstd::prelude::*;
use vstd::arithmetic::div_mod::lemma_fundamental_div_mod_converse;
use vstd::arithmetic::power2::{
    lemma2_to64, lemma_pow2_adds, lemma_pow2_pos, lemma_pow2_strictly_increases,
    lemma_pow2_unfold, pow2,
};

verus! {

/// The sign bit.
pub const SIGN: u32 = 0x8000_0000;

/// Positive infinity.
pub const INFINITY: u32 = 0x7F80_0000;

/// The quiet NaN that every invalid operation gives.
pub const NAN: u32 = 0x7FC0_0000;

/// The number one.
pub const ONE: u32 = 0x3F80_0000;

/// Whether the sign bit is set.
pub open spec fn negative(b: u32) -> bool {
    b >= 0x8000_0000
}

/// The bits without the sign bit.
pub open spec fn magnitude(b: u32) -> int {
    if b >= 0x8000_0000 {
        b - 0x8000_0000
    } else {
        b as int
    }
}

/// The 8-bit exponent field.
pub open spec fn exponent_field(b: u32) -> int {
    magnitude(b) / 0x80_0000
}

/// The 23-bit fraction field.
pub open spec fn fraction_field(b: u32) -> int {
    magnitude(b) % 0x80_0000
}

/// Whether a bit pattern is a NaN.
pub open spec fn is_nan(b: u32) -> bool {
    magnitude(b) > 0x7F80_0000
}

/// Whether a bit pattern is an infinity.
pub open spec fn is_infinite(b: u32) -> bool {
    magnitude(b) == 0x7F80_0000
}

/// Whether a bit pattern is a zero, of either sign.
pub open spec fn is_zero(b: u32) -> bool {
    magnitude(b) == 0
}

/// The significand of a number that is no NaN: with `exponent`, the
/// number's absolute value is `significand * 2^exponent`. (For an infinity
/// this is a value beyond every finite one.)
pub open spec fn significand(b: u32) -> int {
    if exponent_field(b) == 0 {
        fraction_field(b)
    } else {
        0x80_0000 + fraction_field(b)
    }
}

/// The exponent that goes with `significand`.
pub open spec fn exponent(b: u32) -> int {
    if exponent_field(b) == 0 {
        -149
    } else {
        exponent_field(b) - 150
    }
}

/// The number of binary digits of a positive integer; 0 for others.
pub open spec fn bit_length(n: int) -> int
    decreases n,
{
    if n <= 0 {
        0
    } else {
        1 + bit_length(n / 2)
    }
}

/// The integer nearest to `n / d`, the even one of two that are equally
/// near, for `n >= 0` and `d > 0`.
pub open spec fn nearest_even(n: int, d: int) -> int {
    let q = n / d;
    let r = n % d;
    if 2 * r > d || (2 * r == d && q % 2 == 1) {
        q + 1
    } else {
        q
    }
}

/// The bits, without sign, of the single-precision number nearest to
/// `n * 2^e`, for `n > 0`: infinity where that is beyond the largest finite
/// number, a subnormal number or zero where it is below the smallest normal
/// one.
pub open spec fn rounded(n: int, e: int) -> int {
    let last = if e + bit_length(n) - 24 > -149 {
        e + bit_length(n) - 24
    } else {
        -149
    };
    let m = if last <= e {
        n * pow2((e - last) as nat)
    } else {
        nearest_even(n, pow2((last - e) as nat) as int)
    };
    let bits = (last + 149) * 0x80_0000 + m;
    if bits >= 0x7F80_0000 {
        0x7F80_0000
    } else {
        bits
    }
}

/// The bits, without sign, of the single-precision number nearest to
/// `(n / d) * 2^e`, for `n` and `d` of 24 binary digits each.
pub open spec fn rounded_ratio(n: int, d: int, e: int) -> int {
    let top = if n >= d {
        e
    } else {
        e - 1
    };
    let last = if top - 23 > -149 {
        top - 23
    } else {
        -149
    };
    let m = if last <= e {
        nearest_even(n * pow2((e - last) as nat), d)
    } else {
        nearest_even(n, d * pow2((last - e) as nat))
    };
    let bits = (last + 149) * 0x80_0000 + m;
    if bits >= 0x7F80_0000 {
        0x7F80_0000
    } else {
        bits
    }
}

/// A positive integer lies between the two powers of two that its number
/// of digits gives.
pub proof fn lemma_bit_length_bounds(n: int)
    requires
        n > 0,
    ensures
        bit_length(n) >= 1,
        pow2((bit_length(n) - 1) as nat) <= n < pow2(bit_length(n) as nat),
    decreases n,
{
    if n == 1 {
        assert(bit_length(1) == 1 + bit_length(0));
        lemma2_to64();
    } else {
        lemma_bit_length_bounds(n / 2);
        let l = bit_length(n / 2);
        assert(bit_length(n) == 1 + l);
        lemma_pow2_unfold(l as nat);
        lemma_pow2_unfold((l + 1) as nat);
    }
}

/// An integer between two consecutive powers of two has the number of
/// digits that they give.
pub proof fn lemma_bit_length_unique(n: int, l: int)
    requires
        l >= 1,
        pow2((l - 1) as nat) <= n < pow2(l as nat),
    ensures
        bit_length(n) == l,
{
    lemma_pow2_pos((l - 1) as nat);
    lemma_bit_length_bounds(n);
    let k = bit_length(n);
    if k < l {
        if k < l - 1 {
            lemma_pow2_strictly_increases(k as nat, (l - 1) as nat);
        }
    } else if k > l {
        if k - 1 > l {
            lemma_pow2_strictly_increases(l as nat, (k - 1) as nat);
        }
    }
}

/// Powers of two up to the 64th, as numbers.
proof fn lemma_pow2_64_bound(k: nat)
    requires
        k <= 64,
    ensures
        0 < pow2(k) <= 0x1_0000_0000_0000_0000,
{
    lemma2_to64();
    lemma_pow2_pos(k);
    if k < 64 {
        lemma_pow2_strictly_increases(k, 64);
    }
}

fn two_to(k: u32) -> (r: u128)
    requires
        k <= 64,
    ensures
        r == pow2(k as nat),
        0 < r <= 0x1_0000_0000_0000_0000,
{
    let mut r: u128 = 1;
    let mut i: u32 = 0;
    proof {
        lemma2_to64();
    }
    while i < k
        invariant
            i <= k <= 64,
            r == pow2(i as nat),
        decreases k - i,
    {
        proof {
            lemma_pow2_64_bound(i as nat);
            lemma_pow2_unfold((i + 1) as nat);
        }
        r = r * 2;
        i += 1;
    }
    proof {
        lemma_pow2_64_bound(k as nat);
    }
    r
}

fn length_of(n: u64) -> (l: u32)
    ensures
        l == bit_length(n as int),
        l <= 64,
        n > 0 ==> l >= 1,
{
    let mut l: u32 = 0;
    let mut rest: u64 = n;
    proof {
        lemma2_to64();
    }
    while rest > 0
        invariant
            l <= 64,
            bit_length(n as int) == l + bit_length(rest as int),
            rest as int * pow2(l as nat) <= n,
        decreases rest,
    {
        proof {
            lemma_pow2_pos(l as nat);
            assert(bit_length(rest as int) == 1 + bit_length(rest as int / 2));
            if l == 64 {
                lemma2_to64();
                assert(rest as int * pow2(64) >= pow2(64)) by (nonlinear_arith)
                    requires
                        rest >= 1,
                        pow2(64) > 0,
                ;
            }
            lemma_pow2_unfold((l + 1) as nat);
            assert((rest as int / 2) * (2 * pow2(l as nat)) <= rest as int * pow2(l as nat))
                by (nonlinear_arith)
                requires
                    rest >= 0,
                    pow2(l as nat) > 0,
            ;
        }
        rest = rest / 2;
        l += 1;
    }
    proof {
        lemma2_to64();
        assert(bit_length(0) == 0);
        if n > 0 {
            lemma_bit_length_bounds(n as int);
        }
    }
    l
}

fn nearest(n: u64, d: u128) -> (m: u64)
    requires
        0 < d <= 0x1_0000_0000_0000_0000,
    ensures
        m == nearest_even(n as int, d as int),
{
    let q: u128 = (n as u128) / d;
    let r: u128 = (n as u128) % d;
    assert(q <= n) by (nonlinear_arith)
        requires
            q == (n as int) / (d as int),
            d >= 1,
            n >= 0,
    ;
    if 2 * r > d || (2 * r == d && q % 2 == 1) {
        assert(q < n || n == 0 || d == 1) by (nonlinear_arith)
            requires
                q == (n as int) / (d as int),
                d >= 1,
                n >= 0,
        ;
        assert(q + 1 <= 0xFFFF_FFFF_FFFF_FFFF);
        (q + 1) as u64
    } else {
        q as u64
    }
}

fn pack(n: u64, e: i32) -> (r: u32)
    requires
        n > 0,
        -1000 <= e <= 1000,
    ensures
        r == rounded(n as int, e as int),
        r <= 0x7F80_0000,
{
    let l: i32 = length_of(n) as i32;
    let natural: i32 = e + l - 24;
    let last: i32 = if natural > -149 {
        natural
    } else {
        -149
    };
    proof {
        lemma_bit_length_bounds(n as int);
        lemma2_to64();
    }
    if last + 149 >= 255 {
        proof {
            let m = if last <= e {
                n as int * pow2((e - last) as nat)
            } else {
                nearest_even(n as int, pow2((last - e) as nat) as int)
            };
            if last > e {
                lemma_pow2_pos((last - e) as nat);
                lemma_nearest_bounds(n as int, pow2((last - e) as nat) as int);
            }
            assert(m >= 0);
            assert((last + 149) * 0x80_0000 + m >= 0x7F80_0000);
        }
        return INFINITY;
    }
    let m: u64 = if last <= e {
        let up: u32 = (e - last) as u32;
        let f: u128 = two_to(up);
        proof {
            lemma_pow2_adds(l as nat, (24 - l) as nat);
            if up < 24 - l {
                lemma_pow2_strictly_increases(up as nat, (24 - l) as nat);
            }
            assert(n * f < pow2(l as nat) * pow2((24 - l) as nat)) by (nonlinear_arith)
                requires
                    0 < n < pow2(l as nat),
                    0 < f <= pow2((24 - l) as nat),
            ;
        }
        ((n as u128) * f) as u64
    } else {
        let shift: i32 = last - e;
        if shift > 64 {
            proof {
                lemma_pow2_unfold(65);
                if shift > 65 {
                    lemma_pow2_strictly_increases(65, shift as nat);
                }
                assert(2 * n < pow2(shift as nat));
                lemma_nearest_small(n as int, pow2(shift as nat) as int);
            }
            0
        } else {
            let d: u128 = two_to(shift as u32);
            proof {
                lemma_nearest_bounds(n as int, d as int);
                if shift + 24 > l {
                    lemma_pow2_strictly_increases(l as nat, (shift + 24) as nat);
                }
                lemma_pow2_adds(shift as nat, 24);
                assert((n as int) / (d as int) < 0x100_0000) by (nonlinear_arith)
                    requires
                        0 <= n < d * 0x100_0000,
                        d > 0,
                ;
            }
            nearest(n, d)
        }
    };
    assert(m <= 0x100_0000);
    let bits: u64 = ((last + 149) as u64) * 0x80_0000 + m;
    if bits >= 0x7F80_0000 {
        INFINITY
    } else {
        bits as u32
    }
}

/// Rounding to nearest moves to one of the two integers on either side.
pub proof fn lemma_nearest_bounds(n: int, d: int)
    requires
        n >= 0,
        d > 0,
    ensures
        n / d <= nearest_even(n, d) <= n / d + 1,
        0 <= n / d,
{
    assert(0 <= n / d) by (nonlinear_arith)
        requires
            n >= 0,
            d > 0,
    ;
}

/// Rounding to nearest gives a nearest integer: it is off by half at most,
/// and where it is off by exactly half it gives the even neighbour.
pub proof fn lemma_nearest_is_nearest(n: int, d: int)
    requires
        n >= 0,
        d > 0,
    ensures
        -d <= 2 * (nearest_even(n, d) * d - n) <= d,
        2 * (nearest_even(n, d) * d - n) == d || 2 * (nearest_even(n, d) * d - n) == -d
            ==> nearest_even(n, d) % 2 == 0,
{
    let q = n / d;
    let r = n % d;
    assert(n == q * d + r && 0 <= r < d) by (nonlinear_arith)
        requires
            q == n / d,
            r == n % d,
            d > 0,
    ;
    assert((q + 1) * d == q * d + d) by (nonlinear_arith);
}

/// Less than half rounds to zero.
pub proof fn lemma_nearest_small(n: int, d: int)
    requires
        0 <= n,
        2 * n < d,
    ensures
        nearest_even(n, d) == 0,
{
    assert(n / d == 0 && n % d == n) by (nonlinear_arith)
        requires
            0 <= n < d,
    ;
}

/// The single-precision number nearest to an integer, as bits.
pub open spec fn from_int(p: int) -> u32 {
    if p == 0 {
        0
    } else if p < 0 {
        (0x8000_0000 + rounded(-p, 0)) as u32
    } else {
        rounded(p, 0) as u32
    }
}

/// The integer that a number becomes when its fraction is dropped and the
/// result is held to the range of a signed 32-bit integer; 0 for a NaN.
pub open spec fn truncated(b: u32) -> int {
    if is_nan(b) {
        0
    } else {
        let whole = if exponent(b) >= 0 {
            significand(b) * pow2(exponent(b) as nat)
        } else {
            significand(b) / (pow2((-exponent(b)) as nat) as int)
        };
        if negative(b) {
            if whole >= 0x8000_0000 {
                -0x8000_0000
            } else {
                -whole
            }
        } else {
            if whole >= 0x7FFF_FFFF {
                0x7FFF_FFFF
            } else {
                whole
            }
        }
    }
}

/// Converts a signed integer to the nearest single-precision number.
pub fn from_i32(p: i32) -> (r: u32)
    ensures
        r == from_int(p as int),
        p >= 0 ==> r < 0x8000_0000,
{
    if p == 0 {
        0
    } else if p < 0 {
        let n: u64 = (-(p as i64)) as u64;
        SIGN + pack(n, 0)
    } else {
        pack(p as u64, 0)
    }
}

/// Converts a count to the nearest single-precision number.
pub fn from_u64(c: u64) -> (r: u32)
    ensures
        r == from_int(c as int),
        r < 0x8000_0000,
{
    if c == 0 {
        0
    } else {
        pack(c, 0)
    }
}

/// Converts a single-precision number to a signed integer: the fraction is
/// dropped, a value out of range becomes the nearest bound, a NaN becomes 0.
pub fn to_i32(b: u32) -> (r: i32)
    ensures
        r == truncated(b),
{
    let mag: u32 = if b >= SIGN {
        b - SIGN
    } else {
        b
    };
    if mag > INFINITY {
        return 0;
    }
    let field: u32 = mag / 0x80_0000;
    let fraction: u32 = mag % 0x80_0000;
    let sig: u64 = if field == 0 {
        fraction as u64
    } else {
        0x80_0000 + fraction as u64
    };
    let exp: i32 = if field == 0 {
        -149
    } else {
        field as i32 - 150
    };
    proof {
        lemma2_to64();
    }
    if exp >= 8 {
        proof {
            if exp > 8 {
                lemma_pow2_strictly_increases(8, exp as nat);
            }
            assert(sig * pow2(exp as nat) >= 0x8000_0000) by (nonlinear_arith)
                requires
                    sig >= 0x80_0000,
                    pow2(exp as nat) >= 0x100,
            ;
        }
        return if b >= SIGN {
            -0x8000_0000
        } else {
            0x7FFF_FFFF
        };
    }
    let whole: u64 = if exp >= 0 {
        let f: u128 = two_to(exp as u32);
        proof {
            if exp < 7 {
                lemma_pow2_strictly_increases(exp as nat, 7);
            }
            assert(sig * f < 0x8000_0000) by (nonlinear_arith)
                requires
                    0 <= sig < 0x100_0000,
                    0 < f <= 0x80,
            ;
        }
        ((sig as u128) * f) as u64
    } else if exp < -24 {
        proof {
            lemma_pow2_strictly_increases(24, (-exp) as nat);
            assert((sig as int) / (pow2((-exp) as nat) as int) == 0) by (nonlinear_arith)
                requires
                    0 <= sig < 0x100_0000,
                    pow2((-exp) as nat) > 0x100_0000,
            ;
        }
        0
    } else {
        let d: u128 = two_to((-exp) as u32);
        ((sig as u128) / d) as u64
    };
    if b >= SIGN {
        -(whole as i64) as i32
    } else {
        whole as i32
    }
}

/// The sign bit of a product or a quotient: set where the signs differ.
pub open spec fn sign_of(a: u32, b: u32) -> int {
    if negative(a) != negative(b) {
        0x8000_0000
    } else {
        0
    }
}

/// The product of two numbers, rounded to nearest.
pub open spec fn product(a: u32, b: u32) -> u32 {
    if is_nan(a) || is_nan(b) {
        0x7FC0_0000
    } else if is_infinite(a) || is_infinite(b) {
        if is_zero(a) || is_zero(b) {
            0x7FC0_0000
        } else {
            (sign_of(a, b) + 0x7F80_0000) as u32
        }
    } else if is_zero(a) || is_zero(b) {
        sign_of(a, b) as u32
    } else {
        (sign_of(a, b) + rounded(significand(a) * significand(b), exponent(a) + exponent(b))) as u32
    }
}

/// The quotient of two numbers, rounded to nearest. Both significands are
/// first brought to 24 binary digits.
pub open spec fn quotient(a: u32, b: u32) -> u32 {
    if is_nan(a) || is_nan(b) {
        0x7FC0_0000
    } else if is_infinite(a) {
        if is_infinite(b) {
            0x7FC0_0000
        } else {
            (sign_of(a, b) + 0x7F80_0000) as u32
        }
    } else if is_infinite(b) {
        sign_of(a, b) as u32
    } else if is_zero(b) {
        if is_zero(a) {
            0x7FC0_0000
        } else {
            (sign_of(a, b) + 0x7F80_0000) as u32
        }
    } else if is_zero(a) {
        sign_of(a, b) as u32
    } else {
        let ka = 24 - bit_length(significand(a));
        let kb = 24 - bit_length(significand(b));
        (sign_of(a, b) + rounded_ratio(
            significand(a) * pow2(ka as nat),
            significand(b) * pow2(kb as nat),
            (exponent(a) - ka) - (exponent(b) - kb),
        )) as u32
    }
}

/// The sum of two numbers whose sign bits are clear, rounded to nearest.
pub open spec fn sum(a: u32, b: u32) -> u32 {
    if is_nan(a) || is_nan(b) {
        0x7FC0_0000
    } else if is_infinite(a) || is_infinite(b) {
        0x7F80_0000
    } else if is_zero(a) {
        b
    } else if is_zero(b) {
        a
    } else {
        let lo = if exponent(a) <= exponent(b) {
            exponent(a)
        } else {
            exponent(b)
        };
        rounded(
            significand(a) * pow2((exponent(a) - lo) as nat) + significand(b) * pow2(
                (exponent(b) - lo) as nat,
            ),
            lo,
        ) as u32
    }
}

/// The place of a number that is no NaN on the number line of bit
/// patterns: both zeros at 0, larger numbers further right.
pub open spec fn key(b: u32) -> int {
    if negative(b) {
        -magnitude(b)
    } else {
        magnitude(b)
    }
}

/// `a < b` as numbers; false where either is a NaN.
pub open spec fn less(a: u32, b: u32) -> bool {
    !is_nan(a) && !is_nan(b) && key(a) < key(b)
}

/// `a == b` as numbers; false where either is a NaN.
pub open spec fn same(a: u32, b: u32) -> bool {
    !is_nan(a) && !is_nan(b) && key(a) == key(b)
}

fn parts(b: u32) -> (r: (u32, u64, i32))
    ensures
        r.0 == magnitude(b),
        r.1 == significand(b),
        r.2 == exponent(b),
        r.0 < 0x7F80_0000 ==> r.1 < 0x100_0000 && -149 <= r.2 <= 104,
        0 < r.0 < 0x7F80_0000 ==> r.1 > 0,
        r.2 > -149 ==> r.1 >= 0x80_0000,
        r.0 == (r.2 + 149) * 0x80_0000 + r.1,
{
    let mag: u32 = if b >= SIGN {
        b - SIGN
    } else {
        b
    };
    let field: u32 = mag / 0x80_0000;
    let fraction: u32 = mag % 0x80_0000;
    if field == 0 {
        (mag, fraction as u64, -149)
    } else {
        (mag, 0x80_0000 + fraction as u64, field as i32 - 150)
    }
}

fn sign_bit(a: u32, b: u32) -> (r: u32)
    ensures
        r == sign_of(a, b),
{
    if (a >= SIGN) != (b >= SIGN) {
        SIGN
    } else {
        0
    }
}

/// Multiplies two numbers.
pub fn multiply(a: u32, b: u32) -> (r: u32)
    ensures
        r == product(a, b),
        a < 0x8000_0000 && b < 0x8000_0000 ==> r < 0x8000_0000,
{
    let (ma, sa, ea) = parts(a);
    let (mb, sb, eb) = parts(b);
    let sign: u32 = sign_bit(a, b);
    if ma > INFINITY || mb > INFINITY {
        NAN
    } else if ma == INFINITY || mb == INFINITY {
        if ma == 0 || mb == 0 {
            NAN
        } else {
            sign + INFINITY
        }
    } else if ma == 0 || mb == 0 {
        sign
    } else {
        assert(0 < sa * sb < 0x100_0000 * 0x100_0000) by (nonlinear_arith)
            requires
                0 < sa < 0x100_0000,
                0 < sb < 0x100_0000,
        ;
        sign + pack(sa * sb, ea + eb)
    }
}

fn normalize(s: u64) -> (r: (u64, i32))
    requires
        0 < s < 0x100_0000,
    ensures
        r.1 == 24 - bit_length(s as int),
        0 <= r.1 <= 23,
        r.0 == s * pow2(r.1 as nat),
        0x80_0000 <= r.0 < 0x100_0000,
{
    let l: u32 = length_of(s);
    proof {
        lemma_bit_length_bounds(s as int);
        lemma2_to64();
        if l > 24 {
            lemma_pow2_strictly_increases(24, (l - 1) as nat);
        }
    }
    let k: u32 = 24 - l;
    let f: u128 = two_to(k);
    proof {
        lemma_pow2_adds(l as nat, k as nat);
        lemma_pow2_adds((l - 1) as nat, k as nat);
        assert(pow2((l - 1) as nat) * f <= s * f < pow2(l as nat) * f) by (nonlinear_arith)
            requires
                pow2((l - 1) as nat) <= s < pow2(l as nat),
                f > 0,
        ;
    }
    (((s as u128) * f) as u64, k as i32)
}

/// Divides one number by another.
pub fn divide(a: u32, b: u32) -> (r: u32)
    ensures
        r == quotient(a, b),
        a < 0x8000_0000 && b < 0x8000_0000 ==> r < 0x8000_0000,
{
    let (ma, sa, ea) = parts(a);
    let (mb, sb, eb) = parts(b);
    let sign: u32 = sign_bit(a, b);
    if ma > INFINITY || mb > INFINITY {
        return NAN;
    }
    if ma == INFINITY {
        return if mb == INFINITY {
            NAN
        } else {
            sign + INFINITY
        };
    }
    if mb == INFINITY {
        return sign;
    }
    if mb == 0 {
        return if ma == 0 {
            NAN
        } else {
            sign + INFINITY
        };
    }
    if ma == 0 {
        return sign;
    }
    let (na, ka) = normalize(sa);
    let (nb, kb) = normalize(sb);
    let e: i32 = (ea - ka) - (eb - kb);
    let top: i32 = if na >= nb {
        e
    } else {
        e - 1
    };
    let last: i32 = if top - 23 > -149 {
        top - 23
    } else {
        -149
    };
    if last + 149 >= 255 {
        proof {
            let m = if last <= e {
                nearest_even(na * pow2((e - last) as nat), nb as int)
            } else {
                nearest_even(na as int, nb * pow2((last - e) as nat))
            };
            if last <= e {
                lemma_pow2_pos((e - last) as nat);
                assert(na * pow2((e - last) as nat) >= 0) by (nonlinear_arith)
                    requires
                        na >= 0,
                        pow2((e - last) as nat) > 0,
                ;
                lemma_nearest_bounds(na * pow2((e - last) as nat), nb as int);
            } else {
                lemma_pow2_pos((last - e) as nat);
                assert(nb * pow2((last - e) as nat) > 0) by (nonlinear_arith)
                    requires
                        nb > 0,
                        pow2((last - e) as nat) > 0,
                ;
                lemma_nearest_bounds(na as int, nb * pow2((last - e) as nat));
            }
            assert((last + 149) * 0x80_0000 + m >= 0x7F80_0000);
        }
        return sign + INFINITY;
    }
    let m: u64 = if last <= e {
        let up: u32 = (e - last) as u32;
        let f: u128 = two_to(up);
        proof {
            lemma2_to64();
            if up < 24 {
                lemma_pow2_strictly_increases(up as nat, 24);
            }
            assert(na * f < 0x100_0000 * 0x100_0000) by (nonlinear_arith)
                requires
                    0 <= na < 0x100_0000,
                    0 < f <= 0x100_0000,
            ;
        }
        nearest(((na as u128) * f) as u64, nb as u128)
    } else {
        let down: i32 = last - e;
        if down >= 2 {
            proof {
                lemma2_to64();
                if down > 2 {
                    lemma_pow2_strictly_increases(2, down as nat);
                }
                assert(nb * pow2(down as nat) >= 4 * nb) by (nonlinear_arith)
                    requires
                        nb > 0,
                        pow2(down as nat) >= 4,
                ;
                lemma_nearest_small(na as int, nb * pow2(down as nat));
            }
            0
        } else {
            proof {
                lemma2_to64();
                assert(nb * pow2(1) == 2 * nb);
            }
            nearest(na, 2 * (nb as u128))
        }
    };
    assert(m == if last <= e {
        nearest_even(na * pow2((e - last) as nat), nb as int)
    } else {
        nearest_even(na as int, nb * pow2((last - e) as nat))
    });
    let bits: u64 = ((last + 149) as u64) * 0x80_0000 + m;
    assert(if bits >= 0x7F80_0000 {
        0x7F80_0000
    } else {
        bits as int
    } == rounded_ratio(na as int, nb as int, e as int));
    if bits >= 0x7F80_0000 {
        sign + INFINITY
    } else {
        sign + bits as u32
    }
}

/// A sum whose smaller term is too small to matter is the larger term.
proof fn lemma_sum_absorbs(sa: int, ea: int, sb: int, eb: int)
    requires
        0x80_0000 <= sa < 0x100_0000,
        0 < sb < 0x100_0000,
        -149 <= eb,
        eb + 26 <= ea <= 104,
    ensures
        rounded(sa * pow2((ea - eb) as nat) + sb, eb) == (ea + 149) * 0x80_0000 + sa,
{
    let g = (ea - eb) as nat;
    let d = pow2(g) as int;
    let n = sa * d + sb;
    lemma2_to64();
    lemma_pow2_strictly_increases(25, g);
    lemma_pow2_adds(23, g);
    lemma_pow2_adds(24, g);
    assert(pow2(23) * d <= sa * d && (sa + 1) * d <= pow2(24) * d) by (nonlinear_arith)
        requires
            pow2(23) <= sa,
            sa + 1 <= pow2(24),
            d > 0,
    ;
    assert((sa + 1) * d == sa * d + d) by (nonlinear_arith);
    lemma_bit_length_unique(n, 24 + g as int);
    lemma_fundamental_div_mod_converse(n, d, sa, sb);
    assert(nearest_even(n, d) == sa);
}

/// Adds two numbers whose sign bits are clear.
pub fn plus(a: u32, b: u32) -> (r: u32)
    requires
        a < 0x8000_0000,
        b < 0x8000_0000,
    ensures
        r == sum(a, b),
        r < 0x8000_0000,
{
    let (ma, sa, ea) = parts(a);
    let (mb, sb, eb) = parts(b);
    proof {
        lemma2_to64();
    }
    if ma > INFINITY || mb > INFINITY {
        assert(sum(a, b) == NAN);
        NAN
    } else if ma == INFINITY || mb == INFINITY {
        assert(sum(a, b) == INFINITY);
        INFINITY
    } else if ma == 0 {
        assert(sum(a, b) == b);
        b
    } else if mb == 0 {
        assert(sum(a, b) == a);
        a
    } else if ea >= eb + 26 {
        proof {
            lemma_sum_absorbs(sa as int, ea as int, sb as int, eb as int);
            assert(sb * pow2(0) == sb);
            assert(sum(a, b) == a);
        }
        a
    } else if eb >= ea + 26 {
        proof {
            lemma_sum_absorbs(sb as int, eb as int, sa as int, ea as int);
            assert(sa * pow2(0) == sa);
            assert(sum(a, b) == b);
        }
        b
    } else if ea >= eb {
        let f: u128 = two_to((ea - eb) as u32);
        proof {
            lemma_pow2_strictly_increases((ea - eb) as nat, 26);
            assert(sa * f < 0x100_0000 * 0x400_0000) by (nonlinear_arith)
                requires
                    0 <= sa < 0x100_0000,
                    0 < f < 0x400_0000,
            ;
            assert(sb * pow2(0) == sb);
        }
        let r = pack(((sa as u128) * f) as u64 + sb, eb);
        assert(r == sum(a, b));
        r
    } else {
        let f: u128 = two_to((eb - ea) as u32);
        proof {
            lemma_pow2_strictly_increases((eb - ea) as nat, 26);
            assert(sb * f < 0x100_0000 * 0x400_0000) by (nonlinear_arith)
                requires
                    0 <= sb < 0x100_0000,
                    0 < f < 0x400_0000,
            ;
            assert(sa * pow2(0) == sa);
        }
        let r = pack(sa + ((sb as u128) * f) as u64, ea);
        assert(r == sum(a, b));
        r
    }
}

fn key_of(b: u32) -> (r: i64)
    ensures
        r == key(b),
{
    if b >= SIGN {
        -((b - SIGN) as i64)
    } else {
        b as i64
    }
}

/// Whether a bit pattern is a NaN.
pub fn nan(b: u32) -> (r: bool)
    ensures
        r == is_nan(b),
{
    let mag: u32 = if b >= SIGN {
        b - SIGN
    } else {
        b
    };
    mag > INFINITY
}

/// `a < b` as numbers.
pub fn lt(a: u32, b: u32) -> (r: bool)
    ensures
        r == less(a, b),
{
    !nan(a) && !nan(b) && key_of(a) < key_of(b)
}

/// `a <= b` as numbers.
pub fn le(a: u32, b: u32) -> (r: bool)
    ensures
        r == (less(a, b) || same(a, b)),
{
    !nan(a) && !nan(b) && key_of(a) <= key_of(b)
}

/// `a == b` as numbers.
pub fn eq(a: u32, b: u32) -> (r: bool)
    ensures
        r == same(a, b),
{
    !nan(a) && !nan(b) && key_of(a) == key_of(b)
}

/// A number that is zero, positive or positive infinity: no NaN, and the
/// sign bit clear.
pub open spec fn non_negative(b: u32) -> bool {
    b <= 0x7F80_0000
}

/// A positive finite number.
pub open spec fn positive_finite(b: u32) -> bool {
    0 < b < 0x7F80_0000
}

/// Rounding gives the bits of a number that is no NaN.
pub proof fn lemma_rounded_range(n: int, e: int)
    requires
        n > 0,
    ensures
        0 <= rounded(n, e) <= 0x7F80_0000,
{
    let last = if e + bit_length(n) - 24 > -149 {
        e + bit_length(n) - 24
    } else {
        -149
    };
    if last <= e {
        lemma_pow2_pos((e - last) as nat);
        assert(n * pow2((e - last) as nat) >= 0) by (nonlinear_arith)
            requires
                n > 0,
                pow2((e - last) as nat) > 0,
        ;
    } else {
        lemma_pow2_pos((last - e) as nat);
        lemma_nearest_bounds(n, pow2((last - e) as nat) as int);
    }
}

/// Rounding a ratio gives the bits of a number that is no NaN.
pub proof fn lemma_rounded_ratio_range(n: int, d: int, e: int)
    requires
        n > 0,
        d > 0,
    ensures
        0 <= rounded_ratio(n, d, e) <= 0x7F80_0000,
{
    let top = if n >= d {
        e
    } else {
        e - 1
    };
    let last = if top - 23 > -149 {
        top - 23
    } else {
        -149
    };
    if last <= e {
        lemma_pow2_pos((e - last) as nat);
        assert(n * pow2((e - last) as nat) >= 0) by (nonlinear_arith)
            requires
                n > 0,
                pow2((e - last) as nat) > 0,
        ;
        lemma_nearest_bounds(n * pow2((e - last) as nat), d);
    } else {
        lemma_pow2_pos((last - e) as nat);
        assert(d * pow2((last - e) as nat) > 0) by (nonlinear_arith)
            requires
                d > 0,
                pow2((last - e) as nat) > 0,
        ;
        lemma_nearest_bounds(n, d * pow2((last - e) as nat));
    }
}

/// A count that fits in 64 bits converts to a positive finite number.
pub proof fn lemma_count_is_finite(n: int)
    requires
        0 < n < 0x1_0000_0000_0000_0000,
    ensures
        positive_finite(from_int(n)),
        from_int(n) == rounded(n, 0),
{
    let l = bit_length(n);
    lemma_bit_length_bounds(n);
    lemma2_to64();
    if l > 64 {
        if l > 65 {
            lemma_pow2_strictly_increases(64, (l - 1) as nat);
        }
    }
    assert(1 <= l <= 64);
    let last = l - 24;
    if last <= 0 {
        let up = (24 - l) as nat;
        lemma_pow2_adds(l as nat, up);
        lemma_pow2_adds((l - 1) as nat, up);
        lemma_pow2_pos(up);
        assert(pow2((l - 1) as nat) * pow2(up) <= n * pow2(up) < pow2(l as nat) * pow2(up))
            by (nonlinear_arith)
            requires
                pow2((l - 1) as nat) <= n < pow2(l as nat),
                pow2(up) > 0,
        ;
    } else {
        let d = pow2(last as nat) as int;
        lemma_pow2_pos(last as nat);
        lemma_nearest_bounds(n, d);
        lemma_pow2_adds(last as nat, 24);
        lemma_pow2_adds(last as nat, 23);
        assert(n / d < 0x100_0000) by (nonlinear_arith)
            requires
                0 <= n < d * 0x100_0000,
                d > 0,
        ;
        assert(n / d >= 0x80_0000) by (nonlinear_arith)
            requires
                n >= d * 0x80_0000,
                d > 0,
        ;
    }
}

/// A positive finite number divided by itself is one.
pub proof fn lemma_quotient_self(a: u32)
    requires
        positive_finite(a),
    ensures
        quotient(a, a) == 0x3F80_0000,
{
    let s = significand(a);
    let k = 24 - bit_length(s);
    assert(s > 0);
    lemma_bit_length_bounds(s);
    lemma2_to64();
    if bit_length(s) > 24 {
        if bit_length(s) > 25 {
            lemma_pow2_strictly_increases(24, (bit_length(s) - 1) as nat);
        }
    }
    lemma_pow2_pos(k as nat);
    let n = s * pow2(k as nat);
    assert(n > 0) by (nonlinear_arith)
        requires
            n == s * pow2(k as nat),
            s > 0,
            pow2(k as nat) > 0,
    ;
    assert((n * 0x80_0000) / n == 0x80_0000 && (n * 0x80_0000) % n == 0) by {
        lemma_fundamental_div_mod_converse(n * 0x80_0000, n, 0x80_0000, 0);
    }
    assert(nearest_even(n * pow2(23), n) == 0x80_0000);
}

/// Sums, products and quotients of numbers that are no NaN and not
/// negative are no NaN and not negative, as long as no infinity meets a
/// zero and nothing is divided by zero or by an infinity.
pub proof fn lemma_results_non_negative(a: u32, b: u32)
    requires
        non_negative(a),
        non_negative(b),
    ensures
        non_negative(sum(a, b)),
        positive_finite(a) ==> non_negative(product(a, b)),
        positive_finite(b) ==> non_negative(quotient(a, b)),
{
    lemma2_to64();
    if !is_infinite(a) && !is_infinite(b) && !is_zero(a) && !is_zero(b) {
        let lo = if exponent(a) <= exponent(b) {
            exponent(a)
        } else {
            exponent(b)
        };
        let fa = pow2((exponent(a) - lo) as nat);
        let fb = pow2((exponent(b) - lo) as nat);
        lemma_pow2_pos((exponent(a) - lo) as nat);
        lemma_pow2_pos((exponent(b) - lo) as nat);
        assert(significand(a) * fa + significand(b) * fb > 0) by (nonlinear_arith)
            requires
                significand(a) > 0,
                significand(b) > 0,
                fa > 0,
                fb > 0,
        ;
        lemma_rounded_range(significand(a) * fa + significand(b) * fb, lo);
        assert(significand(a) * significand(b) > 0) by (nonlinear_arith)
            requires
                significand(a) > 0,
                significand(b) > 0,
        ;
        lemma_rounded_range(significand(a) * significand(b), exponent(a) + exponent(b));
        let ka = 24 - bit_length(significand(a));
        let kb = 24 - bit_length(significand(b));
        lemma_bit_length_bounds(significand(a));
        lemma_bit_length_bounds(significand(b));
        if bit_length(significand(a)) > 24 {
            if bit_length(significand(a)) > 25 {
                lemma_pow2_strictly_increases(24, (bit_length(significand(a)) - 1) as nat);
            }
        }
        if bit_length(significand(b)) > 24 {
            if bit_length(significand(b)) > 25 {
                lemma_pow2_strictly_increases(24, (bit_length(significand(b)) - 1) as nat);
            }
        }
        lemma_pow2_pos(ka as nat);
        lemma_pow2_pos(kb as nat);
        assert(significand(a) * pow2(ka as nat) > 0 && significand(b) * pow2(kb as nat) > 0)
            by (nonlinear_arith)
            requires
                significand(a) > 0,
                significand(b) > 0,
                pow2(ka as nat) > 0,
                pow2(kb as nat) > 0,
        ;
        lemma_rounded_ratio_range(
            significand(a) * pow2(ka as nat),
            significand(b) * pow2(kb as nat),
            (exponent(a) - ka) - (exponent(b) - kb),
        );
    }
}

/// One plus a number that is no NaN and not negative is positive.
pub proof fn lemma_sum_with_one_positive(x: u32)
    requires
        non_negative(x),
    ensures
        less(0, sum(0x3F80_0000, x)),
        non_negative(sum(0x3F80_0000, x)),
{
    let one: u32 = 0x3F80_0000;
    lemma_results_non_negative(one, x);
    lemma2_to64();
    assert(exponent_field(one) == 127 && fraction_field(one) == 0);
    if !is_infinite(x) && !is_zero(x) {
        let lo = if -23 <= exponent(x) {
            -23
        } else {
            exponent(x)
        };
        let fa = pow2((-23 - lo) as nat);
        let fb = pow2((exponent(x) - lo) as nat);
        let n = 0x80_0000 * fa + significand(x) * fb;
        lemma_pow2_pos((-23 - lo) as nat);
        lemma_pow2_pos((exponent(x) - lo) as nat);
        lemma_pow2_adds(23, (-23 - lo) as nat);
        assert(significand(x) * fb > 0) by (nonlinear_arith)
            requires
                significand(x) > 0,
                fb > 0,
        ;
        assert(n >= pow2((-lo) as nat));
        lemma_bit_length_bounds(n);
        let l = bit_length(n);
        if l <= -lo {
            if l < -lo {
                lemma_pow2_strictly_increases(l as nat, (-lo) as nat);
            }
        }
        assert(l >= 1 - lo);
        let last = lo + l - 24;
        assert(last >= -23);
        if last <= lo {
            lemma_pow2_pos((lo - last) as nat);
            assert(n * pow2((lo - last) as nat) >= 0) by (nonlinear_arith)
                requires
                    n > 0,
                    pow2((lo - last) as nat) > 0,
            ;
        } else {
            lemma_pow2_pos((last - lo) as nat);
            lemma_nearest_bounds(n, pow2((last - lo) as nat) as int);
        }
        assert(rounded(n, lo) >= 126 * 0x80_0000);
    }
}

/// Rounding to nearest keeps the order of what it rounds.
pub proof fn lemma_nearest_monotone(a: int, b: int, d: int)
    requires
        0 <= a <= b,
        d > 0,
    ensures
        nearest_even(a, d) <= nearest_even(b, d),
{
    lemma_nearest_bounds(a, d);
    lemma_nearest_bounds(b, d);
    assert(a / d <= b / d) by (nonlinear_arith)
        requires
            0 <= a <= b,
            d > 0,
    ;
    if a / d == b / d {
        assert(a % d <= b % d) by (nonlinear_arith)
            requires
                0 <= a <= b,
                d > 0,
                a / d == b / d,
        ;
    }
}

/// A larger integer has at least as many digits.
pub proof fn lemma_bit_length_monotone(a: int, b: int)
    requires
        0 < a <= b,
    ensures
        bit_length(a) <= bit_length(b),
{
    lemma_bit_length_bounds(a);
    lemma_bit_length_bounds(b);
    if bit_length(a) > bit_length(b) {
        if bit_length(a) - 1 > bit_length(b) {
            lemma_pow2_strictly_increases(bit_length(b) as nat, (bit_length(a) - 1) as nat);
        }
    }
}

/// The bits of a converted count: an exponent field that its number of
/// digits gives, and a significand of 24 digits, or the next power of two.
pub proof fn lemma_count_bits(n: int) -> (m: int)
    requires
        0 < n < 0x1_0000_0000_0000_0000,
    ensures
        1 <= bit_length(n) <= 64,
        0x80_0000 <= m <= 0x100_0000,
        from_int(n) == (bit_length(n) + 125) * 0x80_0000 + m,
        m == if bit_length(n) <= 24 {
            n * pow2((24 - bit_length(n)) as nat)
        } else {
            nearest_even(n, pow2((bit_length(n) - 24) as nat) as int)
        },
{
    let l = bit_length(n);
    lemma_bit_length_bounds(n);
    lemma2_to64();
    if l > 64 {
        if l > 65 {
            lemma_pow2_strictly_increases(64, (l - 1) as nat);
        }
    }
    let last = l - 24;
    if last <= 0 {
        let up = (24 - l) as nat;
        lemma_pow2_adds(l as nat, up);
        lemma_pow2_adds((l - 1) as nat, up);
        lemma_pow2_pos(up);
        assert(pow2((l - 1) as nat) * pow2(up) <= n * pow2(up) < pow2(l as nat) * pow2(up))
            by (nonlinear_arith)
            requires
                pow2((l - 1) as nat) <= n < pow2(l as nat),
                pow2(up) > 0,
        ;
        n * pow2(up)
    } else {
        let d = pow2(last as nat) as int;
        lemma_pow2_pos(last as nat);
        lemma_nearest_bounds(n, d);
        lemma_pow2_adds(last as nat, 24);
        lemma_pow2_adds(last as nat, 23);
        assert(n / d < 0x100_0000) by (nonlinear_arith)
            requires
                0 <= n < d * 0x100_0000,
                d > 0,
        ;
        assert(n / d >= 0x80_0000) by (nonlinear_arith)
            requires
                n >= d * 0x80_0000,
                d > 0,
        ;
        nearest_even(n, d)
    }
}

/// A larger count converts to a number that is at least as large.
pub proof fn lemma_counts_ordered(c: int, n: int)
    requires
        0 < c <= n < 0x1_0000_0000_0000_0000,
    ensures
        from_int(c) <= from_int(n),
{
    let mc = lemma_count_bits(c);
    let mn = lemma_count_bits(n);
    lemma_bit_length_monotone(c, n);
    let l = bit_length(c);
    if l == bit_length(n) {
        if l <= 24 {
            lemma_pow2_pos((24 - l) as nat);
            assert(c * pow2((24 - l) as nat) <= n * pow2((24 - l) as nat)) by (nonlinear_arith)
                requires
                    c <= n,
                    pow2((24 - l) as nat) > 0,
            ;
        } else {
            lemma_pow2_pos((l - 24) as nat);
            lemma_nearest_monotone(c, n, pow2((l - 24) as nat) as int);
        }
    }
}

/// A normal number divided by one that is at least as large is at most
/// one.
pub proof fn lemma_quotient_at_most_one(a: u32, b: u32)
    requires
        0x80_0000 <= a <= b < 0x7F80_0000,
    ensures
        quotient(a, b) <= 0x3F80_0000,
{
    let sa = significand(a);
    let sb = significand(b);
    lemma2_to64();
    lemma_bit_length_unique(sa, 24);
    lemma_bit_length_unique(sb, 24);
    let e = exponent(a) - exponent(b);
    assert(sa * pow2(0) == sa && sb * pow2(0) == sb);
    assert(e <= 0);
    assert(e >= -253);
    if e == 0 && sa == sb {
        lemma_quotient_self(a);
        assert(a == b);
    } else {
        let top = if sa >= sb {
            e
        } else {
            e - 1
        };
        assert(top <= -1);
        let last = if top - 23 > -149 {
            top - 23
        } else {
            -149
        };
        if last <= e {
            let up = (e - last) as nat;
            lemma_pow2_pos(up);
            assert(up <= 24);
            if sa >= sb {
                assert(up <= 23);
                if up < 23 {
                    lemma_pow2_strictly_increases(up, 23);
                }
                assert((sa * pow2(up)) / sb < 0x100_0000) by (nonlinear_arith)
                    requires
                        0 < sa < 2 * sb,
                        0 < pow2(up) <= 0x80_0000,
                        sb > 0,
                ;
            } else {
                if up < 24 {
                    lemma_pow2_strictly_increases(up, 24);
                }
                assert((sa * pow2(up)) / sb < 0x100_0000) by (nonlinear_arith)
                    requires
                        0 < sa < sb,
                        0 < pow2(up) <= 0x100_0000,
                        sb > 0,
                ;
            }
            assert(sa * pow2(up) >= 0) by (nonlinear_arith)
                requires
                    sa > 0,
                    pow2(up) > 0,
            ;
            lemma_nearest_bounds(sa * pow2(up), sb);
        } else {
            let down = (last - e) as nat;
            lemma_pow2_pos(down);
            assert(sb * pow2(down) > 0) by (nonlinear_arith)
                requires
                    sb > 0,
                    pow2(down) > 0,
            ;
            lemma_nearest_bounds(sa, sb * pow2(down));
            assert(sa / (sb * pow2(down)) < 0x100_0000) by (nonlinear_arith)
                requires
                    0 < sa < 0x100_0000,
                    sb * pow2(down) > 0,
            ;
        }
    }
}

/// A share is a number between zero and one: the quotient of a count by a
/// total that is at least as large is no NaN, not negative, and at most
/// one.
pub proof fn lemma_share_in_unit_range(c: int, n: int)
    requires
        0 <= c <= n,
        0 < n < 0x1_0000_0000_0000_0000,
    ensures
        quotient(from_int(c), from_int(n)) <= 0x3F80_0000,
{
    lemma_count_is_finite(n);
    let mn = lemma_count_bits(n);
    if c > 0 {
        lemma_count_is_finite(c);
        let mc = lemma_count_bits(c);
        lemma_counts_ordered(c, n);
        lemma_quotient_at_most_one(from_int(c), from_int(n));
    }
}

/// A normal number: finite, with an exponent field that is not zero.
pub open spec fn normal(b: u32) -> bool {
    0x80_0000 <= magnitude(b) < 0x7F80_0000
}

/// An integer of fewer than 25 digits converts to a normal number that
/// stands for it exactly: dropping the fraction gives the integer back.
pub proof fn lemma_truncated_small_int(t: int)
    requires
        -0x100_0000 < t < 0x100_0000,
    ensures
        truncated(from_int(t)) == t,
        t != 0 ==> normal(from_int(t)),
        t == 0 ==> from_int(t) == 0,
{
    if t != 0 {
        let w = if t < 0 {
            -t
        } else {
            t
        };
        let m = lemma_count_bits(w);
        let l = bit_length(w);
        lemma_bit_length_bounds(w);
        lemma2_to64();
        if l > 24 {
            if l > 25 {
                lemma_pow2_strictly_increases(24, (l - 1) as nat);
            }
        }
        assert(l <= 24);
        let k = (24 - l) as nat;
        let r = from_int(w);
        assert(r == (l + 125) * 0x80_0000 + m);
        assert(m < 0x100_0000) by {
            lemma_pow2_adds(l as nat, k);
            lemma_pow2_pos(k);
            assert(w * pow2(k) < pow2(l as nat) * pow2(k)) by (nonlinear_arith)
                requires
                    w < pow2(l as nat),
                    pow2(k) > 0,
            ;
        }
        assert(exponent_field(r) == l + 126);
        assert(fraction_field(r) == m - 0x80_0000);
        assert(significand(r) == m);
        assert(exponent(r) == l - 24);
        lemma_pow2_pos(k);
        let whole = if exponent(r) >= 0 {
            significand(r) * pow2(exponent(r) as nat)
        } else {
            significand(r) / (pow2((-exponent(r)) as nat) as int)
        };
        if k == 0 {
            assert(m * pow2(0) == m);
            assert(w * pow2(0) == w);
        } else {
            lemma_fundamental_div_mod_converse(m, pow2(k) as int, w, 0);
        }
        assert(whole == w);
        assert(!is_nan(r));
        assert(truncated(r) == w);
        if t < 0 {
            let b = from_int(t);
            assert(b == 0x8000_0000 + r);
            assert(magnitude(b) == r);
            assert(exponent_field(b) == exponent_field(r));
            assert(fraction_field(b) == fraction_field(r));
            assert(truncated(b) == -w);
        }
    } else {
        lemma_pow2_pos(149);
        assert(0int / (pow2(149) as int) == 0) by (nonlinear_arith)
            requires
                pow2(149) > 0,
        ;
        assert(exponent(0) == -149 && significand(0) == 0);
    }
}

/// One times a normal number is that number.
pub proof fn lemma_times_one(z: u32)
    requires
        normal(z),
    ensures
        product(0x3F80_0000, z) == z,
{
    let one: u32 = 0x3F80_0000;
    lemma2_to64();
    assert(exponent_field(one) == 127 && fraction_field(one) == 0);
    let s = significand(z);
    let e = exponent(z);
    let n = 0x80_0000 * s;
    lemma_pow2_adds(23, 23);
    lemma_pow2_adds(23, 24);
    assert(pow2(23) * pow2(23) <= n < pow2(23) * pow2(24)) by (nonlinear_arith)
        requires
            n == 0x80_0000 * s,
            pow2(23) == 0x80_0000,
            pow2(23) <= s < pow2(24),
    ;
    lemma_bit_length_unique(n, 47);
    lemma_fundamental_div_mod_converse(n, 0x80_0000, s, 0);
    assert(nearest_even(n, pow2(23) as int) == s);
    assert(rounded(n, -23 + e) == (e + 149) * 0x80_0000 + s);
}

/// A normal number over one is that number.
pub proof fn lemma_over_one(x: u32)
    requires
        normal(x),
    ensures
        quotient(x, 0x3F80_0000) == x,
{
    let one: u32 = 0x3F80_0000;
    lemma2_to64();
    assert(exponent_field(one) == 127 && fraction_field(one) == 0);
    let s = significand(x);
    let e = exponent(x);
    lemma_bit_length_unique(s, 24);
    lemma_bit_length_unique(0x80_0000, 24);
    assert(s * pow2(0) == s);
    assert(0x80_0000 * pow2(0) == 0x80_0000);
    let n = s * pow2(23);
    lemma_fundamental_div_mod_converse(n, 0x80_0000, s, 0);
    assert(nearest_even(n, 0x80_0000) == s);
    assert(rounded_ratio(s, 0x80_0000, e + 23) == (e + 149) * 0x80_0000 + s);
}

/// Rounding keeps what needs no rounding: the significand and exponent of
/// a finite number that is not zero round to that number.
pub proof fn lemma_rounded_exact(b: u32)
    requires
        0 < magnitude(b) < 0x7F80_0000,
    ensures
        rounded(significand(b), exponent(b)) == magnitude(b),
{
    let s = significand(b);
    lemma2_to64();
    lemma_bit_length_bounds(s);
    let l = bit_length(s);
    if l > 24 {
        if l > 25 {
            lemma_pow2_strictly_increases(24, (l - 1) as nat);
        }
    }
    if exponent_field(b) != 0 {
        lemma_bit_length_unique(s, 24);
    }
    assert(s * pow2(0) == s);
}

} // verus!
