//! Signed Q32.32 fixed-point numbers: the raw `i64` stands for `raw / 2^32`.
use vstd::prelude::*;
use vstd::arithmetic::div_mod::{lemma_fundamental_div_mod, lemma_fundamental_div_mod_converse};

verus! {

/// 2^32, the scale of the fractional part.
pub const ONE_RAW: u64 = 0x1_0000_0000;

/// 2^64, the size of the range of a raw value.
pub open spec fn modulus64() -> int {
    0x1_0000_0000_0000_0000
}

/// The `i64` that two's complement wrap-around gives for the integer `x`.
pub open spec fn wrap64(x: int) -> int {
    let m = x % modulus64();
    if m >= 0x8000_0000_0000_0000 {
        m - modulus64()
    } else {
        m
    }
}

/// A fixed-point number: the value is `self.0 / 2^32`.
#[derive(Clone, Copy, Debug, PartialEq, Eq, PartialOrd, Ord, Hash, Structural)]
pub struct Fixed(pub i64);

/// Reinterprets the bit pattern of an unsigned word as a signed one.
fn signed_of_bits(bits: u64) -> (r: i64)
    ensures
        r as int == wrap64(bits as int),
{
    proof {
        lemma_fundamental_div_mod_converse(bits as int, modulus64(), 0, bits as int);
    }
    if bits < 0x8000_0000_0000_0000 {
        bits as i64
    } else {
        ((bits - 0x8000_0000_0000_0000u64) as i64) + i64::MIN
    }
}

/// The `i64` that `m` or `-m` wraps to.
pub(crate) fn wrap_magnitude(neg: bool, m: u128) -> (r: i64)
    ensures
        r as int == wrap64(if neg { -(m as int) } else { m as int }),
{
    let low: u64 = (m % 0x1_0000_0000_0000_0000u128) as u64;
    proof {
        lemma_fundamental_div_mod(m as int, modulus64());
    }
    if neg && low != 0 {
        let bits: u64 = (u64::MAX - low) + 1;
        proof {
            let q = m as int / modulus64();
            assert(-(m as int) == (-q - 1) * modulus64() + bits) by (nonlinear_arith)
                requires
                    m as int == modulus64() * q + low,
                    bits == modulus64() - low,
            ;
            lemma_fundamental_div_mod_converse(-(m as int), modulus64(), -q - 1, bits as int);
            lemma_fundamental_div_mod_converse(bits as int, modulus64(), 0, bits as int);
        }
        signed_of_bits(bits)
    } else {
        proof {
            let q = m as int / modulus64();
            if neg {
                assert(-(m as int) == (-q) * modulus64() + 0) by (nonlinear_arith)
                    requires
                        m as int == modulus64() * q + low,
                        low == 0,
                ;
                lemma_fundamental_div_mod_converse(-(m as int), modulus64(), -q, 0);
            }
            lemma_fundamental_div_mod_converse(low as int, modulus64(), 0, low as int);
        }
        signed_of_bits(low)
    }
}

/// The absolute value of an integer.
pub open spec fn abs(x: int) -> int {
    if x < 0 {
        -x
    } else {
        x
    }
}

/// Division rounded toward zero, as Rust's `/` on signed integers.
pub open spec fn trunc_div(x: int, y: int) -> int {
    if (x < 0) == (y < 0) {
        abs(x) / abs(y)
    } else {
        -(abs(x) / abs(y))
    }
}

/// Remainder with the sign of the dividend, as Rust's `%` on signed integers.
pub open spec fn trunc_rem(x: int, y: int) -> int {
    if x >= 0 {
        x % abs(y)
    } else {
        -((-x) % abs(y))
    }
}

/// How far a shift by `rhs` moves: the integer part of `rhs`, modulo the 64 bits of a word.
pub open spec fn shift_count(rhs: Fixed) -> u32 {
    ((rhs.0 >> 32u32) & 63i64) as u32
}

/// Values of the `i64` range wrap to themselves.
pub proof fn lemma_wrap64_small(x: int)
    requires
        i64::MIN <= x <= i64::MAX,
    ensures
        wrap64(x) == x,
{
    if x >= 0 {
        lemma_fundamental_div_mod_converse(x, modulus64(), 0, x);
    } else {
        lemma_fundamental_div_mod_converse(x, modulus64(), -1, x + modulus64());
    }
}

/// Wrapping ignores multiples of 2^64.
pub proof fn lemma_wrap64_periodic(x: int, k: int)
    ensures
        wrap64(x + k * modulus64()) == wrap64(x),
{
    lemma_fundamental_div_mod(x, modulus64());
    let q = x / modulus64();
    let r = x % modulus64();
    assert(x + k * modulus64() == (q + k) * modulus64() + r) by (nonlinear_arith)
        requires
            x == modulus64() * q + r,
    ;
    lemma_fundamental_div_mod_converse(x + k * modulus64(), modulus64(), q + k, r);
}

/// Floor division of a negated number by a positive one rounds the magnitude up.
proof fn lemma_floor_div_neg(p: int, d: int)
    requires
        p >= 0,
        d > 0,
    ensures
        (-p) / d == -((p + d - 1) / d),
{
    lemma_fundamental_div_mod(p + d - 1, d);
    let q = (p + d - 1) / d;
    let r = (p + d - 1) % d;
    assert(-p == (-q) * d + (d - 1 - r)) by (nonlinear_arith)
        requires
            p + d - 1 == d * q + r,
    ;
    lemma_fundamental_div_mod_converse(-p, d, -q, d - 1 - r);
}

/// The magnitude of a word, which always fits in an unsigned word.
pub(crate) fn magnitude(x: i64) -> (r: u64)
    ensures
        r as int == abs(x as int),
{
    if x == i64::MIN {
        0x8000_0000_0000_0000u64
    } else if x < 0 {
        (-x) as u64
    } else {
        x as u64
    }
}

impl Fixed {
    /// Sum, wrapping around on overflow.
    pub open spec fn spec_add(self, rhs: Fixed) -> Fixed {
        Fixed(wrap64(self.0 + rhs.0) as i64)
    }

    /// Difference, wrapping around on overflow.
    pub open spec fn spec_sub(self, rhs: Fixed) -> Fixed {
        Fixed(wrap64(self.0 - rhs.0) as i64)
    }

    /// Product: the exact product of the raw values, floored to a multiple of 2^32 and wrapped.
    pub open spec fn spec_mul(self, rhs: Fixed) -> Fixed {
        Fixed(wrap64((self.0 * rhs.0) / (ONE_RAW as int)) as i64)
    }

    /// Quotient: the raw dividend scaled by 2^32, divided toward zero by the raw divisor, wrapped.
    pub open spec fn spec_div(self, rhs: Fixed) -> Fixed {
        Fixed(wrap64(trunc_div(self.0 * ONE_RAW as int, rhs.0 as int)) as i64)
    }

    /// Remainder of the raw values, with the sign of the dividend.
    pub open spec fn spec_rem(self, rhs: Fixed) -> Fixed {
        Fixed(trunc_rem(self.0 as int, rhs.0 as int) as i64)
    }

    /// Left shift of the raw bits by the integer part of `rhs`, modulo 64.
    pub open spec fn spec_shl(self, rhs: Fixed) -> Fixed {
        Fixed(self.0 << shift_count(rhs))
    }

    /// Arithmetic right shift of the raw bits by the integer part of `rhs`, modulo 64.
    pub open spec fn spec_shr(self, rhs: Fixed) -> Fixed {
        Fixed(self.0 >> shift_count(rhs))
    }


    /// The integer `x` as a fixed-point value.
    pub fn new(x: i32) -> (r: Fixed)
        ensures
            r.0 == x as int * ONE_RAW as int,
    {
        proof {
            assert(x as int * ONE_RAW as int <= i32::MAX as int * 0x1_0000_0000) by (nonlinear_arith)
                requires x <= i32::MAX;
            assert(x as int * ONE_RAW as int >= i32::MIN as int * 0x1_0000_0000) by (nonlinear_arith)
                requires x >= i32::MIN;
        }
        Fixed((x as i64) * (ONE_RAW as i64))
    }

    /// The value whose raw representation is `x`.
    pub fn from_i64(x: i64) -> (r: Fixed)
        ensures
            r.0 == x,
    {
        Fixed(x)
    }

    /// The raw representation.
    pub fn as_i64(&self) -> (r: i64)
        ensures
            r == self.0,
    {
        self.0
    }
    /// Sum of the raw values, wrapping around on overflow.
    pub fn add(self, rhs: Fixed) -> (r: Fixed)
        ensures
            r == self.spec_add(rhs),
            r.0 == wrap64(self.0 + rhs.0),
    {
        proof {
            if self.0 + rhs.0 > i64::MAX {
                lemma_wrap64_small(self.0 + rhs.0 - modulus64());
                lemma_wrap64_periodic(self.0 + rhs.0 - modulus64(), 1);
            } else if self.0 + rhs.0 < i64::MIN {
                lemma_wrap64_small(self.0 + rhs.0 + modulus64());
                lemma_wrap64_periodic(self.0 + rhs.0 + modulus64(), -1);
            } else {
                lemma_wrap64_small(self.0 + rhs.0);
            }
        }
        Fixed(self.0.wrapping_add(rhs.0))
    }

    /// Difference of the raw values, wrapping around on overflow.
    pub fn sub(self, rhs: Fixed) -> (r: Fixed)
        ensures
            r == self.spec_sub(rhs),
            r.0 == wrap64(self.0 - rhs.0),
    {
        proof {
            if self.0 - rhs.0 > i64::MAX {
                lemma_wrap64_small(self.0 - rhs.0 - modulus64());
                lemma_wrap64_periodic(self.0 - rhs.0 - modulus64(), 1);
            } else if self.0 - rhs.0 < i64::MIN {
                lemma_wrap64_small(self.0 - rhs.0 + modulus64());
                lemma_wrap64_periodic(self.0 - rhs.0 + modulus64(), -1);
            } else {
                lemma_wrap64_small(self.0 - rhs.0);
            }
        }
        Fixed(self.0.wrapping_sub(rhs.0))
    }

    /// Product, computed on 128 bits so that no intermediate result overflows.
    pub fn mul(self, rhs: Fixed) -> (r: Fixed)
        ensures
            r == self.spec_mul(rhs),
            r.0 == wrap64((self.0 * rhs.0) / (ONE_RAW as int)),
    {
        let ma = magnitude(self.0) as u128;
        let mb = magnitude(rhs.0) as u128;
        proof {
            assert(ma * mb <= 0x8000_0000_0000_0000u128 * 0x8000_0000_0000_0000u128)
                by (nonlinear_arith)
                requires
                    ma <= 0x8000_0000_0000_0000u128,
                    mb <= 0x8000_0000_0000_0000u128,
            ;
        }
        let p: u128 = ma * mb;
        let neg = (self.0 < 0) != (rhs.0 < 0);
        proof {
            assert(self.0 * rhs.0 == if neg { -(p as int) } else { p as int }) by (nonlinear_arith)
                requires
                    ma == abs(self.0 as int),
                    mb == abs(rhs.0 as int),
                    p == ma * mb,
                    neg == ((self.0 < 0) != (rhs.0 < 0)),
            ;
        }
        if neg {
            let q: u128 = (p + 0xFFFF_FFFFu128) / 0x1_0000_0000u128;
            proof {
                lemma_floor_div_neg(p as int, ONE_RAW as int);
            }
            Fixed(wrap_magnitude(true, q))
        } else {
            let q: u128 = p / 0x1_0000_0000u128;
            Fixed(wrap_magnitude(false, q))
        }
    }

    /// Quotient: the dividend is scaled by 2^32 on 128 bits before the division,
    /// so the fractional bits of the result are kept.
    pub fn div(self, rhs: Fixed) -> (r: Fixed)
        requires
            rhs.0 != 0,
        ensures
            r == self.spec_div(rhs),
            r.0 == wrap64(trunc_div(self.0 * ONE_RAW as int, rhs.0 as int)),
    {
        let ma = magnitude(self.0) as u128;
        let mb = magnitude(rhs.0) as u128;
        proof {
            assert(ma * 0x1_0000_0000u128 <= 0x8000_0000_0000_0000u128 * 0x1_0000_0000u128)
                by (nonlinear_arith)
                requires
                    ma <= 0x8000_0000_0000_0000u128,
            ;
            assert(abs(self.0 * ONE_RAW as int) == ma * 0x1_0000_0000) by (nonlinear_arith)
                requires
                    ma == abs(self.0 as int),
            ;
            assert((self.0 * ONE_RAW as int) < 0 <==> self.0 < 0) by (nonlinear_arith);
        }
        let q: u128 = (ma * 0x1_0000_0000u128) / mb;
        let neg = (self.0 < 0) != (rhs.0 < 0);
        Fixed(wrap_magnitude(neg, q))
    }

    /// Remainder of the raw values, with the sign of the dividend.
    pub fn rem(self, rhs: Fixed) -> (r: Fixed)
        requires
            rhs.0 != 0,
        ensures
            r == self.spec_rem(rhs),
            r.0 == trunc_rem(self.0 as int, rhs.0 as int),
    {
        let ma = magnitude(self.0);
        let mb = magnitude(rhs.0);
        let m: u64 = ma % mb;
        if self.0 < 0 {
            Fixed(-(m as i64))
        } else {
            Fixed(m as i64)
        }
    }

    /// Bitwise and of the raw values, fractional bits included.
    pub fn bitand(self, rhs: Fixed) -> (r: Fixed)
        ensures
            r.0 == self.0 & rhs.0,
    {
        Fixed(self.0 & rhs.0)
    }

    /// Bitwise or of the raw values, fractional bits included.
    pub fn bitor(self, rhs: Fixed) -> (r: Fixed)
        ensures
            r.0 == self.0 | rhs.0,
    {
        Fixed(self.0 | rhs.0)
    }

    /// Bitwise exclusive or of the raw values, fractional bits included.
    pub fn bitxor(self, rhs: Fixed) -> (r: Fixed)
        ensures
            r.0 == self.0 ^ rhs.0,
    {
        Fixed(self.0 ^ rhs.0)
    }

    /// Shifts the raw value left by the integer part of `rhs`, taken modulo 64.
    pub fn shl(self, rhs: Fixed) -> (r: Fixed)
        ensures
            r == self.spec_shl(rhs),
    {
        let x = rhs.0;
        let n = (x >> 32u32) & 63i64;
        assert(0 <= n <= 63) by (bit_vector)
            requires
                n == (x >> 32u32) & 63i64,
        ;
        Fixed(self.0 << (n as u32))
    }

    /// Shifts the raw value right, arithmetically, by the integer part of `rhs`, taken modulo 64.
    pub fn shr(self, rhs: Fixed) -> (r: Fixed)
        ensures
            r == self.spec_shr(rhs),
    {
        let x = rhs.0;
        let n = (x >> 32u32) & 63i64;
        assert(0 <= n <= 63) by (bit_vector)
            requires
                n == (x >> 32u32) & 63i64,
        ;
        Fixed(self.0 >> (n as u32))
    }
}

} // verus!
