//! Numeric literals: digits in base 2, 8, 10 or 16, with an optional fraction.
use vstd::prelude::*;
use vstd::arithmetic::power::{pow, lemma_pow_strictly_increases};
use crate::fixed::{Fixed, ONE_RAW, wrap64, wrap_magnitude};

verus! {

/// A literal while it is being read.
#[derive(Clone, Copy, Debug, PartialEq, Eq, Structural)]
pub struct Literal {
    /// The digits before the point, wrapped to 32 bits.
    pub whole: u32,
    /// The digits after the point, as an integer.
    pub fraction: u64,
    /// Whether an odd number of `-` signs came before the literal.
    pub neg: bool,
    /// The base: 2, 8, 10 or 16.
    pub base: u32,
    /// How many fraction digits were folded into `fraction`.
    pub digits: u32,
    /// `base` to the power `digits`.
    pub scale: u64,
}

/// The literal before any of its characters has been read.
pub open spec fn fresh_literal() -> Literal {
    Literal { whole: 0, fraction: 0, neg: false, base: 10, digits: 0, scale: 1 }
}

/// The most fraction digits of a base that 32 fractional bits can hold.
pub open spec fn max_fraction_digits(base: u32) -> u32 {
    if base == 2 {
        32
    } else if base == 8 {
        11
    } else if base == 16 {
        8
    } else {
        10
    }
}

pub open spec fn literal_wf(l: Literal) -> bool {
    &&& (l.base == 2 || l.base == 8 || l.base == 10 || l.base == 16)
    &&& l.digits <= max_fraction_digits(l.base)
    &&& l.scale == pow(l.base as int, l.digits as nat)
    &&& l.fraction < l.scale
}

/// The value of a character as a digit of any base up to 36, as `char::to_digit` reads it.
pub open spec fn digit_of(c: char) -> Option<u32> {
    if '0' <= c && c <= '9' {
        Some((c as u32 - '0' as u32) as u32)
    } else if 'a' <= c && c <= 'z' {
        Some((c as u32 - 'a' as u32 + 10) as u32)
    } else if 'A' <= c && c <= 'Z' {
        Some((c as u32 - 'A' as u32 + 10) as u32)
    } else {
        None
    }
}

/// The value of `c` as a digit of `base`, if it is one.
pub open spec fn digit_in(c: char, base: u32) -> Option<u32> {
    match digit_of(c) {
        Some(d) => if d < base {
            Some(d)
        } else {
            None
        },
        None => None,
    }
}

/// The literal with one more digit before the point.
pub open spec fn with_whole_digit(l: Literal, d: u32) -> Literal {
    Literal { whole: ((l.whole * l.base + d) % 0x1_0000_0000) as u32, ..l }
}

/// The literal with one more digit after the point.
pub open spec fn with_fraction_digit(l: Literal, d: u32) -> Literal {
    Literal {
        fraction: (l.fraction * l.base + d) as u64,
        digits: (l.digits + 1) as u32,
        scale: (l.scale * l.base) as u64,
        ..l
    }
}

/// Whether the fraction holds as many digits as its base can use.
pub open spec fn fraction_is_full(l: Literal) -> bool {
    l.digits == max_fraction_digits(l.base)
}

/// The fraction digits read as a fraction of the base, truncated to 32 bits.
pub open spec fn fraction_raw(l: Literal) -> int {
    (l.fraction * ONE_RAW as int) / pow(l.base as int, l.digits as nat)
}

/// The raw fixed-point value of a literal: the whole part in the upper half,
/// the fraction in the lower half, negated if the sign says so.
pub open spec fn literal_raw(l: Literal) -> int {
    let m = l.whole * ONE_RAW as int + fraction_raw(l);
    wrap64(if l.neg { -m } else { m })
}

/// The value of a literal.
pub open spec fn literal_value(l: Literal) -> Fixed {
    Fixed(literal_raw(l) as i64)
}

/// Powers of each base up to its most fraction digits fit in 34 bits.
proof fn lemma_scale_bound(base: u32, digits: u32)
    requires
        base == 2 || base == 8 || base == 10 || base == 16,
        digits <= max_fraction_digits(base),
    ensures
        pow(base as int, digits as nat) <= 0x4_0000_0000,
{
    reveal_with_fuel(pow, 33);
    assert(pow(2, 32) == 0x1_0000_0000);
    assert(pow(8, 11) == 0x2_0000_0000);
    assert(pow(10, 10) == 10_000_000_000);
    assert(pow(16, 8) == 0x1_0000_0000);
    let top = max_fraction_digits(base);
    if digits < top {
        lemma_pow_strictly_increases(base as nat, digits as nat, top as nat);
    }
}

impl Literal {
    pub fn fresh() -> (r: Literal)
        ensures
            r == fresh_literal(),
    {
        Literal { whole: 0, fraction: 0, neg: false, base: 10, digits: 0, scale: 1 }
    }

    /// Folds a digit into the part before the point, wrapping to 32 bits.
    pub fn push_whole_digit(&mut self, d: u32)
        requires
            d < 16,
            literal_wf(*old(self)),
        ensures
            *final(self) == with_whole_digit(*old(self), d),
    {
        assert(self.whole * self.base <= 0xFFFF_FFFFu64 * 16) by (nonlinear_arith)
            requires
                self.base <= 16,
        ;
        let w: u64 = (self.whole as u64) * (self.base as u64) + (d as u64);
        self.whole = (w % 0x1_0000_0000u64) as u32;
    }

    /// Folds a digit into the part after the point.
    pub fn push_fraction_digit(&mut self, d: u32)
        requires
            literal_wf(*old(self)),
            old(self).digits < max_fraction_digits(old(self).base),
            d < old(self).base,
        ensures
            *final(self) == with_fraction_digit(*old(self), d),
            literal_wf(*final(self)),
    {
        proof {
            lemma_scale_bound(self.base, (self.digits + 1) as u32);
            reveal_with_fuel(pow, 2);
            assert(pow(self.base as int, (self.digits + 1) as nat) == self.base * pow(
                self.base as int,
                self.digits as nat,
            ));
            assert(self.fraction * self.base + d < self.scale * self.base) by (nonlinear_arith)
                requires
                    self.fraction < self.scale,
                    d < self.base,
            ;
        }
        self.fraction = self.fraction * (self.base as u64) + (d as u64);
        self.digits = self.digits + 1;
        self.scale = self.scale * (self.base as u64);
    }

    /// Whether no further fraction digit can change the value.
    pub fn fraction_is_full(&self) -> (r: bool)
        ensures
            r == fraction_is_full(*self),
    {
        match self.base {
            2 => self.digits == 32,
            8 => self.digits == 11,
            16 => self.digits == 8,
            _ => self.digits == 10,
        }
    }

    /// The fixed-point value of the literal.
    pub fn value(&self) -> (r: Fixed)
        requires
            literal_wf(*self),
        ensures
            r == literal_value(*self),
    {
        proof {
            lemma_scale_bound(self.base, self.digits);
            assert(self.fraction * 0x1_0000_0000 < self.scale * 0x1_0000_0000) by (nonlinear_arith)
                requires
                    self.fraction < self.scale,
            ;
            vstd::arithmetic::div_mod::lemma_div_by_multiple_is_strongly_ordered(
                self.fraction * 0x1_0000_0000,
                self.scale * 0x1_0000_0000,
                0x1_0000_0000,
                self.scale as int,
            );
            vstd::arithmetic::div_mod::lemma_div_multiples_vanish(0x1_0000_0000, self.scale as int);
        }
        let f: u128 = ((self.fraction as u128) * 0x1_0000_0000u128) / (self.scale as u128);
        let m: u128 = (self.whole as u128) * 0x1_0000_0000u128 + f;
        Fixed(wrap_magnitude(self.neg, m))
    }
}

/// The value of `c` as a digit of `base`.
pub fn to_digit(c: char, base: u32) -> (r: Option<u32>)
    ensures
        r == digit_in(c, base),
{
    let d: u32 = if '0' <= c && c <= '9' {
        (c as u32) - ('0' as u32)
    } else if 'a' <= c && c <= 'z' {
        (c as u32) - ('a' as u32) + 10
    } else if 'A' <= c && c <= 'Z' {
        (c as u32) - ('A' as u32) + 10
    } else {
        return None;
    };
    if d < base {
        Some(d)
    } else {
        None
    }
}

} // verus!
