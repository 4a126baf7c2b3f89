//! Decimal rendering of fixed-point values: `[-]WHOLE[.FRACTION]`.
use vstd::prelude::*;
use vstd::string::StringExecFns;
use vstd::arithmetic::power::pow;
use crate::fixed::{Fixed, abs, magnitude};

verus! {

/// The character of a decimal digit.
pub open spec fn digit_char(d: int) -> char {
    ('0' as int + d) as char
}

/// The lowest `w` decimal digits of `v`, with leading zeros.
pub open spec fn padded_digits(v: nat, w: nat) -> Seq<char>
    decreases w,
{
    if w == 0 {
        Seq::empty()
    } else {
        padded_digits(v / 10, (w - 1) as nat).push(digit_char((v % 10) as int))
    }
}

/// The decimal digits of `v`, without leading zeros (`0` for zero).
pub open spec fn decimal_digits(v: nat) -> Seq<char>
    decreases v,
{
    if v < 10 {
        seq![digit_char(v as int)]
    } else {
        decimal_digits(v / 10).push(digit_char((v % 10) as int))
    }
}

/// `s` without its trailing zeros.
pub open spec fn strip_zeros(s: Seq<char>) -> Seq<char>
    decreases s.len(),
{
    if s.len() > 0 && s.last() == '0' {
        strip_zeros(s.drop_last())
    } else {
        s
    }
}

/// The integer part of the magnitude of `x`.
pub open spec fn whole_part(x: Fixed) -> nat {
    (abs(x.0 as int) / 0x1_0000_0000) as nat
}

/// The fractional bits of the magnitude of `x`.
pub open spec fn fraction_bits(x: Fixed) -> nat {
    (abs(x.0 as int) % 0x1_0000_0000) as nat
}

/// The fraction of `x` in units of 10^-9, rounded half up.
pub open spec fn billionths(x: Fixed) -> nat {
    ((fraction_bits(x) * 1_000_000_000 + 0x8000_0000) / 0x1_0000_0000) as nat
}

/// The text after the integer part, without a requested precision: the fraction
/// rounded to nine digits, trailing zeros dropped, nothing when it rounds to 0 or 1.
pub open spec fn shortest_fraction(x: Fixed) -> Seq<char> {
    let n = billionths(x);
    if n == 0 || n == 1_000_000_000 {
        Seq::empty()
    } else {
        seq!['.'] + strip_zeros(padded_digits(n, 9))
    }
}

/// The fraction of `x` with exactly `p` digits, rounded half up; a carry into
/// the integer part is dropped.
pub open spec fn fixed_fraction_digits(x: Fixed, p: nat) -> Seq<char> {
    let e = fraction_bits(x) * pow(5, 32);
    if p >= 32 {
        padded_digits(e as nat, 32) + Seq::new((p - 32) as nat, |i: int| '0')
    } else {
        padded_digits(
            ((e + 5 * pow(10, (31 - p) as nat)) / pow(10, (32 - p) as nat)) as nat,
            p,
        )
    }
}

/// The text after the integer part for a requested precision of `p` digits.
pub open spec fn fixed_fraction(x: Fixed, p: nat) -> Seq<char> {
    if p == 0 {
        Seq::empty()
    } else {
        seq!['.'] + fixed_fraction_digits(x, p)
    }
}

/// The decimal text of `x`.
pub open spec fn format_spec(x: Fixed, precision: Option<usize>) -> Seq<char> {
    let sign: Seq<char> = if x.0 < 0 {
        seq!['-']
    } else {
        Seq::empty()
    };
    let fraction = match precision {
        Some(p) => fixed_fraction(x, p as nat),
        None => shortest_fraction(x),
    };
    sign + decimal_digits(whole_part(x)) + fraction
}

/// The characters that a rendering can hold.
pub open spec fn is_format_char(c: char) -> bool {
    ('0' <= c && c <= '9') || c == '-' || c == '.'
}

pub open spec fn all_format_chars(s: Seq<char>) -> bool {
    forall|k: int| 0 <= k < s.len() ==> is_format_char(#[trigger] s[k])
}

proof fn lemma_decimal_digits_chars(v: nat)
    ensures
        all_format_chars(decimal_digits(v)),
    decreases v,
{
    if v >= 10 {
        lemma_decimal_digits_chars(v / 10);
    }
}

proof fn lemma_padded_digits_chars(v: nat, w: nat)
    ensures
        all_format_chars(padded_digits(v, w)),
        padded_digits(v, w).len() == w,
    decreases w,
{
    if w > 0 {
        lemma_padded_digits_chars(v / 10, (w - 1) as nat);
    }
}

proof fn lemma_strip_zeros_chars(s: Seq<char>)
    requires
        all_format_chars(s),
    ensures
        all_format_chars(strip_zeros(s)),
    decreases s.len(),
{
    if s.len() > 0 && s.last() == '0' {
        let h = s.drop_last();
        assert(all_format_chars(h)) by {
            assert forall|k: int| 0 <= k < h.len() implies is_format_char(#[trigger] h[k]) by {
                assert(h[k] == s[k]);
            }
        }
        lemma_strip_zeros_chars(h);
    }
}

/// A rendering holds only digits, `-` and `.`.
proof fn lemma_format_chars(x: Fixed, precision: Option<usize>)
    ensures
        all_format_chars(format_spec(x, precision)),
{
    lemma_decimal_digits_chars(whole_part(x));
    lemma_padded_digits_chars(billionths(x), 9);
    lemma_strip_zeros_chars(padded_digits(billionths(x), 9));
    if let Some(p) = precision {
        let e = fraction_bits(x) * pow(5, 32);
        lemma_padded_digits_chars(e as nat, 32);
        if p < 32 {
            lemma_padded_digits_chars(
                ((e + 5 * pow(10, (31 - p) as nat)) / pow(10, (32 - p) as nat)) as nat,
                p as nat,
            );
        }
    }
    let f = format_spec(x, precision);
    assert forall|k: int| 0 <= k < f.len() implies is_format_char(#[trigger] f[k]) by {
        let sign: Seq<char> = if x.0 < 0 {
            seq!['-']
        } else {
            Seq::empty()
        };
        let d = decimal_digits(whole_part(x));
        if k >= sign.len() + d.len() {
            let j = k - sign.len() - d.len();
            match precision {
                Some(p) => {
                    if p as nat >= 32 {
                        let e = fraction_bits(x) * pow(5, 32);
                        if j >= 33 {
                            assert(fixed_fraction_digits(x, p as nat)[j - 1] == '0');
                        } else if j >= 1 {
                            assert(fixed_fraction_digits(x, p as nat)[j - 1] == padded_digits(
                                e as nat,
                                32,
                            )[j - 1]);
                        }
                    }
                },
                None => {},
            }
        } else if k >= sign.len() {
            assert(f[k] == d[k - sign.len()]);
        }
    }
}

/// Appends one character of a rendering to `s`.
fn push_format_char(s: &mut String, c: char)
    requires
        is_format_char(c),
    ensures
        final(s)@ == old(s)@.push(c),
{
    if c == '-' {
        proof { reveal_strlit("-"); }
        s.append("-");
    } else if c == '.' {
        proof { reveal_strlit("."); }
        s.append(".");
    } else if c == '0' {
        proof { reveal_strlit("0"); }
        s.append("0");
    } else if c == '1' {
        proof { reveal_strlit("1"); }
        s.append("1");
    } else if c == '2' {
        proof { reveal_strlit("2"); }
        s.append("2");
    } else if c == '3' {
        proof { reveal_strlit("3"); }
        s.append("3");
    } else if c == '4' {
        proof { reveal_strlit("4"); }
        s.append("4");
    } else if c == '5' {
        proof { reveal_strlit("5"); }
        s.append("5");
    } else if c == '6' {
        proof { reveal_strlit("6"); }
        s.append("6");
    } else if c == '7' {
        proof { reveal_strlit("7"); }
        s.append("7");
    } else if c == '8' {
        proof { reveal_strlit("8"); }
        s.append("8");
    } else {
        proof { reveal_strlit("9"); }
        s.append("9");
    }
    assert(old(s)@ + seq![c] =~= old(s)@.push(c));
}

/// The characters of a rendering as a `String`.
fn string_of_chars(chars: &Vec<char>) -> (r: String)
    requires
        all_format_chars(chars@),
    ensures
        r@ == chars@,
{
    let mut r = String::new();
    let mut i: usize = 0;
    while i < chars.len()
        invariant
            i <= chars.len(),
            all_format_chars(chars@),
            r@ == chars@.take(i as int),
        decreases chars.len() - i,
    {
        push_format_char(&mut r, chars[i]);
        i = i + 1;
        assert(chars@.take(i as int) =~= chars@.take(i - 1).push(chars@[i - 1]));
    }
    assert(chars@.take(i as int) =~= chars@);
    r
}

fn push_decimal(out: &mut Vec<char>, v: u64)
    ensures
        final(out)@ == old(out)@ + decimal_digits(v as nat),
    decreases v,
{
    if v >= 10 {
        push_decimal(out, v / 10);
    }
    out.push(char_of_digit((v % 10) as u32));
    proof {
        if v < 10 {
            assert(v % 10 == v);
        }
    }
}

fn push_padded(out: &mut Vec<char>, v: u128, w: usize)
    ensures
        final(out)@ == old(out)@ + padded_digits(v as nat, w as nat),
    decreases w,
{
    if w > 0 {
        push_padded(out, v / 10, w - 1);
        out.push(char_of_digit((v % 10) as u32));
    } else {
        assert(old(out)@ + Seq::<char>::empty() =~= old(out)@);
    }
}

fn char_of_digit(d: u32) -> (r: char)
    requires
        d < 10,
    ensures
        r == digit_char(d as int),
{
    let c: u8 = 48u8 + (d as u8);
    c as char
}

fn pow10(k: u32) -> (r: u128)
    requires
        k <= 32,
    ensures
        r == pow(10, k as nat),
        r <= 100_000_000_000_000_000_000_000_000_000_000,
{
    let mut r: u128 = 1;
    let mut i: u32 = 0;
    proof {
        reveal_with_fuel(pow, 33);
        assert(pow(10, 32) == 100_000_000_000_000_000_000_000_000_000_000);
    }
    while i < k
        invariant
            i <= k <= 32,
            r == pow(10, i as nat),
            pow(10, 32) == 100_000_000_000_000_000_000_000_000_000_000,
        decreases k - i,
    {
        proof {
            vstd::arithmetic::power::lemma_pow_increases(10, (i + 1) as nat, 32);
            reveal_with_fuel(pow, 33);
            assert(pow(10, 32) == 100_000_000_000_000_000_000_000_000_000_000);
        }
        r = r * 10;
        i = i + 1;
    }
    proof {
        vstd::arithmetic::power::lemma_pow_increases(10, k as nat, 32);
    }
    r
}

impl Fixed {
    /// Renders the value as `[-]WHOLE[.FRACTION]`. With a precision, the fraction
    /// has exactly that many digits; without one, it is rounded to nine digits
    /// and its trailing zeros are dropped.
    pub fn format(&self, precision: Option<usize>) -> (r: String)
        ensures
            r@ == format_spec(*self, precision),
    {
        let m = magnitude(self.0);
        let whole = m / 0x1_0000_0000u64;
        let frac = m % 0x1_0000_0000u64;
        let mut out: Vec<char> = Vec::new();
        if self.0 < 0 {
            out.push('-');
        }
        push_decimal(&mut out, whole);
        let ghost head = out@;
        match precision {
            None => {
                let n: u64 = (frac * 1_000_000_000u64 + 0x8000_0000u64) / 0x1_0000_0000u64;
                if n != 0 && n != 1_000_000_000 {
                    let mut digits: Vec<char> = Vec::new();
                    push_padded(&mut digits, n as u128, 9);
                    while digits.len() > 0 && digits[digits.len() - 1] == '0'
                        invariant
                            strip_zeros(digits@) == strip_zeros(padded_digits(n as nat, 9)),
                        decreases digits.len(),
                    {
                        digits.pop();
                    }
                    assert(strip_zeros(digits@) == digits@);
                    out.push('.');
                    let mut j: usize = 0;
                    let ghost before = out@;
                    while j < digits.len()
                        invariant
                            j <= digits.len(),
                            out@ == before + digits@.take(j as int),
                        decreases digits.len() - j,
                    {
                        out.push(digits[j]);
                        j = j + 1;
                        assert(digits@.take(j as int) =~= digits@.take(j - 1).push(digits@[j - 1]));
                    }
                    assert(digits@.take(j as int) =~= digits@);
                    assert(out@ =~= head + shortest_fraction(*self));
                }
            },
            Some(p) => {
                if p > 0 {
                    out.push('.');
                    proof {
                        reveal_with_fuel(pow, 33);
                        assert(pow(5, 32) == 23283064365386962890625);
                        assert(frac * 23283064365386962890625u128 <= 0xFFFF_FFFFu128 * 23283064365386962890625u128)
                            by (nonlinear_arith)
                            requires
                                frac <= 0xFFFF_FFFFu64,
                        ;
                    }
                    let e: u128 = (frac as u128) * 23283064365386962890625u128;
                    if p >= 32 {
                        push_padded(&mut out, e, 32);
                        let ghost mid = out@;
                        let mut k: usize = 32;
                        assert(mid =~= mid + Seq::new(0, |i: int| '0'));
                        while k < p
                            invariant
                                32 <= k <= p,
                                out@ == mid + Seq::new((k - 32) as nat, |i: int| '0'),
                            decreases p - k,
                        {
                            out.push('0');
                            k = k + 1;
                            assert(out@ =~= mid + Seq::new((k - 32) as nat, |i: int| '0'));
                        }
                        assert(out@ =~= head + fixed_fraction(*self, p as nat));
                    } else {
                        let pp = p as u32;
                        let half = 5 * pow10(31 - pp);
                        let rounded = (e + half) / pow10(32 - pp);
                        push_padded(&mut out, rounded, p);
                        assert(out@ =~= head + fixed_fraction(*self, p as nat));
                    }
                }
            },
        }
        proof {
            lemma_format_chars(*self, precision);
        }
        string_of_chars(&out)
    }
}

} // verus!
