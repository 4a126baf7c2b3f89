//! Properties that relate several operations of the library.
use vstd::prelude::*;
use vstd::arithmetic::power::pow;
use vstd::arithmetic::div_mod::{lemma_fundamental_div_mod, lemma_fundamental_div_mod_converse};
use crate::fixed::{Fixed, ONE_RAW, abs, trunc_div, lemma_wrap64_small};
use crate::format::{decimal_digits, digit_char, format_spec, padded_digits, strip_zeros};
use crate::literal::{Literal, fresh_literal, digit_in};
use crate::parser::{
    EvalState, Lexer, evaluate, initial_state, is_space, lemma_run_failed, run, scan_first,
    scan_second, step,
};

verus! {

/// The usual decimal text of an integer: a `-` for negatives, then the digits.
pub open spec fn int_text(n: int) -> Seq<char> {
    if n < 0 {
        seq!['-'] + decimal_digits((-n) as nat)
    } else {
        decimal_digits(n as nat)
    }
}

proof fn lemma_digit_char(d: int)
    requires
        0 <= d < 10,
    ensures
        digit_in(digit_char(d), 10) == Some(d as u32),
        !is_space(digit_char(d)),
        '0' <= digit_char(d) <= '9',
        d >= 1 ==> '1' <= digit_char(d),
        digit_char(d) as u32 - '0' as u32 == d,
{
}

#[verifier::rlimit(60)]
/// Reading the digits of `v` after an optional sign leaves the scanner inside
/// the whole part, holding `v`.
proof fn lemma_run_digits(p: Seq<char>, m: EvalState, v: nat)
    requires
        1 <= v < 0x1_0000_0000,
        run(p) == Ok::<EvalState, crate::parser::EvalError>(m),
        m.lexer == Lexer::ExpectingNumber || m.lexer == Lexer::ReadingSign,
        m.literal == (Literal { neg: m.literal.neg, ..fresh_literal() }),
    ensures
        run(p + decimal_digits(v)) == Ok::<EvalState, crate::parser::EvalError>(
            EvalState {
                lexer: Lexer::ReadingWhole,
                literal: Literal { whole: v as u32, ..m.literal },
                ..m
            },
        ),
    decreases v,
{
    let d = (v % 10) as int;
    lemma_digit_char(d);
    if v < 10 {
        assert(decimal_digits(v) == seq![digit_char(v as int)]);
        assert((p + decimal_digits(v)).drop_last() =~= p);
    } else {
        lemma_run_digits(p, m, v / 10);
        assert((p + decimal_digits(v)).drop_last() =~= p + decimal_digits(v / 10));
        assert(((v / 10) * 10 + d) % 0x1_0000_0000 == v);
    }
}

/// The decimal text of any 32-bit integer evaluates to that integer.
pub proof fn lemma_integer_text(n: i32)
    ensures
        evaluate(int_text(n as int)) == Ok::<Fixed, crate::parser::EvalError>(
            Fixed((n as int * ONE_RAW as int) as i64),
        ),
{
    let s = int_text(n as int);
    vstd::arithmetic::power::lemma_pow0(10);
    if n == 0 {
        reveal_with_fuel(run, 2);
        lemma_digit_char(0);
        assert(s == seq!['0']);
        assert(s.drop_last() =~= Seq::<char>::empty());
        lemma_wrap64_small(0);
    } else if n > 0 {
        lemma_run_digits(Seq::empty(), initial_state(), n as nat);
        assert(Seq::<char>::empty() + decimal_digits(n as nat) =~= s);
        lemma_wrap64_small(n as int * ONE_RAW as int);
    } else {
        let p = seq!['-'];
        reveal_with_fuel(run, 2);
        assert(p.drop_last() =~= Seq::<char>::empty());
        let m = EvalState {
            lexer: Lexer::ReadingSign,
            literal: Literal { neg: true, ..fresh_literal() },
            ..initial_state()
        };
        assert(run(p) == step(initial_state(), '-', 0));
        assert(run(p) == Ok::<EvalState, crate::parser::EvalError>(m));
        lemma_run_digits(p, m, (-n) as nat);
        assert(-(((-n) as int) * ONE_RAW as int) == n as int * ONE_RAW as int);
        lemma_wrap64_small(n as int * ONE_RAW as int);
    }
    assert(n as int * ONE_RAW as int <= i64::MAX) by (nonlinear_arith)
        requires
            n <= i32::MAX,
    ;
    assert(n as int * ONE_RAW as int >= i64::MIN) by (nonlinear_arith)
        requires
            n >= i32::MIN,
    ;
}

/// An integer value, formatted without a precision, reads as its decimal text,
/// and that text evaluates back to the same bits.
pub proof fn lemma_integer_format_round_trip(n: i32)
    ensures
        format_spec(Fixed((n as int * ONE_RAW as int) as i64), None) == int_text(n as int),
        evaluate(format_spec(Fixed((n as int * ONE_RAW as int) as i64), None)) == Ok::<
            Fixed,
            crate::parser::EvalError,
        >(Fixed((n as int * ONE_RAW as int) as i64)),
{
    let r = n as int * ONE_RAW as int;
    assert(i64::MIN <= r <= i64::MAX) by (nonlinear_arith)
        requires
            r == n as int * 0x1_0000_0000,
            i32::MIN <= n <= i32::MAX,
    ;
    let x = Fixed(r as i64);
    assert(abs(r) == abs(n as int) * 0x1_0000_0000) by (nonlinear_arith)
        requires
            r == n as int * 0x1_0000_0000,
    ;
    lemma_fundamental_div_mod_converse(abs(r), 0x1_0000_0000, abs(n as int), 0);
    assert(crate::format::shortest_fraction(x) == Seq::<char>::empty());
    if n < 0 {
        assert(r < 0) by (nonlinear_arith)
            requires
                r == n as int * 0x1_0000_0000,
                n < 0,
        ;
        assert(format_spec(x, None) =~= int_text(n as int));
    } else {
        assert(r >= 0) by (nonlinear_arith)
            requires
                r == n as int * 0x1_0000_0000,
                n >= 0,
        ;
        assert(format_spec(x, None) =~= int_text(n as int));
    }
    lemma_integer_text(n);
}

/// A product is the exact product of the raw values scaled down by 2^32 and
/// rounded toward minus infinity: when it fits, it lies below the exact value
/// by less than one unit of the last place.
pub proof fn lemma_mul_within_one_unit(a: Fixed, b: Fixed)
    requires
        i64::MIN <= (a.0 * b.0) / (ONE_RAW as int) <= i64::MAX,
    ensures
        0 <= a.0 * b.0 - a.spec_mul(b).0 * (ONE_RAW as int) < (ONE_RAW as int),
{
    let q = (a.0 * b.0) / (ONE_RAW as int);
    lemma_wrap64_small(q);
    lemma_fundamental_div_mod(a.0 * b.0, ONE_RAW as int);
}

/// A quotient is the scaled dividend divided by the divisor and rounded toward
/// zero: when it fits, multiplying it back misses the scaled dividend by less
/// than the divisor.
pub proof fn lemma_div_within_divisor(a: Fixed, b: Fixed)
    requires
        b.0 != 0,
        i64::MIN <= trunc_div(a.0 * ONE_RAW as int, b.0 as int) <= i64::MAX,
    ensures
        abs(a.0 * ONE_RAW as int - a.spec_div(b).0 * b.0) < abs(b.0 as int),
{
    let x = a.0 * ONE_RAW as int;
    let y = b.0 as int;
    let q = trunc_div(x, y);
    lemma_wrap64_small(q);
    let ax = abs(x);
    let ay = abs(y);
    lemma_fundamental_div_mod(ax, ay);
    let k = ax / ay;
    let r = ax % ay;
    assert(a.spec_div(b).0 == q);
    assert(abs(x - q * y) == r) by (nonlinear_arith)
        requires
            ax == ay * k + r,
            ax == (if x < 0 { -x } else { x }),
            ay == (if y < 0 { -y } else { y }),
            q == (if (x < 0) == (y < 0) { k } else { -k }),
            abs(x - q * y) == (if x - q * y < 0 { -(x - q * y) } else { x - q * y }),
            0 <= r,
    ;
}

/// Once the fraction of a literal is full, further digits of its base and `_`
/// change nothing: the literal is truncated, not rejected.
pub proof fn lemma_full_fraction_ignores_digits(s: Seq<char>, t: Seq<char>)
    requires
        run(s) is Ok,
        run(s)->Ok_0.lexer == Lexer::ReadingFractionFull,
        forall|k: int|
            0 <= k < t.len() ==> t[k] == '_' || digit_in(t[k], run(s)->Ok_0.literal.base) is Some,
    ensures
        run(s + t) == run(s),
        evaluate(s + t) == evaluate(s),
    decreases t.len(),
{
    if t.len() == 0 {
        assert(s + t =~= s);
    } else {
        let t0 = t.drop_last();
        lemma_full_fraction_ignores_digits(s, t0);
        assert((s + t).drop_last() =~= s + t0);
        assert((s + t).last() == t.last());
    }
}

/// A decimal fraction is full after its tenth digit.
pub proof fn lemma_tenth_decimal_digit_fills(s: Seq<char>, c: char)
    requires
        run(s) is Ok,
        run(s)->Ok_0.lexer == Lexer::ReadingFraction,
        run(s)->Ok_0.literal.base == 10,
        run(s)->Ok_0.literal.digits == 9,
        '0' <= c <= '9',
    ensures
        run(s.push(c)) is Ok,
        run(s.push(c))->Ok_0.lexer == Lexer::ReadingFractionFull,
        run(s.push(c))->Ok_0.literal.digits == 10,
        run(s.push(c))->Ok_0.literal.base == 10,
{
    assert(s.push(c).drop_last() =~= s);
}

/// Each index one place later.
pub open spec fn shifted(p: Seq<usize>) -> Seq<usize>
    decreases p.len(),
{
    if p.len() == 0 {
        Seq::empty()
    } else {
        shifted(p.drop_last()).push((p.last() + 1) as usize)
    }
}

/// The state inside one extra pair of parentheses that corresponds to `mi`:
/// one more depth below the others, and every `(` one character later.
pub open spec fn nested(mi: EvalState, mo: EvalState) -> bool {
    &&& mi.counts.len() >= 1
    &&& mi.counts.len() == mi.parens.len() + 1
    &&& mo == EvalState {
        counts: seq![0usize] + mi.counts,
        parens: seq![0usize] + shifted(mi.parens),
        ..mi
    }
}

proof fn lemma_nested_seqs(c: Seq<usize>, p: Seq<usize>, x: usize, i: usize)
    requires
        c.len() >= 1,
    ensures
        (seq![0usize] + c).last() == c.last(),
        (seq![0usize] + c).len() == c.len() + 1,
        (seq![0usize] + c).drop_last() == seq![0usize] + c.drop_last(),
        (seq![0usize] + c).push(x) == seq![0usize] + c.push(x),
        (seq![0usize] + c).drop_last().push(x) == seq![0usize] + c.drop_last().push(x),
        (seq![0usize] + shifted(p)).push((i + 1) as usize) == seq![0usize] + shifted(p.push(i)),
        p.len() >= 1 ==> (seq![0usize] + shifted(p)).drop_last() == seq![0usize] + shifted(
            p.drop_last(),
        ),
{
    assert((seq![0usize] + c).drop_last() =~= seq![0usize] + c.drop_last());
    assert((seq![0usize] + c).push(x) =~= seq![0usize] + c.push(x));
    assert((seq![0usize] + c).drop_last().push(x) =~= seq![0usize] + c.drop_last().push(x));
    assert(p.push(i).drop_last() =~= p);
    assert((seq![0usize] + shifted(p)).push((i + 1) as usize) =~= seq![0usize] + shifted(
        p.push(i),
    ));
    if p.len() >= 1 {
        assert((seq![0usize] + shifted(p)).drop_last() =~= seq![0usize] + shifted(p.drop_last()));
    }
}

#[verifier::rlimit(100)]
proof fn lemma_scan_first_nested(mi: EvalState, mo: EvalState, c: char, i: usize)
    requires
        nested(mi, mo),
        scan_first(mi, c, i) is Ok,
    ensures
        scan_first(mo, c, (i + 1) as usize) is Ok,
        nested(scan_first(mi, c, i)->Ok_0, scan_first(mo, c, (i + 1) as usize)->Ok_0),
{
    lemma_nested_seqs(mi.counts, mi.parens, 1, i);
    lemma_nested_seqs(mi.counts, mi.parens, (mi.counts.last() + 1) as usize, i);
}

#[verifier::rlimit(100)]
proof fn lemma_scan_second_nested(mi: EvalState, mo: EvalState, c: char, i: usize)
    requires
        nested(mi, mo),
        scan_second(mi, c, i) is Ok,
    ensures
        scan_second(mo, c, (i + 1) as usize) is Ok,
        nested(scan_second(mi, c, i)->Ok_0, scan_second(mo, c, (i + 1) as usize)->Ok_0),
{
    lemma_nested_seqs(mi.counts, mi.parens, 0, i);
}

proof fn lemma_step_nested(mi: EvalState, mo: EvalState, c: char, i: usize)
    requires
        nested(mi, mo),
        step(mi, c, i) is Ok,
    ensures
        step(mo, c, (i + 1) as usize) is Ok,
        nested(step(mi, c, i)->Ok_0, step(mo, c, (i + 1) as usize)->Ok_0),
{
    lemma_scan_first_nested(mi, mo, c, i);
    let m1 = scan_first(mi, c, i)->Ok_0;
    if !is_space(c) {
        lemma_scan_second_nested(m1, scan_first(mo, c, (i + 1) as usize)->Ok_0, c, i);
    }
}

/// Every prefix of an expression runs inside one extra `(` as it runs alone.
proof fn lemma_run_nested(e: Seq<char>, j: int)
    requires
        0 <= j <= e.len(),
        e.len() < usize::MAX,
        run(e.take(j)) is Ok,
    ensures
        run(seq!['('] + e.take(j)) is Ok,
        nested(run(e.take(j))->Ok_0, run(seq!['('] + e.take(j))->Ok_0),
    decreases j,
{
    if j == 0 {
        assert(e.take(0) =~= Seq::<char>::empty());
        assert(seq!['('] + e.take(0) =~= seq!['(']);
        reveal_with_fuel(run, 2);
        assert(seq!['('].drop_last() =~= Seq::<char>::empty());
        assert(seq![0usize] + seq![0usize] =~= seq![0usize].push(0));
        assert(seq![0usize] + Seq::<usize>::empty() =~= Seq::<usize>::empty().push(0));
    } else {
        if run(e.take(j - 1)) is Err {
            lemma_run_failed(e, j - 1, j);
        }
        lemma_run_nested(e, j - 1);
        assert(e.take(j).drop_last() =~= e.take(j - 1));
        assert((seq!['('] + e.take(j)).drop_last() =~= seq!['('] + e.take(j - 1));
        lemma_step_nested(
            run(e.take(j - 1))->Ok_0,
            run(seq!['('] + e.take(j - 1))->Ok_0,
            e[j - 1],
            (j - 1) as usize,
        );
    }
}

/// Wrapping an expression that has a value in parentheses does not change the value.
#[verifier::rlimit(100)]
pub proof fn lemma_parentheses_transparent(e: Seq<char>)
    requires
        evaluate(e) is Ok,
        e.len() + 2 <= usize::MAX,
    ensures
        evaluate(seq!['('] + e + seq![')']) == evaluate(e),
{
    assert(e.take(e.len() as int) =~= e);
    lemma_run_nested(e, e.len() as int);
    let mi = run(e)->Ok_0;
    let s2 = seq!['('] + e + seq![')'];
    assert(s2.drop_last() =~= seq!['('] + e);
    assert(s2.last() == ')');
    lemma_nested_seqs(mi.counts, mi.parens, 0, 0);
    assert(seq![0usize] + Seq::<usize>::empty() =~= seq![0usize]);
}

/// Whether every character of `g` is a decimal digit.
pub open spec fn all_decimal(g: Seq<char>) -> bool {
    forall|k: int| 0 <= k < g.len() ==> '0' <= #[trigger] g[k] <= '9'
}

/// The integer that the decimal digits `g` spell.
pub open spec fn digits_value(g: Seq<char>) -> nat
    decreases g.len(),
{
    if g.len() == 0 {
        0
    } else {
        digits_value(g.drop_last()) * 10 + (g.last() as u32 - '0' as u32) as nat
    }
}

proof fn lemma_digits_value_bound(g: Seq<char>)
    requires
        all_decimal(g),
    ensures
        digits_value(g) < pow(10, g.len()),
    decreases g.len(),
{
    reveal_with_fuel(pow, 2);
    if g.len() > 0 {
        let h = g.drop_last();
        assert(all_decimal(h)) by {
            assert forall|k: int| 0 <= k < h.len() implies '0' <= #[trigger] h[k] <= '9' by {
                assert(h[k] == g[k]);
            }
        }
        lemma_digits_value_bound(h);
        assert('0' <= g[g.len() - 1] <= '9');
        assert(digits_value(h) * 10 + 9 < pow(10, g.len())) by (nonlinear_arith)
            requires
                digits_value(h) < pow(10, h.len()),
                pow(10, g.len()) == 10 * pow(10, h.len()),
        ;
    }
}

/// Reading the fraction digits `g` (at most nine) after the point.
proof fn lemma_run_fraction(p: Seq<char>, m: EvalState, g: Seq<char>)
    requires
        run(p) == Ok::<EvalState, crate::parser::EvalError>(m),
        m.lexer == Lexer::ReadingFraction,
        m.literal.base == 10,
        m.literal.digits == 0,
        m.literal.fraction == 0,
        m.literal.scale == 1,
        all_decimal(g),
        g.len() <= 9,
    ensures
        run(p + g) == Ok::<EvalState, crate::parser::EvalError>(
            EvalState {
                literal: Literal {
                    fraction: digits_value(g) as u64,
                    digits: g.len() as u32,
                    scale: pow(10, g.len()) as u64,
                    ..m.literal
                },
                ..m
            },
        ),
    decreases g.len(),
{
    reveal_with_fuel(pow, 2);
    if g.len() == 0 {
        assert(p + g =~= p);
    } else {
        let h = g.drop_last();
        assert(all_decimal(h)) by {
            assert forall|k: int| 0 <= k < h.len() implies '0' <= #[trigger] h[k] <= '9' by {
                assert(h[k] == g[k]);
            }
        }
        lemma_run_fraction(p, m, h);
        lemma_digits_value_bound(g);
        lemma_digits_value_bound(h);
        vstd::arithmetic::power::lemma_pow_increases(10, g.len(), 9);
        vstd::arithmetic::power::lemma_pow_increases(10, h.len(), 9);
        reveal_with_fuel(pow, 10);
        assert((p + g).drop_last() =~= p + h);
        let c = g.last();
        assert('0' <= c <= '9');
        lemma_digit_char((c as u32 - '0' as u32) as int);
        assert(digit_char((c as u32 - '0' as u32) as int) == c);
    }
}

/// The text of a decimal literal: an optional `-`, the whole digits `wd`, a
/// point and the fraction digits `g`.
pub open spec fn decimal_text(neg: bool, wd: Seq<char>, g: Seq<char>) -> Seq<char> {
    let sign: Seq<char> = if neg {
        seq!['-']
    } else {
        Seq::empty()
    };
    sign + wd.push('.') + g
}

/// The usual digits of a number spell it.
proof fn lemma_decimal_digits_value(w: nat)
    ensures
        all_decimal(decimal_digits(w)),
        decimal_digits(w).len() >= 1,
        digits_value(decimal_digits(w)) == w,
    decreases w,
{
    let d = decimal_digits(w);
    lemma_digit_char((w % 10) as int);
    if w < 10 {
        assert(d.drop_last() =~= Seq::<char>::empty());
        assert(digits_value(d.drop_last()) == 0);
    } else {
        lemma_decimal_digits_value(w / 10);
        assert((w / 10) * 10 + w % 10 == w);
        assert(d.drop_last() == decimal_digits(w / 10));
        assert forall|k: int| 0 <= k < d.len() implies '0' <= #[trigger] d[k] <= '9' by {
            if k < d.len() - 1 {
                assert(d[k] == decimal_digits(w / 10)[k]);
            }
        }
    }
}

/// Reading whole digits, leading zeros included, after an optional sign.
proof fn lemma_run_whole(p: Seq<char>, m: EvalState, wd: Seq<char>)
    requires
        run(p) == Ok::<EvalState, crate::parser::EvalError>(m),
        m.lexer == Lexer::ExpectingNumber || m.lexer == Lexer::ReadingSign,
        m.literal == (Literal { neg: m.literal.neg, ..fresh_literal() }),
        all_decimal(wd),
        wd.len() >= 1,
        digits_value(wd) < 0x1_0000_0000,
    ensures
        run(p + wd) is Ok,
        run(p + wd)->Ok_0.lexer == Lexer::ReadingPrefix || run(p + wd)->Ok_0.lexer
            == Lexer::ReadingWhole,
        run(p + wd)->Ok_0.lexer == Lexer::ReadingPrefix ==> digits_value(wd) == 0,
        run(p + wd)->Ok_0 == (EvalState {
            lexer: run(p + wd)->Ok_0.lexer,
            literal: Literal { whole: digits_value(wd) as u32, ..m.literal },
            ..m
        }),
    decreases wd.len(),
{
    let c = wd.last();
    assert('0' <= wd[wd.len() - 1] <= '9');
    lemma_digit_char((c as u32 - '0' as u32) as int);
    assert(digit_char((c as u32 - '0' as u32) as int) == c);
    assert((p + wd).drop_last() =~= p + wd.drop_last());
    let d = (c as u32 - '0' as u32) as int;
    assert(digits_value(wd) == digits_value(wd.drop_last()) * 10 + d);
    if wd.len() == 1 {
        assert(wd.drop_last() =~= Seq::<char>::empty());
        assert(p + wd.drop_last() =~= p);
        assert(digits_value(wd.drop_last()) == 0);
    } else {
        let h = wd.drop_last();
        assert((digits_value(h) * 10 + d) % 0x1_0000_0000 == digits_value(wd));
        assert(all_decimal(h)) by {
            assert forall|k: int| 0 <= k < h.len() implies '0' <= #[trigger] h[k] <= '9' by {
                assert(h[k] == wd[k]);
            }
        }
        lemma_run_whole(p, m, h);
    }
}

/// Reading an optional `-`, whole digits and a point leaves the scanner in the fraction.
proof fn lemma_run_point(neg: bool, wd: Seq<char>)
    requires
        all_decimal(wd),
        wd.len() >= 1,
        digits_value(wd) < 0x1_0000_0000,
    ensures
        run(decimal_text(neg, wd, Seq::empty())) == Ok::<EvalState, crate::parser::EvalError>(
            EvalState {
                lexer: Lexer::ReadingFraction,
                literal: Literal { whole: digits_value(wd) as u32, neg: neg, ..fresh_literal() },
                ..initial_state()
            },
        ),
{
    let sign: Seq<char> = if neg {
        seq!['-']
    } else {
        Seq::empty()
    };
    let t = decimal_text(neg, wd, Seq::empty());
    assert(t =~= (sign + wd).push('.'));
    assert(t.drop_last() =~= sign + wd);
    let m0 = EvalState {
        lexer: if neg {
            Lexer::ReadingSign
        } else {
            Lexer::ExpectingNumber
        },
        literal: Literal { neg: neg, ..fresh_literal() },
        ..initial_state()
    };
    assert(run(sign) == Ok::<EvalState, crate::parser::EvalError>(m0)) by {
        reveal_with_fuel(run, 2);
        if neg {
            assert(sign.drop_last() =~= Seq::<char>::empty());
            assert(run(sign) == step(initial_state(), '-', 0));
        }
    }
    lemma_run_whole(sign, m0, wd);
}

/// The value of the text `[-]w.g`, for a fraction of at most nine digits.
proof fn lemma_evaluate_decimal(neg: bool, wd: Seq<char>, g: Seq<char>)
    requires
        all_decimal(wd),
        wd.len() >= 1,
        digits_value(wd) < 0x8000_0000,
        all_decimal(g),
        g.len() <= 9,
    ensures
        ({
            let mag = digits_value(wd) * 0x1_0000_0000 + (digits_value(g) as int * 0x1_0000_0000) / pow(
                10,
                g.len(),
            );
            evaluate(decimal_text(neg, wd, g)) == Ok::<Fixed, crate::parser::EvalError>(
                Fixed((if neg { -mag } else { mag }) as i64),
            )
        }),
        0 <= (digits_value(g) as int * 0x1_0000_0000) / pow(10, g.len()) < 0x1_0000_0000,
{
    let w = digits_value(wd);
    let p = decimal_text(neg, wd, Seq::empty());
    assert(decimal_text(neg, wd, g) =~= p + g);
    lemma_run_point(neg, wd);
    vstd::arithmetic::power::lemma_pow0(10);
    lemma_run_fraction(p, run(p)->Ok_0, g);
    lemma_digits_value_bound(g);
    vstd::arithmetic::power::lemma_pow_increases(10, g.len(), 9);
    reveal_with_fuel(pow, 10);
    let f = digits_value(g) as int;
    let sc = pow(10, g.len());
    let b = (f * 0x1_0000_0000) / sc;
    assert(b < 0x1_0000_0000) by {
        vstd::arithmetic::div_mod::lemma_div_by_multiple_is_strongly_ordered(
            f * 0x1_0000_0000,
            sc * 0x1_0000_0000,
            0x1_0000_0000,
            sc,
        );
        vstd::arithmetic::div_mod::lemma_div_multiples_vanish(0x1_0000_0000, sc);
        assert(f * 0x1_0000_0000 < sc * 0x1_0000_0000) by (nonlinear_arith)
            requires
                f < sc,
        ;
    }
    assert(0 <= b) by {
        vstd::arithmetic::div_mod::lemma_div_pos_is_pos(f * 0x1_0000_0000, sc);
    }
    lemma_wrap64_small(w * 0x1_0000_0000 + b);
    lemma_wrap64_small(-(w * 0x1_0000_0000 + b));
}

/// Scaling a numerator and denominator alike does not change the quotient.
proof fn lemma_div_scale(x: int, p: int, m: int)
    requires
        x >= 0,
        p > 0,
        m > 0,
    ensures
        (x * m) / (p * m) == x / p,
{
    lemma_fundamental_div_mod(x, p);
    let t = x / p;
    let r = x % p;
    assert(x * m == t * (p * m) + r * m) by (nonlinear_arith)
        requires
            x == p * t + r,
    ;
    assert(0 <= r * m < p * m) by (nonlinear_arith)
        requires
            0 <= r < p,
            m > 0,
    ;
    lemma_fundamental_div_mod_converse(x * m, p * m, t, r * m);
}

proof fn lemma_padded(v: nat, w: nat)
    ensures
        padded_digits(v, w).len() == w,
        all_decimal(padded_digits(v, w)),
        digits_value(padded_digits(v, w)) == v % (pow(10, w) as nat),
    decreases w,
{
    reveal_with_fuel(pow, 2);
    vstd::arithmetic::power::lemma_pow_positive(10, w);
    if w == 0 {
        assert(v % 1 == 0);
    } else {
        let w1 = (w - 1) as nat;
        lemma_padded(v / 10, w1);
        vstd::arithmetic::power::lemma_pow_positive(10, w1);
        let t = padded_digits(v, w);
        lemma_digit_char((v % 10) as int);
        assert(t.drop_last() == padded_digits(v / 10, w1));
        assert forall|k: int| 0 <= k < t.len() implies '0' <= #[trigger] t[k] <= '9' by {
            if k < t.len() - 1 {
                assert(t[k] == padded_digits(v / 10, w1)[k]);
            }
        }
        vstd::arithmetic::div_mod::lemma_mod_breakdown(v as int, 10, pow(10, w1));
    }
}

proof fn lemma_strip(s: Seq<char>)
    requires
        all_decimal(s),
    ensures
        strip_zeros(s).len() <= s.len(),
        strip_zeros(s) == s.take(strip_zeros(s).len() as int),
        all_decimal(strip_zeros(s)),
        digits_value(strip_zeros(s)) * pow(10, (s.len() - strip_zeros(s).len()) as nat)
            == digits_value(s),
    decreases s.len(),
{
    reveal_with_fuel(pow, 2);
    if s.len() > 0 && s.last() == '0' {
        let h = s.drop_last();
        assert(all_decimal(h)) by {
            assert forall|k: int| 0 <= k < h.len() implies '0' <= #[trigger] h[k] <= '9' by {
                assert(h[k] == s[k]);
            }
        }
        lemma_strip(h);
        let t = strip_zeros(h);
        assert(t == s.take(t.len() as int)) by {
            assert(s.take(t.len() as int) =~= h.take(t.len() as int));
        }
        let e = (h.len() - t.len()) as nat;
        assert(pow(10, (s.len() - t.len()) as nat) == 10 * pow(10, e));
        assert(digits_value(t) * (10 * pow(10, e)) == (digits_value(t) * pow(10, e)) * 10)
            by (nonlinear_arith);
    } else {
        vstd::arithmetic::power::lemma_pow0(10);
        assert(s.take(s.len() as int) =~= s);
    }
}

/// A value read from a decimal text with at most nine fraction digits is
/// formatted, without a precision, to a text that evaluates back to the same bits.
pub proof fn lemma_decimal_format_round_trip(neg: bool, wd: Seq<char>, g: Seq<char>)
    requires
        all_decimal(wd),
        wd.len() >= 1,
        digits_value(wd) < 0x8000_0000,
        all_decimal(g),
        g.len() <= 9,
    ensures
        evaluate(decimal_text(neg, wd, g)) is Ok,
        evaluate(format_spec(evaluate(decimal_text(neg, wd, g))->Ok_0, None)) == evaluate(
            decimal_text(neg, wd, g),
        ),
{
    let w = digits_value(wd);
    lemma_evaluate_decimal(neg, wd, g);
    lemma_decimal_digits_value(w);
    lemma_digits_value_bound(g);
    let d = g.len();
    let f = digits_value(g) as int;
    let b = (f * 0x1_0000_0000) / pow(10, d);
    let mag = w * 0x1_0000_0000 + b;
    let x = Fixed((if neg { -mag } else { mag }) as i64);
    let m = pow(10, (9 - d) as nat);
    let n = f * m;
    vstd::arithmetic::power::lemma_pow_positive(10, d);
    vstd::arithmetic::power::lemma_pow_positive(10, (9 - d) as nat);
    vstd::arithmetic::power::lemma_pow_adds(10, d, (9 - d) as nat);
    reveal_with_fuel(pow, 10);
    assert(pow(10, 9) == 1_000_000_000);
    lemma_div_scale(f * 0x1_0000_0000, pow(10, d), m);
    assert(f * 0x1_0000_0000 * m == n * 0x1_0000_0000) by (nonlinear_arith)
        requires
            n == f * m,
    ;
    assert(b == (n * 0x1_0000_0000) / 1_000_000_000);
    assert(0 <= b < 0x1_0000_0000 && abs(x.0 as int) == mag);
    assert(n < 1_000_000_000) by (nonlinear_arith)
        requires
            f < pow(10, d),
            n == f * m,
            pow(10, d) * m == 1_000_000_000,
            m > 0,
    ;
    assert(0 <= n) by (nonlinear_arith)
        requires
            f >= 0,
            m > 0,
            n == f * m,
    ;
    lemma_fundamental_div_mod_converse(mag, 0x1_0000_0000, w as int, b);
    lemma_fundamental_div_mod(n * 0x1_0000_0000, 1_000_000_000);
    let r = (n * 0x1_0000_0000) % 1_000_000_000;
    assert(b * 1_000_000_000 + 0x8000_0000 == n * 0x1_0000_0000 + (0x8000_0000 - r));
    lemma_fundamental_div_mod_converse(
        b * 1_000_000_000 + 0x8000_0000,
        0x1_0000_0000,
        n,
        0x8000_0000 - r,
    );
    assert(crate::format::billionths(x) == n);
    let sign: Seq<char> = if neg {
        seq!['-']
    } else {
        Seq::empty()
    };
    if n == 0 {
        assert(f == 0) by (nonlinear_arith)
            requires
                n == f * m,
                m > 0,
                n == 0,
        ;
        if neg && w == 0 {
            assert(x.0 == 0);
            assert(format_spec(x, None) =~= int_text(0));
            lemma_integer_text(0);
        } else {
            assert(format_spec(x, None) =~= int_text(if neg { -w } else { w as int }));
            lemma_integer_text((if neg { -w } else { w as int }) as i32);
            assert((if neg { -w } else { w as int }) * 0x1_0000_0000 == if neg { -mag } else { mag });
        }
    } else {
        let pd = padded_digits(n as nat, 9);
        lemma_padded(n as nat, 9);
        vstd::arithmetic::div_mod::lemma_small_mod(n as nat, 1_000_000_000);
        lemma_strip(pd);
        let g2 = strip_zeros(pd);
        let d2 = g2.len();
        let m2 = pow(10, (9 - d2) as nat);
        let f2 = digits_value(g2) as int;
        assert(b > 0);
        assert(format_spec(x, None) =~= decimal_text(neg, decimal_digits(w), g2));
        lemma_evaluate_decimal(neg, decimal_digits(w), g2);
        vstd::arithmetic::power::lemma_pow_positive(10, d2);
        vstd::arithmetic::power::lemma_pow_positive(10, (9 - d2) as nat);
        vstd::arithmetic::power::lemma_pow_adds(10, d2, (9 - d2) as nat);
        lemma_div_scale(f2 * 0x1_0000_0000, pow(10, d2), m2);
        assert(f2 * 0x1_0000_0000 * m2 == n * 0x1_0000_0000) by (nonlinear_arith)
            requires
                n == f2 * m2,
        ;
    }
}

/// A decimal literal with more than ten fraction digits has the value of the
/// literal cut after its tenth fraction digit.
pub proof fn lemma_long_fraction_truncated(neg: bool, wd: Seq<char>, f: Seq<char>, t: Seq<char>)
    requires
        all_decimal(wd),
        wd.len() >= 1,
        digits_value(wd) < 0x1_0000_0000,
        all_decimal(f),
        f.len() == 10,
        all_decimal(t),
    ensures
        evaluate(decimal_text(neg, wd, f) + t) == evaluate(decimal_text(neg, wd, f)),
{
    let p = decimal_text(neg, wd, Seq::empty());
    let f9 = f.take(9);
    assert(all_decimal(f9)) by {
        assert forall|k: int| 0 <= k < f9.len() implies '0' <= #[trigger] f9[k] <= '9' by {
            assert(f9[k] == f[k]);
        }
    }
    lemma_run_point(neg, wd);
    vstd::arithmetic::power::lemma_pow0(10);
    lemma_run_fraction(p, run(p)->Ok_0, f9);
    assert(p + f =~= (p + f9).push(f[9]));
    assert('0' <= f[9] <= '9');
    lemma_tenth_decimal_digit_fills(p + f9, f[9]);
    assert(decimal_text(neg, wd, f) =~= p + f);
    assert forall|k: int| 0 <= k < t.len() implies t[k] == '_' || digit_in(
        t[k],
        run(p + f)->Ok_0.literal.base,
    ) is Some by {
        assert('0' <= t[k] <= '9');
    }
    lemma_full_fraction_ignores_digits(p + f, t);
}

} // verus!
