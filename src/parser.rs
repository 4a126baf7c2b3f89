//! The evaluator: one left-to-right pass over the characters that reads
//! literals, recognises operators and applies them by precedence, with no syntax tree.
//!
//! Pending operators sit on one stack. For each open parenthesis depth (depth 0
//! included) a count records how many of them belong to that depth. Before a new
//! operator joins, the pending operators of its depth that bind at least as
//! tightly are applied, top first; when the depth closes, all of its pending
//! operators are applied.
use vstd::prelude::*;
use crate::fixed::Fixed;
use crate::literal::{
    Literal, fresh_literal, literal_wf, max_fraction_digits, digit_in, with_whole_digit,
    with_fraction_digit, fraction_is_full, literal_value, to_digit,
};
use vstd::string::StrSliceExecFns;
use vstd::std_specs::iter::IteratorSpec;
use crate::ops::{Op, apply_op, apply_top, divides_by_zero, precedence, spec_precedence};

verus! {

broadcast use vstd::string::next_postcondition, vstd::string::axiom_spec_iter;

/// Why an expression has no value.
#[derive(Clone, Copy, Debug, PartialEq, Eq, Structural)]
pub enum EvalError {
    /// The character at this index fits no transition of the scanner.
    UnexpectedChar(char, usize),
    /// A `)` with no open `(`, or the outermost `(` left open at the end.
    UnmatchedParens(char, usize),
    /// The input, of this many characters, ended inside a literal sign, an operator or
    /// where an operand was expected.
    EndOfExpr(usize),
    /// A division or remainder by zero.
    DivisionByZero,
}

/// What the scanner is doing.
#[derive(Clone, Copy, Debug, PartialEq, Eq, Structural)]
pub enum Lexer {
    ExpectingNumber,
    ExpectingOperator,
    /// After a leading sign: more signs may follow.
    ReadingSign,
    /// After a leading `0`: `b`, `o` or `x` may pick a base.
    ReadingPrefix,
    ReadingWhole,
    ReadingFraction,
    /// The fraction is full: further digits are read and dropped.
    ReadingFractionFull,
    /// After the first character of an operator.
    ReadingOperator,
    /// The second character of a two-character operator is still to be consumed.
    SkipChar,
}

/// The state of an evaluation between two characters.
pub struct EvalState {
    pub lexer: Lexer,
    pub literal: Literal,
    /// The first character of the operator being read.
    pub pending: char,
    pub values: Seq<Fixed>,
    pub ops: Seq<Op>,
    /// For each open depth, outermost first, how many pending operators belong to it.
    pub counts: Seq<usize>,
    /// The index of each open `(`, outermost first.
    pub parens: Seq<usize>,
}

pub open spec fn initial_state() -> EvalState {
    EvalState {
        lexer: Lexer::ExpectingNumber,
        literal: fresh_literal(),
        pending: ' ',
        values: Seq::empty(),
        ops: Seq::empty(),
        counts: seq![0usize],
        parens: Seq::empty(),
    }
}

pub open spec fn sum(s: Seq<usize>) -> int
    decreases s.len(),
{
    if s.len() == 0 {
        0
    } else {
        sum(s.drop_last()) + s.last()
    }
}

/// Whether the lexer state is inside a literal.
pub open spec fn reads_literal(l: Lexer) -> bool {
    l == Lexer::ReadingSign || l == Lexer::ReadingPrefix || l == Lexer::ReadingWhole
        || l == Lexer::ReadingFraction || l == Lexer::ReadingFractionFull
}

/// Whether an operand has been pushed that no operator has taken yet.
pub open spec fn operand_ready(l: Lexer) -> bool {
    l == Lexer::ExpectingOperator || l == Lexer::ReadingOperator
}

/// The invariant of the evaluation state.
pub open spec fn state_wf(m: EvalState) -> bool {
    &&& m.counts.len() >= 1
    &&& m.counts.len() == m.parens.len() + 1
    &&& sum(m.counts) == m.ops.len()
    &&& m.values.len() == m.ops.len() + if operand_ready(m.lexer) { 1int } else { 0int }
    &&& literal_wf(m.literal)
    &&& !reads_literal(m.lexer) ==> m.literal == fresh_literal()
    &&& (m.lexer == Lexer::ReadingSign || m.lexer == Lexer::ReadingPrefix) ==> m.literal == (
    Literal { neg: m.literal.neg, ..fresh_literal() })
    &&& m.lexer == Lexer::ReadingWhole ==> m.literal.digits == 0
    &&& m.lexer == Lexer::ReadingFraction ==> m.literal.digits < max_fraction_digits(
        m.literal.base,
    )
}

/// Applies `n` operators from the top of the stacks, each to the two top operands.
pub open spec fn apply_n(values: Seq<Fixed>, ops: Seq<Op>, n: nat) -> Result<
    (Seq<Fixed>, Seq<Op>),
    EvalError,
>
    decreases n,
{
    if n == 0 {
        Ok((values, ops))
    } else if divides_by_zero(ops.last(), values.last()) {
        Err(EvalError::DivisionByZero)
    } else {
        apply_n(
            values.drop_last().drop_last().push(
                apply_op(ops.last(), values[values.len() - 2], values.last()),
            ),
            ops.drop_last(),
            (n - 1) as nat,
        )
    }
}

/// Applying `n` operators takes `n` operators and `n` operands off.
pub proof fn lemma_apply_n_len(values: Seq<Fixed>, ops: Seq<Op>, n: nat)
    requires
        ops.len() >= n,
        values.len() >= n + 1,
    ensures
        apply_n(values, ops, n) matches Ok((v, o)) ==> v.len() == values.len() - n && o.len()
            == ops.len() - n && o == ops.subrange(0, ops.len() - n),
    decreases n,
{
    if n > 0 && !divides_by_zero(ops.last(), values.last()) {
        let v2 = values.drop_last().drop_last().push(
            apply_op(ops.last(), values[values.len() - 2], values.last()),
        );
        lemma_apply_n_len(v2, ops.drop_last(), (n - 1) as nat);
        assert(ops.drop_last().subrange(0, ops.len() - n) == ops.subrange(0, ops.len() - n));
    }
    if n == 0 {
        assert(ops.subrange(0, ops.len() as int) == ops);
    }
}

/// The state after the literal that was being read is pushed as an operand.
pub open spec fn push_literal(m: EvalState) -> EvalState {
    EvalState {
        lexer: Lexer::ExpectingOperator,
        literal: fresh_literal(),
        values: m.values.push(literal_value(m.literal)),
        ..m
    }
}

/// The operator that `first` followed by `second` stands for, and whether it
/// takes both characters.
pub open spec fn operator_of(first: char, second: char) -> Option<(Op, bool)> {
    if first == '+' {
        Some((Op::Add, false))
    } else if first == '-' {
        Some((Op::Sub, false))
    } else if first == '*' {
        Some((Op::Mul, false))
    } else if first == '/' {
        Some((Op::Div, false))
    } else if first == '%' {
        Some((Op::Mod, false))
    } else if first == '&' {
        Some((Op::And, false))
    } else if first == '|' {
        Some((Op::Or, false))
    } else if first == '^' {
        Some((Op::Xor, false))
    } else if first == '<' && second == '<' {
        Some((Op::Shl, true))
    } else if first == '>' && second == '>' {
        Some((Op::Shr, true))
    } else {
        None
    }
}

/// Whether `c` can start an operator.
pub open spec fn is_op_char(c: char) -> bool {
    c == '+' || c == '-' || c == '*' || c == '/' || c == '%' || c == '|' || c == '&' || c == '^'
        || c == '>' || c == '<'
}

/// The characters with the Unicode property White_Space.
pub open spec fn is_space(c: char) -> bool {
    let u = c as u32;
    (0x09 <= u && u <= 0x0D) || u == 0x20 || u == 0x85 || u == 0xA0 || u == 0x1680 || (0x2000
        <= u && u <= 0x200A) || u == 0x2028 || u == 0x2029 || u == 0x202F || u == 0x205F || u
        == 0x3000
}

/// Applies operators from the top of the stacks, at most `k` of them, while
/// the operator on top binds at least as tightly as precedence `p`. Gives the
/// stacks and how many of the `k` operators are left.
pub open spec fn reduce_for(values: Seq<Fixed>, ops: Seq<Op>, k: nat, p: i32) -> Result<
    (Seq<Fixed>, Seq<Op>, nat),
    EvalError,
>
    decreases k,
{
    if k == 0 || spec_precedence(ops.last()) < p {
        Ok((values, ops, k))
    } else if divides_by_zero(ops.last(), values.last()) {
        Err(EvalError::DivisionByZero)
    } else {
        reduce_for(
            values.drop_last().drop_last().push(
                apply_op(ops.last(), values[values.len() - 2], values.last()),
            ),
            ops.drop_last(),
            (k - 1) as nat,
            p,
        )
    }
}

/// Reducing takes as many operands off as operators.
pub proof fn lemma_reduce_for_len(values: Seq<Fixed>, ops: Seq<Op>, k: nat, p: i32)
    requires
        ops.len() >= k,
        values.len() >= k + 1,
    ensures
        reduce_for(values, ops, k, p) matches Ok((v, o, j)) ==> j <= k && v.len() == values.len()
            - (k - j) && o.len() == ops.len() - (k - j),
    decreases k,
{
    if k > 0 && spec_precedence(ops.last()) >= p && !divides_by_zero(ops.last(), values.last()) {
        let v2 = values.drop_last().drop_last().push(
            apply_op(ops.last(), values[values.len() - 2], values.last()),
        );
        lemma_reduce_for_len(v2, ops.drop_last(), (k - 1) as nat, p);
    }
}

/// Before an operator of precedence `p` joins its depth, exactly the pending
/// operators on top that bind at least as tightly as `p` are applied, and the
/// one left on top of the depth, if any, binds strictly looser.
pub proof fn lemma_reduce_for_climbs(values: Seq<Fixed>, ops: Seq<Op>, k: nat, p: i32)
    requires
        ops.len() >= k,
        values.len() >= k + 1,
    ensures
        reduce_for(values, ops, k, p) matches Ok((v, o, j)) ==> {
            &&& j <= k
            &&& o == ops.subrange(0, ops.len() - (k - j))
            &&& (j == 0 || spec_precedence(o.last()) < p)
            &&& forall|i: int|
                ops.len() - (k - j) <= i < ops.len() ==> spec_precedence(#[trigger] ops[i]) >= p
        },
    decreases k,
{
    if k == 0 || spec_precedence(ops.last()) < p {
        assert(ops.subrange(0, ops.len() as int) =~= ops);
    } else if !divides_by_zero(ops.last(), values.last()) {
        let v2 = values.drop_last().drop_last().push(
            apply_op(ops.last(), values[values.len() - 2], values.last()),
        );
        let o2 = ops.drop_last();
        lemma_reduce_for_climbs(v2, o2, (k - 1) as nat, p);
        if let Ok((v, o, j)) = reduce_for(values, ops, k, p) {
            assert(o2.subrange(0, o2.len() - (k - 1 - j)) =~= ops.subrange(0, ops.len() - (k - j)));
            assert forall|i: int| ops.len() - (k - j) <= i < ops.len() implies spec_precedence(
                #[trigger] ops[i],
            ) >= p by {
                if i < ops.len() - 1 {
                    assert(ops[i] == o2[i]);
                }
            }
        }
    }
}

/// Admits a new operator at the current depth: first the operators of this
/// depth that bind at least as tightly as it are applied, top first, so that
/// equal precedence goes left to right; then it joins the depth's pending operators.
pub open spec fn admit_operator(m: EvalState, op: Op) -> Result<EvalState, EvalError> {
    match reduce_for(m.values, m.ops, m.counts.last() as nat, spec_precedence(op)) {
        Ok((v, o, k)) => Ok(
            EvalState {
                values: v,
                ops: o.push(op),
                counts: m.counts.drop_last().push((k + 1) as usize),
                ..m
            },
        ),
        Err(e) => Err(e),
    }
}

/// The character `c` at index `i`, as seen by a state that reads a literal or an operator.
pub open spec fn scan_first(m: EvalState, c: char, i: usize) -> Result<EvalState, EvalError> {
    let l = m.literal;
    match m.lexer {
        Lexer::ReadingSign => if c == '+' {
            Ok(m)
        } else if c == '-' {
            Ok(EvalState { literal: Literal { neg: !l.neg, ..l }, ..m })
        } else if c == '.' {
            Ok(EvalState { lexer: Lexer::ReadingFraction, ..m })
        } else if c == '0' {
            Ok(EvalState { lexer: Lexer::ReadingPrefix, ..m })
        } else if '1' <= c && c <= '9' {
            Ok(
                EvalState {
                    lexer: Lexer::ReadingWhole,
                    literal: Literal { whole: (c as u32 - '0' as u32) as u32, ..l },
                    ..m
                },
            )
        } else {
            Err(EvalError::UnexpectedChar(c, i))
        },
        Lexer::ReadingPrefix => if c == 'b' {
            Ok(
                EvalState {
                    lexer: Lexer::ReadingWhole,
                    literal: Literal { base: 2, ..l },
                    ..m
                },
            )
        } else if c == 'o' {
            Ok(
                EvalState {
                    lexer: Lexer::ReadingWhole,
                    literal: Literal { base: 8, ..l },
                    ..m
                },
            )
        } else if c == 'x' {
            Ok(
                EvalState {
                    lexer: Lexer::ReadingWhole,
                    literal: Literal { base: 16, ..l },
                    ..m
                },
            )
        } else if c == '_' {
            Ok(EvalState { lexer: Lexer::ReadingWhole, ..m })
        } else if c == '.' {
            Ok(EvalState { lexer: Lexer::ReadingFraction, ..m })
        } else if '0' <= c && c <= '9' {
            Ok(
                EvalState {
                    lexer: Lexer::ReadingWhole,
                    literal: Literal { whole: (c as u32 - '0' as u32) as u32, ..l },
                    ..m
                },
            )
        } else {
            Ok(push_literal(m))
        },
        Lexer::ReadingWhole => if c == '_' {
            Ok(m)
        } else if c == '.' {
            Ok(EvalState { lexer: Lexer::ReadingFraction, ..m })
        } else {
            match digit_in(c, l.base) {
                Some(d) => Ok(EvalState { literal: with_whole_digit(l, d), ..m }),
                None => Ok(push_literal(m)),
            }
        },
        Lexer::ReadingFraction => if c == '_' {
            Ok(m)
        } else {
            match digit_in(c, l.base) {
                Some(d) => {
                    let l2 = with_fraction_digit(l, d);
                    Ok(
                        EvalState {
                            lexer: if fraction_is_full(l2) {
                                Lexer::ReadingFractionFull
                            } else {
                                Lexer::ReadingFraction
                            },
                            literal: l2,
                            ..m
                        },
                    )
                },
                None => Ok(push_literal(m)),
            }
        },
        Lexer::ReadingFractionFull => if c == '_' || digit_in(c, l.base) is Some {
            Ok(m)
        } else {
            Ok(push_literal(m))
        },
        Lexer::ReadingOperator => match operator_of(m.pending, c) {
            None => Err(EvalError::UnexpectedChar(c, i)),
            Some((op, two)) => match admit_operator(m, op) {
                Ok(m2) => Ok(
                    EvalState {
                        lexer: if two {
                            Lexer::SkipChar
                        } else {
                            Lexer::ExpectingNumber
                        },
                        ..m2
                    },
                ),
                Err(e) => Err(e),
            },
        },
        _ => Ok(m),
    }
}

/// The non-space character `c` at index `i`, as seen by a state that expects
/// an operand or an operator.
pub open spec fn scan_second(m: EvalState, c: char, i: usize) -> Result<EvalState, EvalError> {
    let l = m.literal;
    match m.lexer {
        Lexer::SkipChar => Ok(EvalState { lexer: Lexer::ExpectingNumber, ..m }),
        Lexer::ExpectingOperator => if c == ')' {
            if m.counts.len() == 1 {
                Err(EvalError::UnmatchedParens(c, i))
            } else {
                match apply_n(m.values, m.ops, m.counts.last() as nat) {
                    Ok((v, o)) => Ok(
                        EvalState {
                            values: v,
                            ops: o,
                            counts: m.counts.drop_last(),
                            parens: m.parens.drop_last(),
                            ..m
                        },
                    ),
                    Err(e) => Err(e),
                }
            }
        } else if is_op_char(c) {
            Ok(EvalState { lexer: Lexer::ReadingOperator, pending: c, ..m })
        } else {
            Err(EvalError::UnexpectedChar(c, i))
        },
        Lexer::ExpectingNumber => if c == '(' {
            Ok(EvalState { counts: m.counts.push(0), parens: m.parens.push(i), ..m })
        } else if c == '-' {
            Ok(
                EvalState {
                    lexer: Lexer::ReadingSign,
                    literal: Literal { neg: true, ..l },
                    ..m
                },
            )
        } else if c == '+' {
            Ok(EvalState { lexer: Lexer::ReadingSign, ..m })
        } else if c == '0' {
            Ok(EvalState { lexer: Lexer::ReadingPrefix, ..m })
        } else if c == '.' {
            Ok(EvalState { lexer: Lexer::ReadingFraction, ..m })
        } else if '1' <= c && c <= '9' {
            Ok(
                EvalState {
                    lexer: Lexer::ReadingWhole,
                    literal: Literal { whole: (c as u32 - '0' as u32) as u32, ..l },
                    ..m
                },
            )
        } else {
            Err(EvalError::UnexpectedChar(c, i))
        },
        _ => Ok(m),
    }
}

/// One character: first as the end or the continuation of what is being read,
/// then, unless it is white space, as the start of what comes next.
pub open spec fn step(m: EvalState, c: char, i: usize) -> Result<EvalState, EvalError> {
    match scan_first(m, c, i) {
        Ok(m1) => if is_space(c) {
            Ok(m1)
        } else {
            scan_second(m1, c, i)
        },
        Err(e) => Err(e),
    }
}

/// The state after the characters `s`, or the first error they meet.
pub open spec fn run(s: Seq<char>) -> Result<EvalState, EvalError>
    decreases s.len(),
{
    if s.len() == 0 {
        Ok(initial_state())
    } else {
        match run(s.drop_last()) {
            Ok(m) => step(m, s.last(), (s.len() - 1) as usize),
            Err(e) => Err(e),
        }
    }
}

/// The end of an input of `len` characters.
pub open spec fn finish(m: EvalState, len: usize) -> Result<Fixed, EvalError> {
    let m1 = if reads_literal(m.lexer) && m.lexer != Lexer::ReadingSign {
        push_literal(m)
    } else {
        m
    };
    if m1.lexer != Lexer::ExpectingOperator {
        Err(EvalError::EndOfExpr(len))
    } else if m1.counts.len() > 1 {
        Err(EvalError::UnmatchedParens('(', m1.parens[0]))
    } else {
        match apply_n(m1.values, m1.ops, m1.counts[0] as nat) {
            Ok((v, o)) => Ok(v[0]),
            Err(e) => Err(e),
        }
    }
}

/// The value of the expression `s`, or why it has none.
pub open spec fn evaluate(s: Seq<char>) -> Result<Fixed, EvalError> {
    match run(s) {
        Ok(m) => finish(m, s.len() as usize),
        Err(e) => Err(e),
    }
}

/// The state as a `Result`, so that it can be compared with what `step` gives.
pub open spec fn outcome(r: Result<(), EvalError>, m: EvalState) -> Result<EvalState, EvalError> {
    match r {
        Ok(_) => Ok(m),
        Err(e) => Err(e),
    }
}

proof fn lemma_sum_push(s: Seq<usize>, x: usize)
    ensures
        sum(s.push(x)) == sum(s) + x,
{
    assert(s.push(x).drop_last() =~= s);
}

proof fn lemma_sum_nonneg(s: Seq<usize>)
    ensures
        sum(s) >= 0,
    decreases s.len(),
{
    if s.len() > 0 {
        lemma_sum_nonneg(s.drop_last());
    }
}

/// Once a prefix of the input has failed, every longer prefix fails the same way.
pub(crate) proof fn lemma_run_failed(s: Seq<char>, j: int, k: int)
    requires
        0 <= j <= k <= s.len(),
        run(s.take(j)) is Err,
    ensures
        run(s.take(k)) == run(s.take(j)),
    decreases k - j,
{
    if k > j {
        lemma_run_failed(s, j, k - 1);
        assert(s.take(k).drop_last() =~= s.take(k - 1));
    }
}

/// Whether `c` is white space.
pub fn is_whitespace(c: char) -> (r: bool)
    ensures
        r == is_space(c),
{
    let u = c as u32;
    (0x09 <= u && u <= 0x0D) || u == 0x20 || u == 0x85 || u == 0xA0 || u == 0x1680 || (0x2000 <= u
        && u <= 0x200A) || u == 0x2028 || u == 0x2029 || u == 0x202F || u == 0x205F || u == 0x3000
}

/// Whether `c` can start an operator.
pub fn op_char(c: char) -> (r: bool)
    ensures
        r == is_op_char(c),
{
    c == '+' || c == '-' || c == '*' || c == '/' || c == '%' || c == '|' || c == '&' || c == '^'
        || c == '>' || c == '<'
}

/// The operator that `first` followed by `second` stands for, and whether it takes both.
pub fn recognize_operator(first: char, second: char) -> (r: Option<(Op, bool)>)
    ensures
        r == operator_of(first, second),
{
    match first {
        '+' => Some((Op::Add, false)),
        '-' => Some((Op::Sub, false)),
        '*' => Some((Op::Mul, false)),
        '/' => Some((Op::Div, false)),
        '%' => Some((Op::Mod, false)),
        '&' => Some((Op::And, false)),
        '|' => Some((Op::Or, false)),
        '^' => Some((Op::Xor, false)),
        '<' => if second == '<' {
            Some((Op::Shl, true))
        } else {
            None
        },
        '>' => if second == '>' {
            Some((Op::Shr, true))
        } else {
            None
        },
        _ => None,
    }
}

/// The evaluation state, with its stacks in vectors.
struct Evaluator {
    lexer: Lexer,
    literal: Literal,
    pending: char,
    values: Vec<Fixed>,
    ops: Vec<Op>,
    counts: Vec<usize>,
    parens: Vec<usize>,
}

impl View for Evaluator {
    type V = EvalState;

    closed spec fn view(&self) -> EvalState {
        EvalState {
            lexer: self.lexer,
            literal: self.literal,
            pending: self.pending,
            values: self.values@,
            ops: self.ops@,
            counts: self.counts@,
            parens: self.parens@,
        }
    }
}

impl Evaluator {
    fn new() -> (r: Evaluator)
        ensures
            r@ == initial_state(),
            state_wf(r@),
    {
        let r = Evaluator {
            lexer: Lexer::ExpectingNumber,
            literal: Literal::fresh(),
            pending: ' ',
            values: Vec::new(),
            ops: Vec::new(),
            counts: vec![0usize],
            parens: Vec::new(),
        };
        proof {
            assert(r.counts@ =~= seq![0usize]);
            assert(r.counts@.drop_last() =~= Seq::<usize>::empty());
            vstd::arithmetic::power::lemma_pow0(10);
            reveal_with_fuel(sum, 2);
        }
        r
    }

    /// Applies `n` operators from the top of the stacks.
    fn apply_run(&mut self, n: usize) -> (r: Result<(), EvalError>)
        requires
            old(self).ops.len() >= n,
            old(self).values.len() >= n + 1,
        ensures
            match apply_n(old(self)@.values, old(self)@.ops, n as nat) {
                Ok((v, o)) => r is Ok && final(self)@ == (EvalState {
                    values: v,
                    ops: o,
                    ..old(self)@
                }),
                Err(e) => r == Err::<(), EvalError>(e),
            },
    {
        let mut k = n;
        while k > 0
            invariant
                self.ops.len() >= k,
                self.values.len() >= k + 1,
                apply_n(old(self)@.values, old(self)@.ops, n as nat) == apply_n(
                    self.values@,
                    self.ops@,
                    k as nat,
                ),
                self.lexer == old(self).lexer,
                self.literal == old(self).literal,
                self.pending == old(self).pending,
                self.counts == old(self).counts,
                self.parens == old(self).parens,
            decreases k,
        {
            let top = self.ops[self.ops.len() - 1];
            let rhs = self.values[self.values.len() - 1];
            if (top == Op::Div || top == Op::Mod) && rhs.0 == 0 {
                return Err(EvalError::DivisionByZero);
            }
            apply_top(&mut self.ops, &mut self.values);
            k = k - 1;
        }
        Ok(())
    }

    /// Pushes the literal that was being read as an operand.
    fn push_literal(&mut self)
        requires
            literal_wf(old(self).literal),
        ensures
            final(self)@ == push_literal(old(self)@),
            literal_wf(final(self).literal),
    {
        proof {
            vstd::arithmetic::power::lemma_pow0(10);
        }
        let v = self.literal.value();
        self.values.push(v);
        self.literal = Literal::fresh();
        self.lexer = Lexer::ExpectingOperator;
    }

    /// Admits an operator at the current depth.
    fn push_operator(&mut self, op: Op) -> (r: Result<(), EvalError>)
        requires
            state_wf(old(self)@),
            old(self).lexer == Lexer::ReadingOperator,
            old(self).ops.len() < usize::MAX,
        ensures
            outcome(r, final(self)@) == admit_operator(old(self)@, op),
            r is Ok ==> final(self).values.len() == final(self).ops.len() && sum(
                final(self)@.counts,
            ) == final(self).ops.len() && final(self).ops.len() <= old(self).ops.len() + 1,
            r is Ok ==> final(self).counts.len() == old(self).counts.len() && final(self).parens@
                == old(self).parens@ && final(self).literal == old(self).literal,
    {
        let count = self.counts[self.counts.len() - 1];
        proof {
            lemma_sum_nonneg(self.counts@.drop_last());
        }
        let p = precedence(&op);
        let mut k = count;
        while k > 0 && precedence(&self.ops[self.ops.len() - 1]) >= p
            invariant
                k <= count,
                self.ops.len() == old(self).ops.len() - (count - k),
                self.values.len() == self.ops.len() + 1,
                old(self).ops.len() >= count,
                old(self).values.len() == old(self).ops.len() + 1,
                reduce_for(old(self)@.values, old(self)@.ops, count as nat, p) == reduce_for(
                    self.values@,
                    self.ops@,
                    k as nat,
                    p,
                ),
                self.lexer == old(self).lexer,
                self.literal == old(self).literal,
                self.pending == old(self).pending,
                self.counts == old(self).counts,
                self.parens == old(self).parens,
                count == old(self)@.counts.last(),
                p == spec_precedence(op),
            decreases k,
        {
            let top = self.ops[self.ops.len() - 1];
            let rhs = self.values[self.values.len() - 1];
            if (top == Op::Div || top == Op::Mod) && rhs.0 == 0 {
                return Err(EvalError::DivisionByZero);
            }
            apply_top(&mut self.ops, &mut self.values);
            k = k - 1;
        }
        self.ops.push(op);
        self.counts.pop();
        self.counts.push(k + 1);
        proof {
            lemma_sum_push(old(self)@.counts.drop_last(), (k + 1) as usize);
        }
        Ok(())
    }

    /// The character `c` at index `i`, as seen by a state that reads a literal or an operator.
    fn scan_first(&mut self, c: char, i: usize) -> (r: Result<(), EvalError>)
        requires
            state_wf(old(self)@),
            old(self).ops.len() < usize::MAX,
        ensures
            outcome(r, final(self)@) == scan_first(old(self)@, c, i),
            r is Ok ==> state_wf(final(self)@) && final(self).ops.len() <= old(self).ops.len() + 1,
    {
        match self.lexer {
            Lexer::ReadingSign => {
                if c == '+' {
                } else if c == '-' {
                    self.literal.neg = !self.literal.neg;
                } else if c == '.' {
                    self.lexer = Lexer::ReadingFraction;
                } else if c == '0' {
                    self.lexer = Lexer::ReadingPrefix;
                } else if '1' <= c && c <= '9' {
                    self.literal.whole = (c as u32) - ('0' as u32);
                    self.lexer = Lexer::ReadingWhole;
                } else {
                    return Err(EvalError::UnexpectedChar(c, i));
                }
            },
            Lexer::ReadingPrefix => {
                proof {
                    vstd::arithmetic::power::lemma_pow0(2);
                    vstd::arithmetic::power::lemma_pow0(8);
                    vstd::arithmetic::power::lemma_pow0(16);
                }
                if c == 'b' {
                    self.literal.base = 2;
                    self.lexer = Lexer::ReadingWhole;
                } else if c == 'o' {
                    self.literal.base = 8;
                    self.lexer = Lexer::ReadingWhole;
                } else if c == 'x' {
                    self.literal.base = 16;
                    self.lexer = Lexer::ReadingWhole;
                } else if c == '_' {
                    self.lexer = Lexer::ReadingWhole;
                } else if c == '.' {
                    self.lexer = Lexer::ReadingFraction;
                } else if '0' <= c && c <= '9' {
                    self.literal.whole = (c as u32) - ('0' as u32);
                    self.lexer = Lexer::ReadingWhole;
                } else {
                    self.push_literal();
                }
            },
            Lexer::ReadingWhole => {
                if c == '_' {
                } else if c == '.' {
                    self.lexer = Lexer::ReadingFraction;
                } else {
                    match to_digit(c, self.literal.base) {
                        Some(d) => self.literal.push_whole_digit(d),
                        None => self.push_literal(),
                    }
                }
            },
            Lexer::ReadingFraction => {
                if c == '_' {
                } else {
                    match to_digit(c, self.literal.base) {
                        Some(d) => {
                            self.literal.push_fraction_digit(d);
                            if self.literal.fraction_is_full() {
                                self.lexer = Lexer::ReadingFractionFull;
                            }
                        },
                        None => self.push_literal(),
                    }
                }
            },
            Lexer::ReadingFractionFull => {
                if c == '_' || to_digit(c, self.literal.base).is_some() {
                } else {
                    self.push_literal();
                }
            },
            Lexer::ReadingOperator => {
                match recognize_operator(self.pending, c) {
                    None => {
                        return Err(EvalError::UnexpectedChar(c, i));
                    },
                    Some((op, two)) => {
                        let r = self.push_operator(op);
                        if let Err(e) = r {
                            return Err(e);
                        }
                        self.lexer = if two {
                            Lexer::SkipChar
                        } else {
                            Lexer::ExpectingNumber
                        };
                    },
                }
            },
            _ => {},
        }
        Ok(())
    }

    /// The non-space character `c` at index `i`, as seen by a state that expects
    /// an operand or an operator.
    fn scan_second(&mut self, c: char, i: usize) -> (r: Result<(), EvalError>)
        requires
            state_wf(old(self)@),
        ensures
            outcome(r, final(self)@) == scan_second(old(self)@, c, i),
            r is Ok ==> state_wf(final(self)@) && final(self).ops.len() <= old(self).ops.len(),
    {
        match self.lexer {
            Lexer::SkipChar => {
                self.lexer = Lexer::ExpectingNumber;
            },
            Lexer::ExpectingOperator => {
                if c == ')' {
                    if self.counts.len() == 1 {
                        return Err(EvalError::UnmatchedParens(c, i));
                    }
                    let count = self.counts[self.counts.len() - 1];
                    proof {
                        lemma_sum_nonneg(self.counts@.drop_last());
                        lemma_apply_n_len(self.values@, self.ops@, count as nat);
                    }
                    let r = self.apply_run(count);
                    if let Err(e) = r {
                        return Err(e);
                    }
                    self.counts.pop();
                    self.parens.pop();
                } else if op_char(c) {
                    self.pending = c;
                    self.lexer = Lexer::ReadingOperator;
                } else {
                    return Err(EvalError::UnexpectedChar(c, i));
                }
            },
            Lexer::ExpectingNumber => {
                if c == '(' {
                    self.counts.push(0);
                    self.parens.push(i);
                    proof {
                        lemma_sum_push(old(self)@.counts, 0);
                    }
                } else if c == '-' {
                    self.literal.neg = true;
                    self.lexer = Lexer::ReadingSign;
                } else if c == '+' {
                    self.lexer = Lexer::ReadingSign;
                } else if c == '0' {
                    self.lexer = Lexer::ReadingPrefix;
                } else if c == '.' {
                    self.lexer = Lexer::ReadingFraction;
                } else if '1' <= c && c <= '9' {
                    self.literal.whole = (c as u32) - ('0' as u32);
                    self.lexer = Lexer::ReadingWhole;
                } else {
                    return Err(EvalError::UnexpectedChar(c, i));
                }
            },
            _ => {},
        }
        Ok(())
    }

    /// One character of the input.
    fn step(&mut self, c: char, i: usize) -> (r: Result<(), EvalError>)
        requires
            state_wf(old(self)@),
            old(self).ops.len() < usize::MAX,
        ensures
            outcome(r, final(self)@) == step(old(self)@, c, i),
            r is Ok ==> state_wf(final(self)@) && final(self).ops.len() <= old(self).ops.len() + 1,
    {
        let r = self.scan_first(c, i);
        if let Err(e) = r {
            return Err(e);
        }
        if is_whitespace(c) {
            return Ok(());
        }
        self.scan_second(c, i)
    }

    /// The end of an input of `len` characters.
    fn finish(&mut self, len: usize) -> (r: Result<Fixed, EvalError>)
        requires
            state_wf(old(self)@),
        ensures
            r == finish(old(self)@, len),
    {
        match self.lexer {
            Lexer::ReadingPrefix
            | Lexer::ReadingWhole
            | Lexer::ReadingFraction
            | Lexer::ReadingFractionFull => self.push_literal(),
            _ => {},
        }
        if self.lexer != Lexer::ExpectingOperator {
            return Err(EvalError::EndOfExpr(len));
        }
        if self.counts.len() > 1 {
            return Err(EvalError::UnmatchedParens('(', self.parens[0]));
        }
        let count = self.counts[0];
        proof {
            reveal_with_fuel(sum, 2);
            assert(self.counts@.drop_last() =~= Seq::<usize>::empty());
            lemma_apply_n_len(self.values@, self.ops@, count as nat);
        }
        let r = self.apply_run(count);
        match r {
            Ok(()) => Ok(self.values[0]),
            Err(e) => Err(e),
        }
    }
}

/// Evaluates the expression `expr` in one pass over its characters.
pub fn exec(expr: &str) -> (r: Result<Fixed, EvalError>)
    ensures
        r == evaluate(expr@),
{
    let len = expr.unicode_len();
    let mut chars = expr.chars();
    let mut ev = Evaluator::new();
    let mut i: usize = 0;
    proof {
        assert(expr@.take(0) =~= Seq::<char>::empty());
        assert(expr@.skip(0) =~= expr@);
    }
    while i < len
        invariant
            len == expr@.len(),
            i <= len,
            chars.remaining() == expr@.skip(i as int),
            run(expr@.take(i as int)) == Ok::<EvalState, EvalError>(ev@),
            state_wf(ev@),
            ev.ops.len() <= i,
        decreases len - i,
    {
        let c = chars.next().unwrap();
        proof {
            assert(expr@.take(i + 1).drop_last() =~= expr@.take(i as int));
            assert(expr@.skip(i + 1) =~= expr@.skip(i as int).drop_first());
        }
        let r = ev.step(c, i);
        if let Err(e) = r {
            proof {
                lemma_run_failed(expr@, i + 1, len as int);
                assert(expr@.take(len as int) =~= expr@);
            }
            return Err(e);
        }
        i = i + 1;
    }
    proof {
        assert(expr@.take(len as int) =~= expr@);
    }
    ev.finish(len)
}


} // verus!
