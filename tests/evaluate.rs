use calcul::fixed::Fixed;
use calcul::ops::{apply_top, precedence, Op};
use calcul::parser::{exec, EvalError};

fn value(s: &str) -> Fixed {
    exec(s).unwrap()
}

#[test]
fn decimal_integers_are_their_value() {
    assert_eq!(value("0"), Fixed::new(0));
    assert_eq!(value("7"), Fixed::new(7));
    assert_eq!(value("123"), Fixed::new(123));
    assert_eq!(value("2147483647"), Fixed::new(i32::MAX));
    assert_eq!(value("-45"), Fixed::new(-45));
    assert_eq!(value("-2147483648"), Fixed::new(i32::MIN));
}

#[test]
fn parentheses_are_transparent() {
    assert_eq!(value("(7)"), value("7"));
    assert_eq!(value("(2+3*4)"), value("2+3*4"));
    assert_eq!(value("((1-2)-3)"), value("1-2-3"));
    assert_eq!(value("(2+3)*4"), Fixed::new(20));
    assert_eq!(value("2*(3+4)"), Fixed::new(14));
}

#[test]
fn equal_precedence_goes_left_to_right() {
    assert_eq!(value("10-3-2"), Fixed::new(5));
    assert_eq!(value("8/4/2"), Fixed::new(1));
}

#[test]
fn tighter_operators_apply_first() {
    assert_eq!(value("2+3*4"), Fixed::new(14));
    assert_eq!(value("2*3+4"), Fixed::new(10));
    assert_eq!(value("1|2*3"), Fixed::new(7));
    assert_eq!(value("1+2<<1"), Fixed::new(6));
    assert_eq!(value("1+2*3*4"), Fixed::new(25));
    assert_eq!(value("1|2+3*4-5"), Fixed::new(9));
    assert_eq!(value("2*3+4*5-6/2"), Fixed::new(23));
    assert_eq!(value("1-2*3-4"), Fixed::new(-9));
    assert_eq!(value("(1+2*3*4)*2"), Fixed::new(50));
}

#[test]
fn base_prefixes() {
    assert_eq!(value("0xA"), Fixed::new(10));
    assert_eq!(value("0b101"), Fixed::new(5));
    assert_eq!(value("0o17"), Fixed::new(15));
    assert_eq!(value("0xff"), Fixed::new(255));
    assert_eq!(value("0x.8"), Fixed::from_i64(1 << 31));
    assert_eq!(value("0b.01"), Fixed::from_i64(1 << 30));
    assert_eq!(value("0o.4"), Fixed::from_i64(1 << 31));
}

#[test]
fn underscores_are_ignored() {
    assert_eq!(value("1_000"), value("1000"));
    assert_eq!(value("0_7"), Fixed::new(7));
    assert_eq!(value("0.2_5"), value("0.25"));
}

#[test]
fn error_positions() {
    assert_eq!(exec("(1+2"), Err(EvalError::UnmatchedParens('(', 0)));
    assert_eq!(exec("1+(2*(3"), Err(EvalError::UnmatchedParens('(', 2)));
    assert_eq!(exec("(1)+(2"), Err(EvalError::UnmatchedParens('(', 4)));
    assert_eq!(exec("1+"), Err(EvalError::EndOfExpr(2)));
    assert_eq!(exec("1+@2"), Err(EvalError::UnexpectedChar('@', 2)));
    assert_eq!(exec("1)"), Err(EvalError::UnmatchedParens(')', 1)));
    assert_eq!(exec(""), Err(EvalError::EndOfExpr(0)));
    assert_eq!(exec("-"), Err(EvalError::EndOfExpr(1)));
    assert_eq!(exec("1< 2"), Err(EvalError::UnexpectedChar(' ', 2)));
    assert_eq!(exec("1 2"), Err(EvalError::UnexpectedChar('2', 2)));
    assert_eq!(exec("- 1"), Err(EvalError::UnexpectedChar(' ', 1)));
}

#[test]
fn division_by_zero_is_an_error() {
    assert_eq!(exec("1/0"), Err(EvalError::DivisionByZero));
    assert_eq!(exec("5%(2-2)"), Err(EvalError::DivisionByZero));
}

#[test]
fn long_fractions_are_truncated() {
    assert_eq!(value("0.12345678901234"), value("0.1234567890"));
    assert_eq!(value("3.99999999999999"), value("3.9999999999"));
    assert_eq!(value("0.12345678909"), value("0.1234567890"));
    assert_eq!(value("-012.00000000019"), value("-12.0000000001"));
    assert_eq!(value("0.1"), Fixed::from_i64(429496729));
}

#[test]
fn signs_and_spaces() {
    assert_eq!(value("--3"), Fixed::new(3));
    assert_eq!(value("-+-3"), Fixed::new(3));
    assert_eq!(value(" 1 +  2 "), Fixed::new(3));
    assert_eq!(value("1 << 2"), Fixed::new(4));
    assert_eq!(value("-0"), Fixed::new(0));
    assert_eq!(value("2*-3"), Fixed::new(-6));
}

#[test]
fn fractional_arithmetic() {
    assert_eq!(value("1.5*2"), Fixed::new(3));
    assert_eq!(value("7/2"), Fixed::from_i64(7 << 31));
    assert_eq!(value(".25"), Fixed::from_i64(1 << 30));
    assert_eq!(value("7%3"), Fixed::new(1));
    assert_eq!(value("-7%3"), Fixed::new(-1));
    assert_eq!(value("6&3"), Fixed::new(2));
    assert_eq!(value("6^3"), Fixed::new(5));
    assert_eq!(value("16>>2"), Fixed::new(4));
}

#[test]
fn operator_stack() {
    assert_eq!(precedence(&Op::Shl), 1);
    assert_eq!(precedence(&Op::Sub), 2);
    assert_eq!(precedence(&Op::Mod), 3);
    let mut ops = vec![Op::Add, Op::Sub];
    let mut values = vec![Fixed::new(1), Fixed::new(10), Fixed::new(4)];
    apply_top(&mut ops, &mut values);
    assert_eq!(ops, vec![Op::Add]);
    assert_eq!(values, vec![Fixed::new(1), Fixed::new(6)]);
    apply_top(&mut ops, &mut values);
    assert!(ops.is_empty());
    assert_eq!(values, vec![Fixed::new(7)]);
}
