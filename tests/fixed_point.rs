use calcul::fixed::Fixed;
use calcul::parser::exec;

const SCALE: f64 = 4_294_967_296.0;

/// The raw value nearest to `f`, after reducing `f` modulo 2^32.
fn raw_of(f: f64) -> i64 {
    let m = f % SCALE;
    let m = if m < 0.0 { m + SCALE } else { m };
    (m * SCALE).round() as u64 as i64
}

const PAIRS: [(f64, f64); 22] = [
    (0.0, 1.0),
    (-1.0, 0.5),
    (96.436, -16.128),
    (90.055, 91.467),
    (-22.057, 48.551),
    (-36.505, 53.295),
    (-47.676, -36.603),
    (-38.731, -91.135),
    (-39.904, 8.170),
    (26.714, 64.207),
    (16.187, 44.724),
    (-98.363, 21.538),
    (70223.582, -20363.576),
    (45031.022, 77712.991),
    (-78915.655, -6465.442),
    (-51526.795, -51516.658),
    (77184.568, 35352.514),
    (-11626.399, -71328.079),
    (95689.023, -66248.097),
    (-41206.371, 13553.372),
    (-59120.587, -21787.521),
    (89759.877, 66300.215),
];

#[test]
fn constructors() {
    assert_eq!(Fixed::new(1).as_i64(), 1 << 32);
    assert_eq!(Fixed::new(-1).as_i64(), -(1 << 32));
    assert_eq!(Fixed::from_i64(12345).as_i64(), 12345);
}

#[test]
fn exact_operators() {
    for (a, b) in PAIRS {
        let (x, y) = (raw_of(a), raw_of(b));
        let (fa, fb) = (Fixed::from_i64(x), Fixed::from_i64(y));
        assert_eq!(fa.add(fb).as_i64(), x.wrapping_add(y));
        assert_eq!(fa.sub(fb).as_i64(), x.wrapping_sub(y));
        assert_eq!(fa.bitand(fb).as_i64(), x & y);
        assert_eq!(fa.bitor(fb).as_i64(), x | y);
        assert_eq!(fa.bitxor(fb).as_i64(), x ^ y);
        if y != 0 {
            assert_eq!(fa.rem(fb).as_i64(), x.wrapping_rem(y));
        }
        let n = ((y >> 32) & 63) as u32;
        assert_eq!(fa.shl(fb).as_i64(), x.wrapping_shl(n));
        assert_eq!(fa.shr(fb).as_i64(), x.wrapping_shr(n));
    }
}

#[test]
fn approximate_operators() {
    for (a, b) in PAIRS {
        let (fa, fb) = (Fixed::from_i64(raw_of(a)), Fixed::from_i64(raw_of(b)));
        let product = fa.mul(fb).as_i64();
        assert!(raw_of(a * b).abs_diff(product) < (1 << 32), "{} * {}", a, b);
        if raw_of(b) != 0 {
            let quotient = fa.div(fb).as_i64();
            assert!(raw_of(a / b).abs_diff(quotient) < (1 << 16), "{} / {}", a, b);
        }
    }
}

#[test]
fn wide_products_and_quotients() {
    assert_eq!(Fixed::new(3).mul(Fixed::new(-4)), Fixed::new(-12));
    assert_eq!(Fixed::from_i64(-1).mul(Fixed::from_i64(1)), Fixed::from_i64(-1));
    assert_eq!(Fixed::new(1).div(Fixed::new(3)).as_i64(), 1431655765);
    assert_eq!(Fixed::new(-1).div(Fixed::new(3)).as_i64(), -1431655765);
    assert_eq!(Fixed::new(65536).mul(Fixed::new(65536)), Fixed::new(0));
}

#[test]
fn formatting() {
    assert_eq!(Fixed::new(-3).format(None), "-3");
    assert_eq!(Fixed::new(0).format(None), "0");
    assert_eq!(Fixed::from_i64(1 << 31).format(None), "0.5");
    assert_eq!(Fixed::from_i64(-(5 << 31)).format(None), "-2.5");
    assert_eq!(Fixed::from_i64(1 << 31).format(Some(2)), "0.50");
    assert_eq!(Fixed::from_i64(1 << 31).format(Some(0)), "0");
    assert_eq!(Fixed::from_i64(0xFFFF_FFFF).format(Some(2)), "0.00");
    assert_eq!(Fixed::from_i64(0xFFFF_FFFF).format(None), "0");
    assert_eq!(Fixed::from_i64(1).format(Some(34)), "0.0000000002328306436538696289062500");
    assert_eq!(Fixed::from_i64(i64::MIN).format(None), "-2147483648");
    assert_eq!(Fixed::from_i64(-1).format(None), "-0");
}

#[test]
fn formatted_values_parse_back() {
    for s in ["1.5", "-2.25", "3.141592653", "0.000000001", "-2147483648", "2147483647.999999999"] {
        let x = exec(s).unwrap();
        assert_eq!(exec(&x.format(None)).unwrap(), x, "{}", s);
    }
    assert_eq!(exec("3.141592653").unwrap().format(None), "3.141592653");
}

#[test]
fn negative_decimals_format_and_parse_back() {
    for s in ["-0.5", "-0.0", "-7.000000001", "-0.123456789", "12.75", "007.25", "-00.5", "0012."] {
        let x = exec(s).unwrap();
        assert_eq!(exec(&x.format(None)).unwrap(), x, "{}", s);
    }
    assert_eq!(exec("-0.5").unwrap().format(None), "-0.5");
    assert_eq!(exec("-0.0").unwrap().format(None), "0");
    assert_eq!(exec("12.75").unwrap().format(Some(3)), "12.750");
}
