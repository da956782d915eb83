use whispem::number::Number;

fn samples() -> Vec<f64> {
    let mut v: Vec<f64> = vec![
        0.0, -0.0, 1.0, -1.0, 2.0, 3.0, 0.5, 0.1, 0.2, 0.3, 1.5, 2.5, 3.14, 10.0, 4.0, 7.0, 15.0,
        1e15, 1e16, 1e-7, 1e300, 1e-300, 5e-324, 1.7976931348623157e308, 2.2250738585072014e-308,
        2.225073858507201e-308, 9007199254740992.0, 9007199254740993.0, 123456789.125,
        0.30000000000000004, 1e22, 1e23, 4.35, 0.000001, 255.0, 65536.0, 1.0000000000000002,
        f64::INFINITY, f64::NEG_INFINITY, f64::NAN, 100.0, 99.99, 1e308, 3.0e-310, 6.0e-320,
    ];
    let mut x: u64 = 0x9E37_79B9_7F4A_7C15;
    for _ in 0..30 {
        x ^= x << 13;
        x ^= x >> 7;
        x ^= x << 17;
        v.push(f64::from_bits(x));
        v.push(((x % 2001) as f64 - 1000.0) / 8.0);
    }
    v
}

fn same(a: u64, b: f64) -> bool {
    let x = f64::from_bits(a);
    if b.is_nan() {
        x.is_nan()
    } else {
        a == b.to_bits()
    }
}

#[test]
fn arithmetic_agrees_with_host() {
    let v = samples();
    for &a in &v {
        for &b in &v {
            let x = Number::from_bits(a.to_bits());
            let y = Number::from_bits(b.to_bits());
            assert!(same(x.add(y).to_bits(), a + b), "{:?} + {:?}", a, b);
            assert!(same(x.sub(y).to_bits(), a - b), "{:?} - {:?}", a, b);
            assert!(same(x.mul(y).to_bits(), a * b), "{:?} * {:?}", a, b);
            assert!(same(x.div(y).to_bits(), a / b), "{:?} / {:?}", a, b);
            assert!(same(x.rem(y).to_bits(), a % b), "{:?} % {:?}", a, b);
            assert_eq!(x.lt(y), a < b, "{:?} < {:?}", a, b);
            assert_eq!(x.le(y), a <= b, "{:?} <= {:?}", a, b);
            assert_eq!(x.num_eq(y), a == b, "{:?} == {:?}", a, b);
        }
    }
}

#[test]
fn conversions_agree_with_host() {
    for &a in &samples() {
        let x = Number::from_bits(a.to_bits());
        assert_eq!(x.to_usize(), a as usize, "{:?}", a);
        assert_eq!(x.to_i64(), a as i64, "{:?}", a);
        assert_eq!(x.is_integral(), a.fract() == 0.0, "{:?}", a);
        assert!(same(x.neg().to_bits(), -a));
    }
    for n in [0u64, 1, 2, 1 << 53, (1 << 53) + 1, u64::MAX, 12345678901234567] {
        assert_eq!(Number::from_u64(n).to_bits(), (n as f64).to_bits());
    }
    for i in [0i64, -1, 1, i64::MIN, i64::MAX, -9007199254740993, 42] {
        assert_eq!(Number::from_i64(i).to_bits(), (i as f64).to_bits());
    }
}

#[test]
fn text_agrees_with_host() {
    for &a in &samples() {
        let x = Number::from_bits(a.to_bits());
        assert_eq!(x.to_text(), format!("{}", a), "{:?}", a.to_bits());
    }
}

#[test]
fn literals_agree_with_host() {
    let cases = [
        "0", "1", "42", "3.14", "2.5", "0.1", "0.2", "0.3", "10.0", "123456789012345678901234567890",
        "0.000000000000000000000000000001", "9007199254740993", "9007199254740993.5",
        "179769313486231570000000000000000000000000000000000000000000000000000000000000000000000000000000000000000000000000000000000000000000000000000000000000000000000000000000000000000000000000000000000000000000000000000000000000000000000000000000000000000000000000000000000000000000000000000000000000000000000000000000000",
        "1797693134862315800000000000000000000000000000000000000000000000000000000000000000000000000000000000000000000000000000000000000000000000000000000000000000000000000000000000000000000000000000000000000000000000000000000000000000000000000000000000000000000000000000000000000000000000000000000000000000000000000000000000",
        "0.5", "1.0000000000000002", "4.35", "99.99", "1000000000000000", "0.30000000000000004",
        "2.2250738585072011", "0.000000000000000000000000000000000000000000000000000000000000000000000000000000000000000000000000000000000000000000000000000000000000000000000000000000000000000000000000000000000000000000000000000000000000000000000000000000000000000000000000000000000000000000000000000000000000000000000000000000000000000000000000000000000000000000000000000000000000000000000000000000000000000000000000000000000000000000000000000243",
    ];
    for text in cases {
        let (int_part, frac_part) = match text.split_once('.') {
            Some((i, f)) => (i, f),
            None => (text, ""),
        };
        let i: Vec<char> = int_part.chars().collect();
        let f: Vec<char> = frac_part.chars().collect();
        let expected: f64 = text.parse().unwrap();
        assert_eq!(Number::parse_decimal(&i, &f).to_bits(), expected.to_bits(), "{}", text);
    }
}
