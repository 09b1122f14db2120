use logo::numeral::{digits_u32, parse_i32, push_decimal, push_signed_decimal};

const SAMPLES: &[&str] = &[
    "", "+", "-", "0", "00", "7", "+7", "-7", "++1", "+-1", "1+", " 1", "1 ", "12a", "٣",
    "4294967295", "4294967296", "+4294967295", "-0", "2147483647", "2147483648", "-2147483648",
    "-2147483649", "0000000000000000000042", "99999999999999999999999",
];

#[test]
fn digits_u32_reads_unsigned_digit_runs() {
    for s in SAMPLES {
        let expected = if s.starts_with('+') { None } else { s.parse::<u32>().ok() };
        assert_eq!(digits_u32(s), expected, "{:?}", s);
    }
    assert_eq!(digits_u32("+5"), None);
    assert_eq!(digits_u32("0042"), Some(42));
}

#[test]
fn parse_i32_agrees_with_std() {
    for s in SAMPLES {
        assert_eq!(parse_i32(s), s.parse::<i32>().ok(), "{:?}", s);
    }
}

#[test]
fn decimal_rendering() {
    for n in [0u64, 5, 10, 99, 100, 12345, u64::MAX] {
        let mut s = String::from("x");
        push_decimal(&mut s, n);
        assert_eq!(s, format!("x{}", n));
    }
    for i in [0i64, -1, 42, -2147483648, i64::MIN, i64::MAX] {
        let mut s = String::new();
        push_signed_decimal(&mut s, i);
        assert_eq!(s, i.to_string());
    }
}
