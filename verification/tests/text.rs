use s2e::json::{parse, Json};
use s2e::number::Real;
use s2e::text::{
    ends_with, is_before, join, lines, parse_number, prefix, replace, split, split_once,
    starts_with, strip_prefix, takes_bytes, to_decimal, to_padded, trim, trim_end, NumberError,
};

#[test]
fn texts_are_cut_as_ever() {
    for s in ["", "a", "a,b", ",", "a,,b,", "ü,ß"] {
        let expected: Vec<String> = s.split(',').map(String::from).collect();
        assert_eq!(split(s, ','), expected);
        assert_eq!(join(&expected, ","), s);
        assert_eq!(
            split_once(s, ','),
            s.split_once(',').map(|(a, b)| (a.to_string(), b.to_string()))
        );
    }
    for s in ["", "\n", "a\nb", "a\r\nb\n", "\r\n\n\r", "a\r", "x\n\r\ny\r\r\n"] {
        let expected: Vec<String> = s.lines().map(String::from).collect();
        assert_eq!(lines(s), expected);
    }
    for s in ["", "  a b\t\n", "\u{a0}x\u{3000}", "\u{200b}x"] {
        assert_eq!(trim(s), s.trim());
        assert_eq!(trim_end(s), s.trim_end());
    }
    for (s, from, to) in [("aaa", "aa", "b"), ("x_B11.jp2", "_B11.jp2", "_B10.jp2"), ("", "a", "b")] {
        assert_eq!(replace(s, from, to), s.replace(from, to));
    }
    assert!(starts_with("cdse-l1c", "cdse") && ends_with("cdse-l1c", "l1c"));
    assert!(!starts_with("cd", "cdse") && !ends_with("1c", "l1c"));
    assert_eq!(strip_prefix("s3://a", "s3://").as_deref(), Some("a"));
    assert_eq!(prefix("2026-06-01T10", 10).as_deref(), Some("2026-06-01"));
    assert_eq!(prefix("2026-06-0é", 10), None);
    assert_eq!(prefix("2026", 10), None);
}

#[test]
fn bytes_are_counted() {
    for s in ["", "R123", "Rü2", "\u{1f525}"] {
        for n in 0..6 {
            assert_eq!(takes_bytes(s, n), s.len() == n);
        }
        assert!(!takes_bytes(s, usize::MAX));
    }
    assert!(takes_bytes(&"é".repeat(1000), 2000) && !takes_bytes(&"é".repeat(1000), 1999));
}

#[test]
fn texts_compare_as_ever() {
    let all = ["", "a", "ab", "b", "2026-01-01", "2026-01-31", "é", "\u{10000}"];
    for a in all {
        for b in all {
            assert_eq!(is_before(a, b), a < b);
        }
    }
}

#[test]
fn numbers_are_written_and_read() {
    for n in [0, 7, 10, 65535, u64::MAX] {
        assert_eq!(to_decimal(n), n.to_string());
        assert_eq!(parse_number(&n.to_string(), u64::MAX), Ok(n));
    }
    for n in [0, 7, -7, 12345, -12345, i64::MIN, i64::MAX] {
        assert_eq!(to_padded(n, 4), format!("{n:04}"));
        assert_eq!(to_padded(n, 0), format!("{n}"));
    }
    assert!(matches!(parse_number("", 9), Err(NumberError::Empty)));
    assert!(matches!(parse_number("+", 9), Err(NumberError::InvalidDigit)));
    assert!(matches!(parse_number("10", 9), Err(NumberError::TooLarge)));
    assert_eq!(parse_number("+9", 9), Ok(9));
    assert_eq!(parse_number("007", 9), Ok(7));
}

#[test]
fn documents_are_read() {
    let j = parse("{\"b\":[1,-2,2.5,1e400,true,null,\"x\"],\"a\":{\"c\":18446744073709551615}}");
    assert!(j.is_err());
    let j = parse("{\"b\":[1,-2,2.5,true,null,\"\\u00e9\"],\"a\":{\"c\":18446744073709551615}}").unwrap();
    let v = match j.field("b") {
        Some(Json::Array(v)) => v,
        _ => panic!("no array"),
    };
    assert_eq!(v[0].as_signed(), Some(1));
    assert_eq!(v[0].as_real(), Some(Real { bits: 1f64.to_bits() }));
    assert_eq!(v[1].as_signed(), Some(-2));
    assert_eq!(v[2].as_signed(), None);
    assert_eq!(v[2].as_real(), Some(Real { bits: 2.5f64.to_bits() }));
    assert!(matches!(v[3], Json::Bool(true)) && matches!(v[4], Json::Null));
    assert_eq!(v[5].as_text().unwrap(), "é");
    let c = j.field("a").unwrap().field("c").unwrap();
    assert!(matches!(c, Json::Number(n) if n.unsigned == Some(u64::MAX) && n.signed.is_none()));
    assert!(j.field("z").is_none());
    match j {
        Json::Object(v) => assert_eq!(v[0].0, "a"),
        _ => panic!("no object"),
    }
}
