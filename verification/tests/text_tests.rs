use wirt::bytes::{beginstrb, decimal, digits, parse_u32, parse_u64};
use wirt::math::{glyph_ops, MathOp};

#[test]
fn prefixes() {
    assert!(beginstrb(b"hello", b"he"));
    assert!(beginstrb(b"hello", b""));
    assert!(!beginstrb(b"he", b"hello"));
    assert!(!beginstrb(b"abc", b"abd"));
}

#[test]
fn decimal_text() {
    assert_eq!(decimal(0), b"0".to_vec());
    assert_eq!(decimal(120), b"120".to_vec());
    assert_eq!(digits(0), Vec::<u8>::new());
    assert_eq!(digits(18446744073709551615), b"18446744073709551615".to_vec());
}

#[test]
fn decimal_parsing() {
    assert_eq!(parse_u64(b"+42"), Some(42));
    assert_eq!(parse_u64(b"007"), Some(7));
    assert_eq!(parse_u64(b"18446744073709551615"), Some(u64::MAX));
    assert_eq!(parse_u64(b"18446744073709551616"), None);
    assert_eq!(parse_u64(b""), None);
    assert_eq!(parse_u64(b"+"), None);
    assert_eq!(parse_u64(b"-1"), None);
    assert_eq!(parse_u64(b"1 "), None);
    assert_eq!(parse_u32(b"4294967295"), Some(u32::MAX));
    assert_eq!(parse_u32(b"4294967296"), None);
}

#[test]
fn decimal_round_trip() {
    for n in [0u64, 1, 9, 10, 99, 100, 12345, u64::MAX] {
        assert_eq!(parse_u64(&decimal(n)), Some(n));
    }
}

#[test]
fn formula_words() {
    assert_eq!(
        glyph_ops(b"0 1 1 1 1 + + / + 1 /"),
        vec![
            MathOp::Zero,
            MathOp::One,
            MathOp::One,
            MathOp::One,
            MathOp::One,
            MathOp::Plus,
            MathOp::Plus,
            MathOp::Bar,
            MathOp::Plus,
            MathOp::One,
            MathOp::Bar
        ]
    );
    assert_eq!(glyph_ops(b"  x 00 \n0"), vec![MathOp::Unknown, MathOp::Unknown, MathOp::Zero]);
    assert_eq!(glyph_ops(b""), Vec::<MathOp>::new());
}
