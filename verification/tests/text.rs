use ciderhub::text::{is_blank, push_decimal1, push_int, push_zero_padded, starts_with, str_eq, trim};

#[test]
fn trimming_matches_std() {
    for s in ["", "  ", " a ", "\u{a0}x\u{3000}", "a b", "\n\tz"] {
        assert_eq!(trim(s), s.trim(), "{s:?}");
        assert_eq!(is_blank(s), s.trim().is_empty());
    }
}

#[test]
fn integers_are_written_like_display() {
    for v in [0i128, 7, -7, 1234567890123, -9223372036854775808] {
        let mut out = String::from("n=");
        push_int(&mut out, v);
        assert_eq!(out, format!("n={v}"));
    }
}

#[test]
fn one_decimal_rounds_like_format() {
    for (num, den) in [(189375i128, 1000i128), (520625, 1000), (1, 3), (-1, 3), (2, 3), (7, 1), (0, 5), (-25, 100)] {
        let mut out = String::new();
        push_decimal1(&mut out, num, den);
        let expected = format!("{:.1}", num as f64 / den as f64);
        assert_eq!(out, expected, "{num}/{den}");
    }
}

#[test]
fn zero_padding() {
    let mut out = String::new();
    push_zero_padded(&mut out, 7, 3);
    push_zero_padded(&mut out, 12345, 2);
    assert_eq!(out, "00712345");
}

#[test]
fn prefixes_and_equality() {
    assert!(starts_with("/static/a.css", "/static/"));
    assert!(!starts_with("/stat", "/static/"));
    assert!(str_eq("ph", "ph"));
    assert!(!str_eq("ph", "pH"));
}
