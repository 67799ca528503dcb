use ciderhub::numbers::{parse_i64, parse_u32, NumberError};

#[test]
fn u32_parsing_matches_std() {
    for s in ["0", "7", "+7", "0042", "4294967295", "4294967296", "", "-1", "+", "1 2", "x", "99999999999"] {
        let ours = parse_u32(s).ok();
        let std = s.parse::<u32>().ok();
        assert_eq!(ours, std, "{s:?}");
    }
}

#[test]
fn i64_parsing_matches_std() {
    for s in [
        "0",
        "-0",
        "+15",
        "-15",
        "9223372036854775807",
        "-9223372036854775808",
        "9223372036854775808",
        "-9223372036854775809",
        "",
        "-",
        "12a",
        " 3",
    ] {
        let ours = parse_i64(s).ok();
        let std = s.parse::<i64>().ok();
        assert_eq!(ours, std, "{s:?}");
    }
}

#[test]
fn each_number_error_has_its_input() {
    assert!(matches!(parse_u32(""), Err(NumberError::Empty)));
    assert!(matches!(parse_u32("4x"), Err(NumberError::InvalidDigit)));
    assert!(matches!(parse_u32("4294967296"), Err(NumberError::PosOverflow)));
    assert!(matches!(parse_i64("-9223372036854775809"), Err(NumberError::NegOverflow)));
}

#[test]
fn number_errors_read_like_std() {
    for s in ["", "4x", "4294967296"] {
        let ours = parse_u32(s).unwrap_err().message();
        let std = s.parse::<u32>().unwrap_err().to_string();
        assert_eq!(ours, std);
    }
    let ours = parse_i64("-99999999999999999999").unwrap_err().message();
    let std = "-99999999999999999999".parse::<i64>().unwrap_err().to_string();
    assert_eq!(ours, std);
}
