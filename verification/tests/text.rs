use ohhell::text::{parse_i8, parse_usize, split_once_at, str_eq, trim, usize_to_string};

#[test]
fn decimal_forms() {
    assert_eq!(usize_to_string(0), "0");
    assert_eq!(usize_to_string(7), "7");
    assert_eq!(usize_to_string(10), "10");
    assert_eq!(usize_to_string(12345), "12345");
    assert_eq!(usize_to_string(usize::MAX), usize::MAX.to_string());
}

#[test]
fn parse_usize_like_std() {
    for s in ["42", "+42", "007", "0", "-1", "", "+", "4 2", "x", "18446744073709551615", "18446744073709551616", "+-1", "١"] {
        assert_eq!(parse_usize(s), s.parse::<usize>().ok(), "{:?}", s);
    }
}

#[test]
fn parse_i8_like_std() {
    for s in ["-128", "127", "128", "-129", "+5", "-0", "-", "+", "", "12a", "0013", "-0128", "1000"] {
        assert_eq!(parse_i8(s), s.parse::<i8>().ok(), "{:?}", s);
    }
}

#[test]
fn parse_of_decimal_round_trips() {
    for n in [0usize, 1, 9, 10, 99, 100, 4096, 1 << 40, usize::MAX] {
        assert_eq!(parse_usize(&usize_to_string(n)), Some(n));
    }
}

#[test]
fn trim_like_std() {
    for s in ["  hi  ", "\t/join x \n", "", "   ", "a", "\u{3000}x\u{2003}", " a b "] {
        assert_eq!(trim(s), s.trim(), "{:?}", s);
        assert_eq!(trim(trim(s)), trim(s));
    }
}

#[test]
fn split_at_first_space() {
    assert_eq!(split_once_at("/join room one", ' '), ("/join", Some("room one")));
    assert_eq!(split_once_at("/list", ' '), ("/list", None));
    assert_eq!(split_once_at("/x ", ' '), ("/x", Some("")));
}

#[test]
fn text_equality() {
    assert!(str_eq("abc", "abc"));
    assert!(!str_eq("abc", "abd"));
    assert!(!str_eq("abc", "ab"));
}
