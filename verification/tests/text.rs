use osc_receiver::text::{parse_usize, split_path, str_eq};

#[test]
fn parse_plain_number() {
    assert_eq!(parse_usize("0"), Some(0));
    assert_eq!(parse_usize("42"), Some(42));
    assert_eq!(parse_usize("0007"), Some(7));
}

#[test]
fn parse_with_plus_sign() {
    assert_eq!(parse_usize("+7"), Some(7));
    assert_eq!(parse_usize("+0"), Some(0));
}

#[test]
fn parse_rejects_empty_and_bare_sign() {
    assert_eq!(parse_usize(""), None);
    assert_eq!(parse_usize("+"), None);
}

#[test]
fn parse_rejects_stray_characters() {
    assert_eq!(parse_usize("abc"), None);
    assert_eq!(parse_usize("12a"), None);
    assert_eq!(parse_usize("-3"), None);
    assert_eq!(parse_usize("1 2"), None);
    assert_eq!(parse_usize("1.5"), None);
}

#[test]
fn parse_rejects_overflow() {
    assert_eq!(parse_usize("99999999999999999999999999999999"), None);
}

#[test]
fn parse_matches_std() {
    for s in ["0", "42", "+7", "", "+", "abc", "12a", "18446744073709551615"] {
        assert_eq!(parse_usize(s), s.parse::<usize>().ok(), "segment {:?}", s);
    }
}

#[test]
fn split_strips_leading_slashes() {
    assert_eq!(split_path("/foo/bar"), vec!["foo", "bar"]);
    assert_eq!(split_path("///x"), vec!["x"]);
    assert_eq!(split_path("led_strips/3"), vec!["led_strips", "3"]);
}

#[test]
fn split_keeps_inner_empty_segments() {
    assert_eq!(split_path("a//b"), vec!["a", "", "b"]);
    assert_eq!(split_path("/a/"), vec!["a", ""]);
}

#[test]
fn split_of_empty_path_is_one_empty_segment() {
    assert_eq!(split_path(""), vec![""]);
    assert_eq!(split_path("/"), vec![""]);
}

#[test]
fn str_eq_compares_contents() {
    assert!(str_eq("dmx", "dmx"));
    assert!(!str_eq("dmx", "dm"));
    assert!(!str_eq("dmx", "dmy"));
    assert!(str_eq("", ""));
}
