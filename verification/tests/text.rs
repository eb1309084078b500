use api_stub::text::{
    chars_of, find_char, is_whitespace, range_ends_with, range_eq, range_starts_with,
    skip_non_spaces, skip_spaces, str_eq, string_of, trim_range, trimmed,
};

fn chars(s: &str) -> Vec<char> {
    s.chars().collect()
}

#[test]
fn whitespace_is_what_std_calls_whitespace() {
    let mut c = '\0';
    loop {
        assert_eq!(is_whitespace(c), c.is_whitespace(), "U+{:04X}", c as u32);
        if c == char::MAX {
            break;
        }
        c = match char::from_u32(c as u32 + 1) {
            Some(next) => next,
            None => '\u{E000}',
        };
    }
}

#[test]
fn chars_and_strings_convert_both_ways() {
    assert_eq!(chars_of("héllo"), chars("héllo"));
    assert_eq!(chars_of(""), Vec::<char>::new());
    let v = chars("héllo wörld");
    assert_eq!(string_of(&v, 0, v.len()), "héllo wörld");
    assert_eq!(string_of(&v, 6, 11), "wörld");
    assert_eq!(string_of(&v, 3, 3), "");
}

#[test]
fn trimmed_agrees_with_std_trim() {
    for s in [
        "",
        " ",
        "a",
        "  a  ",
        "\t\r\n a b \u{00A0}\u{3000}",
        "\u{2003}x\u{2003}",
        "no-space",
        " \u{FEFF}x ",
        "x\u{200B}",
    ] {
        assert_eq!(trimmed(s), s.trim(), "{:?}", s);
    }
}

#[test]
fn trim_range_gives_the_bounds_of_the_trimmed_part() {
    let v = chars("ab  cd  ef");
    assert_eq!(trim_range(&v, 2, 8), (4, 6));
    assert_eq!(trim_range(&v, 2, 4), (4, 4));
    assert_eq!(trim_range(&v, 0, 10), (0, 10));
}

#[test]
fn scanning_stops_where_it_should() {
    let v = chars("  ab cd");
    assert_eq!(skip_spaces(&v, 0, 7), 2);
    assert_eq!(skip_spaces(&v, 2, 7), 2);
    assert_eq!(skip_non_spaces(&v, 2, 7), 4);
    assert_eq!(skip_non_spaces(&v, 5, 7), 7);
    assert_eq!(find_char(&v, 0, 7, 'c'), 5);
    assert_eq!(find_char(&v, 0, 7, 'x'), 7);
    assert_eq!(find_char(&v, 0, 4, 'c'), 4);
}

#[test]
fn ranges_compare_with_words() {
    let v = chars("/api/v1/ping");
    assert!(range_eq(&v, 0, 5, &chars("/api/")));
    assert!(!range_eq(&v, 0, 4, &chars("/api/")));
    assert!(range_starts_with(&v, 0, 12, &chars("/api/")));
    assert!(!range_starts_with(&v, 1, 12, &chars("/api/")));
    assert!(!range_starts_with(&v, 0, 3, &chars("/api/")));
    assert!(range_ends_with(&v, 0, 12, &chars("ping")));
    assert!(!range_ends_with(&v, 0, 11, &chars("ping")));
    assert!(range_starts_with(&v, 0, 12, &chars("")));
}

#[test]
fn str_eq_compares_characters() {
    assert!(str_eq("", ""));
    assert!(str_eq("abc", "abc"));
    assert!(!str_eq("abc", "abd"));
    assert!(!str_eq("abc", "ab"));
    assert!(!str_eq("GET", "get"));
}
