use api_stub::form::{
    bytes_eq, find_byte, form_value, from_hex, html_escape, percent_decode, read_text,
    url_decode,
};

#[test]
fn hexadecimal_digits() {
    assert_eq!(from_hex(b'0'), Some(0));
    assert_eq!(from_hex(b'9'), Some(9));
    assert_eq!(from_hex(b'a'), Some(10));
    assert_eq!(from_hex(b'f'), Some(15));
    assert_eq!(from_hex(b'A'), Some(10));
    assert_eq!(from_hex(b'F'), Some(15));
    assert_eq!(from_hex(b'g'), None);
    assert_eq!(from_hex(b'G'), None);
    assert_eq!(from_hex(b'/'), None);
    assert_eq!(from_hex(b':'), None);
    assert_eq!(from_hex(b'@'), None);
    assert_eq!(from_hex(b'`'), None);
    assert_eq!(from_hex(0), None);
    assert_eq!(from_hex(255), None);
}

#[test]
fn every_byte_has_the_hex_value_that_std_gives() {
    for b in 0..=255u8 {
        let expected = (b as char).to_digit(16).map(|d| d as u8);
        assert_eq!(from_hex(b), expected, "byte {}", b);
    }
}

#[test]
fn percent_decoding_of_bytes() {
    assert_eq!(percent_decode(b"a+b", 0, 3), b"a b");
    assert_eq!(percent_decode(b"%41%42", 0, 6), b"AB");
    assert_eq!(percent_decode(b"%2Fapi%2fx", 0, 10), b"/api/x");
    assert_eq!(percent_decode(b"%ff", 0, 3), [255u8]);
    assert_eq!(percent_decode(b"%00", 0, 3), [0u8]);
    assert_eq!(percent_decode(b"%4", 0, 2), b"%4");
    assert_eq!(percent_decode(b"%", 0, 1), b"%");
    assert_eq!(percent_decode(b"%zz", 0, 3), b"%zz");
    assert_eq!(percent_decode(b"%4g1", 0, 4), b"%4g1");
    assert_eq!(percent_decode(b"%%41", 0, 4), b"%A");
    assert_eq!(percent_decode(b"", 0, 0), b"");
}

#[test]
fn percent_decoding_stays_within_its_bounds() {
    assert_eq!(percent_decode(b"xx%41yy", 2, 5), b"A");
    assert_eq!(percent_decode(b"xx%41yy", 2, 4), b"%4");
    assert_eq!(percent_decode(b"a+b+c", 1, 4), b" b ");
}

#[test]
fn url_decoding_of_text() {
    assert_eq!(url_decode("hello+world"), "hello world");
    assert_eq!(url_decode("%2Fapi%2Fv1%2Fping"), "/api/v1/ping");
    assert_eq!(url_decode("caf%C3%A9"), "café");
    assert_eq!(url_decode("café"), "café");
    assert_eq!(url_decode("100%"), "100%");
    assert_eq!(url_decode(""), "");
}

#[test]
fn bytes_that_encode_nothing_become_replacement_characters() {
    assert_eq!(url_decode("%FF"), "\u{FFFD}");
    assert_eq!(url_decode("a%C3"), "a\u{FFFD}");
    assert_eq!(url_decode("%C3%28"), "\u{FFFD}(");
}

#[test]
fn bytes_are_found_and_compared() {
    assert_eq!(find_byte(b"a=b&c=d", 0, 7, b'&'), 3);
    assert_eq!(find_byte(b"a=b&c=d", 4, 7, b'&'), 7);
    assert_eq!(find_byte(b"a=b&c=d", 0, 3, b'='), 1);
    assert!(bytes_eq(b"a=b&c=d", 4, 5, b"c"));
    assert!(!bytes_eq(b"a=b&c=d", 4, 5, b"d"));
    assert!(!bytes_eq(b"a=b&c=d", 4, 6, b"c"));
    assert!(bytes_eq(b"abc", 1, 1, b""));
}

#[test]
fn form_fields_are_found_by_key() {
    let body = "method=GET&path=%2Fapi%2Fx&file=dir%2Ff.json";
    assert_eq!(form_value(body, "method"), Some("GET".to_string()));
    assert_eq!(form_value(body, "path"), Some("/api/x".to_string()));
    assert_eq!(form_value(body, "file"), Some("dir/f.json".to_string()));
    assert_eq!(form_value(body, "other"), None);
    assert_eq!(form_value(body, "metho"), None);
    assert_eq!(form_value(body, "methods"), None);
}

#[test]
fn the_first_pair_with_the_key_counts() {
    assert_eq!(form_value("a=1&a=2", "a"), Some("1".to_string()));
    assert_eq!(form_value("b=0&a=1&a=2", "a"), Some("1".to_string()));
}

#[test]
fn a_pair_without_an_equals_sign_has_an_empty_value() {
    assert_eq!(form_value("flag&a=1", "flag"), Some("".to_string()));
    assert_eq!(form_value("a=1&flag", "flag"), Some("".to_string()));
    assert_eq!(form_value("a=", "a"), Some("".to_string()));
}

#[test]
fn a_value_keeps_what_follows_its_first_equals_sign() {
    assert_eq!(form_value("a=b=c", "a"), Some("b=c".to_string()));
    assert_eq!(form_value("a==", "a"), Some("=".to_string()));
}

#[test]
fn the_key_is_not_decoded() {
    assert_eq!(form_value("a%20b=1", "a b"), None);
    assert_eq!(form_value("a%20b=1", "a%20b"), Some("1".to_string()));
    assert_eq!(form_value("a+b=1", "a b"), None);
}

#[test]
fn the_empty_body_holds_one_pair_with_the_empty_key() {
    assert_eq!(form_value("", ""), Some("".to_string()));
    assert_eq!(form_value("", "a"), None);
    assert_eq!(form_value("&a=1&", "a"), Some("1".to_string()));
    assert_eq!(form_value("=x", ""), Some("x".to_string()));
}

#[test]
fn keys_and_values_may_hold_any_text() {
    assert_eq!(form_value("clé=caf%C3%A9+noir", "clé"), Some("café noir".to_string()));
}

#[test]
fn html_text_is_escaped() {
    assert_eq!(
        html_escape("<a href=\"x\">it's & more</a>"),
        "&lt;a href=&quot;x&quot;&gt;it&#39;s &amp; more&lt;/a&gt;"
    );
    assert_eq!(html_escape("plain text"), "plain text");
    assert_eq!(html_escape(""), "");
    assert_eq!(html_escape("&amp;"), "&amp;amp;");
    assert_eq!(html_escape("été <3"), "été &lt;3");
}

#[test]
fn valid_bytes_are_read_as_the_text_that_they_encode() {
    assert_eq!(read_text(&b"/api/x".to_vec()), "/api/x");
    assert_eq!(read_text(&"café \u{1F600}".as_bytes().to_vec()), "café \u{1F600}");
    assert_eq!(read_text(&vec![]), "");
    let text = read_text(&vec![0xE2, 0x82, 0xAC]);
    assert_eq!(text, "\u{20AC}");
    assert_eq!(text.as_bytes(), [0xE2, 0x82, 0xAC]);
}

#[test]
fn other_bytes_are_read_with_replacement_characters() {
    assert_eq!(read_text(&vec![0xFF]), "\u{FFFD}");
    assert_eq!(read_text(&vec![b'a', 0xED, 0xA0, 0x80]), "a\u{FFFD}\u{FFFD}\u{FFFD}");
    assert_eq!(read_text(&vec![0xC0, 0xAF]), "\u{FFFD}\u{FFFD}");
    assert_eq!(read_text(&vec![0xF4, 0x90, 0x80, 0x80]), "\u{FFFD}\u{FFFD}\u{FFFD}\u{FFFD}");
}

#[test]
fn plain_text_is_its_own_value() {
    for s in ["/api/v2/ping", "GET", "dir/f.json", "a b", "", "~!@#$^&*()=;"] {
        assert_eq!(url_decode(s), s);
    }
    assert_eq!(form_value("p=%2Fx", "p"), Some("/x".to_string()));
    assert_eq!(form_value("p=/x", "p"), Some("/x".to_string()));
}
