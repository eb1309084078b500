//! Bodies of HTML forms, and text on its way into an HTML page.
//!
//! A form body is a run of bytes: pairs joined by `&`, each a key and a value
//! joined by its first `=`. The value is percent-encoded; the key is compared
//! as it stands.

use vstd::prelude::*;
use vstd::string::{StringExecFns, StringSliceAdditionalSpecFns};
use vstd::utf8::{
    decode_utf8, encode_utf8, encode_utf8_decode_utf8, encode_utf8_valid_utf8, is_ascii_chars,
    is_ascii_chars_encode_utf8, valid_utf8,
};
use crate::text::{chars_of, lemma_prefix_len_is, opt_text, other_than, prefix_len, split};

verus! {

/// The value of a hexadecimal digit in ASCII.
pub open spec fn hex_value(byte: u8) -> Option<u8> {
    if 0x30 <= byte <= 0x39 {
        Some((byte - 0x30) as u8)
    } else if 0x61 <= byte <= 0x66 {
        Some((byte - 0x61 + 10) as u8)
    } else if 0x41 <= byte <= 0x46 {
        Some((byte - 0x41 + 10) as u8)
    } else {
        None
    }
}

/// The bytes that a percent-encoded value stands for. A `+` stands for a
/// space, and `%` with two hexadecimal digits behind it for the byte they
/// write. Every other byte stands for itself, a `%` without two such digits
/// too.
pub open spec fn percent_decoded(s: Seq<u8>) -> Seq<u8>
    decreases s.len(),
{
    if s.len() == 0 {
        Seq::empty()
    } else if s[0] == 0x2B {
        seq![0x20u8] + percent_decoded(s.skip(1))
    } else if s[0] == 0x25 && s.len() >= 3 && hex_value(s[1]) is Some && hex_value(s[2]) is Some {
        seq![(hex_value(s[1])->0 * 16 + hex_value(s[2])->0) as u8] + percent_decoded(s.skip(3))
    } else {
        seq![s[0]] + percent_decoded(s.skip(1))
    }
}

/// What `String::from_utf8_lossy` makes of a run of bytes: the text that they
/// encode in UTF-8, with U+FFFD in place of each part that encodes nothing.
pub uninterp spec fn utf8_lossy(bytes: Seq<u8>) -> Seq<char>;

/// The text that a run of bytes is read as: the text that the bytes encode
/// where they are valid UTF-8, and what `utf8_lossy` makes of them where they
/// are not.
pub open spec fn text_of_bytes(bytes: Seq<u8>) -> Seq<char> {
    if valid_utf8(bytes) {
        decode_utf8(bytes)
    } else {
        utf8_lossy(bytes)
    }
}

/// The key of a pair: what stands in front of its first `=`.
pub open spec fn pair_key(pair: Seq<u8>) -> Seq<u8> {
    pair.take(prefix_len(pair, other_than(0x3Du8)) as int)
}

/// The value of a pair, still encoded: what follows its first `=`, and
/// nothing where it has none.
pub open spec fn pair_value(pair: Seq<u8>) -> Seq<u8> {
    let n = prefix_len(pair, other_than(0x3Du8)) as int;
    if n < pair.len() {
        pair.skip(n + 1)
    } else {
        Seq::empty()
    }
}

/// The predicate that holds of the pairs with another key than `key`.
pub open spec fn keyed_otherwise(key: Seq<u8>) -> spec_fn(Seq<u8>) -> bool {
    |pair: Seq<u8>| pair_key(pair) != key
}

/// The value, still encoded, of the first pair of `body` whose key is `key`.
pub open spec fn form_field(body: Seq<u8>, key: Seq<u8>) -> Option<Seq<u8>> {
    let pairs = split(body, 0x26u8);
    let i = prefix_len(pairs, keyed_otherwise(key)) as int;
    if i < pairs.len() {
        Some(pair_value(pairs[i]))
    } else {
        None
    }
}

/// The text of a form field, given its encoded value.
pub open spec fn field_text(raw: Option<Seq<u8>>) -> Option<Seq<char>> {
    match raw {
        Some(raw) => Some(text_of_bytes(percent_decoded(raw))),
        None => None,
    }
}

/// Calls `String::from_utf8_lossy` and takes the text as a `String` of its
/// own. The result depends on the bytes alone. Bytes that are valid UTF-8
/// are taken as they are, so the text encodes to those same bytes; of other
/// bytes nothing more is claimed.
#[verifier::external_body]
pub(crate) fn from_utf8_lossy(bytes: &Vec<u8>) -> (out: String)
    ensures
        out@ == utf8_lossy(bytes@),
        valid_utf8(bytes@) ==> encode_utf8(out@) == bytes@,
{
    String::from_utf8_lossy(bytes).into_owned()
}

/// Reads a run of bytes as text.
pub fn read_text(bytes: &Vec<u8>) -> (out: String)
    ensures
        out@ == text_of_bytes(bytes@),
{
    let out = from_utf8_lossy(bytes);
    proof {
        if valid_utf8(bytes@) {
            encode_utf8_decode_utf8(out@);
        }
    }
    out
}

/// The value of a hexadecimal digit.
pub fn from_hex(byte: u8) -> (out: Option<u8>)
    ensures
        out == hex_value(byte),
        out matches Some(d) ==> d < 16,
{
    if 0x30 <= byte && byte <= 0x39 {
        Some(byte - 0x30)
    } else if 0x61 <= byte && byte <= 0x66 {
        Some(byte - 0x61 + 10)
    } else if 0x41 <= byte && byte <= 0x46 {
        Some(byte - 0x41 + 10)
    } else {
        None
    }
}

/// Decodes the percent-encoded bytes `bytes[from..to]`.
pub fn percent_decode(bytes: &[u8], from: usize, to: usize) -> (out: Vec<u8>)
    requires
        from <= to <= bytes@.len(),
    ensures
        out@ == percent_decoded(bytes@.subrange(from as int, to as int)),
{
    let ghost whole = bytes@.subrange(from as int, to as int);
    let mut out: Vec<u8> = Vec::new();
    let mut i: usize = from;
    assert(whole.skip(0) == whole);
    while i < to
        invariant
            from <= i <= to <= bytes@.len(),
            whole == bytes@.subrange(from as int, to as int),
            out@ + percent_decoded(whole.skip(i - from)) == percent_decoded(whole),
        decreases to - i,
    {
        let ghost rest = whole.skip(i - from);
        let ghost before = out@;
        let b = bytes[i];
        assert(rest[0] == b);
        let mut step: usize = 1;
        let mut value: u8 = b;
        if b == 0x2B {
            value = 0x20;
        } else if b == 0x25 && to - i >= 3 {
            assert(rest[1] == bytes@[i + 1] && rest[2] == bytes@[i + 2]);
            match (from_hex(bytes[i + 1]), from_hex(bytes[i + 2])) {
                (Some(h), Some(l)) => {
                    value = h * 16 + l;
                    step = 3;
                },
                _ => {},
            }
        }
        out.push(value);
        proof {
            assert(rest.skip(step as int) == whole.skip(i + step - from));
            assert(percent_decoded(rest) == seq![value] + percent_decoded(rest.skip(step as int)));
            assert(before.push(value) + percent_decoded(rest.skip(step as int)) == before + (
            seq![value] + percent_decoded(rest.skip(step as int))));
        }
        i += step;
    }
    assert(out@ + Seq::<u8>::empty() == out@);
    out
}

/// Decodes a percent-encoded value and reads the bytes as text.
pub fn url_decode(input: &str) -> (out: String)
    ensures
        out@ == text_of_bytes(percent_decoded(input.spec_bytes())),
{
    let bytes = input.as_bytes();
    assert(bytes@.subrange(0, bytes@.len() as int) == bytes@);
    let decoded = percent_decode(bytes, 0, bytes.len());
    read_text(&decoded)
}

/// Bytes without a `+` and a `%` among them stand for themselves.
pub proof fn lemma_plain_bytes_stand_for_themselves(bytes: Seq<u8>)
    requires
        forall|i: int| 0 <= i < bytes.len() ==> #[trigger] bytes[i] != 0x2B && bytes[i] != 0x25,
    ensures
        percent_decoded(bytes) == bytes,
    decreases bytes.len(),
{
    if bytes.len() > 0 {
        let rest = bytes.skip(1);
        assert forall|i: int| 0 <= i < rest.len() implies #[trigger] rest[i] != 0x2B && rest[i]
            != 0x25 by {
            assert(rest[i] == bytes[i + 1]);
        }
        lemma_plain_bytes_stand_for_themselves(rest);
        assert(bytes[0] != 0x2B && bytes[0] != 0x25);
        assert(seq![bytes[0]] + rest == bytes);
    }
}

/// Text of ASCII characters without a `+` and a `%` among them.
pub open spec fn plain_text(s: Seq<char>) -> bool {
    is_ascii_chars(s) && forall|i: int| 0 <= i < s.len() ==> #[trigger] s[i] != '+' && s[i] != '%'
}

/// Plain text is its own value: sent as it stands, it is decoded to itself.
pub proof fn law_plain_text_is_its_own_value(s: Seq<char>)
    requires
        plain_text(s),
    ensures
        text_of_bytes(percent_decoded(encode_utf8(s))) == s,
{
    let bytes = encode_utf8(s);
    is_ascii_chars_encode_utf8(s);
    assert forall|i: int| 0 <= i < bytes.len() implies #[trigger] bytes[i] != 0x2B && bytes[i]
        != 0x25 by {
        assert(bytes[i] == s[i] as u8);
        assert('\0' <= s[i] <= '\u{7f}');
        assert(s[i] != '+' && s[i] != '%');
    }
    lemma_plain_bytes_stand_for_themselves(bytes);
    encode_utf8_valid_utf8(s);
    encode_utf8_decode_utf8(s);
}

/// The first position at or after `from`, and before `to`, that holds `b`;
/// `to` where there is none.
pub fn find_byte(bytes: &[u8], from: usize, to: usize, b: u8) -> (out: usize)
    requires
        from <= to <= bytes@.len(),
    ensures
        out == from + prefix_len(bytes@.subrange(from as int, to as int), other_than(b)),
        from <= out <= to,
{
    let mut i: usize = from;
    while i < to && bytes[i] != b
        invariant
            from <= i <= to <= bytes@.len(),
            forall|j: int| from <= j < i ==> #[trigger] bytes@[j] != b,
        decreases to - i,
    {
        i += 1;
    }
    proof {
        lemma_prefix_len_is(bytes@.subrange(from as int, to as int), other_than(b), i - from);
    }
    i
}

/// Whether `bytes[from..to]` is `other`.
pub fn bytes_eq(bytes: &[u8], from: usize, to: usize, other: &[u8]) -> (out: bool)
    requires
        from <= to <= bytes@.len(),
    ensures
        out == (bytes@.subrange(from as int, to as int) == other@),
{
    let ghost s = bytes@.subrange(from as int, to as int);
    if to - from != other.len() {
        return false;
    }
    let mut i: usize = 0;
    while i < other.len()
        invariant
            from <= to <= bytes@.len(),
            to - from == other@.len(),
            i <= other@.len(),
            s == bytes@.subrange(from as int, to as int),
            forall|j: int| 0 <= j < i ==> s[j] == other@[j],
        decreases other.len() - i,
    {
        if bytes[from + i] != other[i] {
            assert(s[i as int] != other@[i as int]);
            return false;
        }
        i += 1;
    }
    assert(s =~= other@);
    true
}

/// The value of the form field `key`, decoded, where `body` has a pair with
/// that key; of the first such pair where it has several.
pub fn form_value(body: &str, key: &str) -> (out: Option<String>)
    ensures
        opt_text(out) == field_text(form_field(body.spec_bytes(), key.spec_bytes())),
{
    let bytes = body.as_bytes();
    let wanted = key.as_bytes();
    let ghost pairs = split(bytes@, 0x26u8);
    let ghost p = keyed_otherwise(wanted@);
    let mut start: usize = 0;
    let ghost mut seen: int = 0;
    assert(bytes@.skip(0) == bytes@);
    loop
        invariant
            start <= bytes@.len(),
            bytes@ == body.spec_bytes(),
            wanted@ == key.spec_bytes(),
            pairs == split(bytes@, 0x26u8),
            p == keyed_otherwise(wanted@),
            0 <= seen < pairs.len(),
            pairs.skip(seen) == split(bytes@.skip(start as int), 0x26u8),
            forall|j: int| 0 <= j < seen ==> p(#[trigger] pairs[j]),
        decreases bytes@.len() - start,
    {
        let end = find_byte(bytes, start, bytes.len(), 0x26);
        let eq = find_byte(bytes, start, end, 0x3D);
        let ghost rest = bytes@.skip(start as int);
        let ghost pair = bytes@.subrange(start as int, end as int);
        proof {
            assert(rest == bytes@.subrange(start as int, bytes@.len() as int));
            assert(rest.take(end - start) == pair);
            let here = split(rest, 0x26u8);
            if end < bytes.len() {
                let tail = split(rest.skip(end - start + 1), 0x26u8);
                assert(here == seq![pair] + tail);
                assert(here.drop_first() == tail);
                assert(rest.skip(end - start + 1) == bytes@.skip(end + 1));
            } else {
                assert(rest.take(end - start) == rest);
                assert(here == seq![pair]);
            }
            assert(pairs.skip(seen)[0] == pair);
            assert(pairs[seen] == pair);
            assert(pair.take(eq - start) == bytes@.subrange(start as int, eq as int));
            assert(pair_key(pair) == bytes@.subrange(start as int, eq as int));
        }
        if bytes_eq(bytes, start, eq, wanted) {
            let from = if eq < end {
                eq + 1
            } else {
                end
            };
            proof {
                lemma_prefix_len_is(pairs, p, seen);
                if eq < end {
                    assert(pair.skip(eq - start + 1) == bytes@.subrange(eq + 1, end as int));
                } else {
                    assert(bytes@.subrange(end as int, end as int) == Seq::<u8>::empty());
                }
                assert(pair_value(pair) == bytes@.subrange(from as int, end as int));
            }
            let decoded = percent_decode(bytes, from, end);
            return Some(read_text(&decoded));
        }
        if end == bytes.len() {
            proof {
                assert(pairs.skip(seen).len() == 1);
                lemma_prefix_len_is(pairs, p, seen + 1);
            }
            return None;
        }
        proof {
            assert(pairs.skip(seen).drop_first() == pairs.skip(seen + 1));
            assert(pairs.skip(seen + 1).len() > 0) by {
                let tail = bytes@.skip(end + 1);
                assert(split(tail, 0x26u8).len() > 0);
            }
            seen = seen + 1;
        }
        start = end + 1;
    }
}

/// What stands for `c` in HTML text.
pub open spec fn escape_of(c: char) -> Seq<char> {
    if c == '<' {
        "&lt;"@
    } else if c == '>' {
        "&gt;"@
    } else if c == '&' {
        "&amp;"@
    } else if c == '"' {
        "&quot;"@
    } else if c == '\'' {
        "&#39;"@
    } else {
        seq![c]
    }
}

/// `s` with each character replaced by what stands for it in HTML text.
pub open spec fn escaped(s: Seq<char>) -> Seq<char>
    decreases s.len(),
{
    if s.len() == 0 {
        Seq::empty()
    } else {
        escaped(s.drop_last()) + escape_of(s.last())
    }
}

/// Whether `c` can begin or end markup, or a quoted value in it.
pub open spec fn is_markup(c: char) -> bool {
    c == '<' || c == '>' || c == '"' || c == '\''
}

/// Escaped text holds none of `<`, `>`, `"` and `'`.
pub proof fn law_escaped_has_no_markup(s: Seq<char>)
    ensures
        forall|i: int| 0 <= i < escaped(s).len() ==> !is_markup(#[trigger] escaped(s)[i]),
    decreases s.len(),
{
    reveal_strlit("&lt;");
    reveal_strlit("&gt;");
    reveal_strlit("&amp;");
    reveal_strlit("&quot;");
    reveal_strlit("&#39;");
    if s.len() > 0 {
        let front = escaped(s.drop_last());
        let last = escape_of(s.last());
        law_escaped_has_no_markup(s.drop_last());
        assert forall|j: int| 0 <= j < last.len() implies !is_markup(#[trigger] last[j]) by {}
        assert forall|i: int| 0 <= i < escaped(s).len() implies !is_markup(
            #[trigger] escaped(s)[i],
        ) by {
            if i < front.len() {
                assert(escaped(s)[i] == front[i]);
            } else {
                assert(escaped(s)[i] == last[i - front.len()]);
            }
        }
    }
}

/// Escapes text for an HTML page: `<`, `>`, `&`, `"` and `'` become
/// entities, and every other character stays.
pub fn html_escape(input: &str) -> (out: String)
    ensures
        out@ == escaped(input@),
{
    let v = chars_of(input);
    let mut out = String::new();
    let mut i: usize = 0;
    assert(v@.take(0) == Seq::<char>::empty());
    while i < v.len()
        invariant
            i <= v.len(),
            v@ == input@,
            out@ == escaped(v@.take(i as int)),
        decreases v.len() - i,
    {
        let c = v[i];
        proof {
            let upto = v@.take(i + 1);
            assert(upto.drop_last() == v@.take(i as int));
            assert(upto.last() == c);
        }
        if c == '<' {
            out.append("&lt;");
        } else if c == '>' {
            out.append("&gt;");
        } else if c == '&' {
            out.append("&amp;");
        } else if c == '"' {
            out.append("&quot;");
        } else if c == '\'' {
            out.append("&#39;");
        } else {
            out.push(c);
        }
        i += 1;
    }
    assert(v@.take(i as int) == v@);
    out
}

} // verus!
