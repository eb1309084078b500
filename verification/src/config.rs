//! The configuration, which is kept as small text files: two endpoints, the
//! switch of the request log, and the paths that the log passes over.
//!
//! Nothing here reads a file. Each function takes the text of a file, which
//! is empty where the file is missing, and says what it configures.

use vstd::prelude::*;
use crate::text::{
    chars_of, ends_with, line_end, lemma_suffix_len_is, lowercase, only, opt_text,
    range_ends_with, range_eq, range_starts_with, split, starts_with, str_eq, string_of,
    suffix_len, texts, to_lowercase, trim, trim_range, trimmed,
};

verus! {

/// The refresh endpoint where none is configured.
pub open spec fn default_refresh_endpoint() -> Seq<char> {
    "/api/v1/authentication/refresh"@
}

/// The ping endpoint where none is configured.
pub open spec fn default_ping_endpoint() -> Seq<char> {
    "/api/v1/ping"@
}

/// The value that the text of a file configures: the text without the
/// whitespace around it, or `default` where nothing is left.
pub open spec fn scalar_or(contents: Seq<char>, default: Seq<char>) -> Seq<char> {
    let t = trim(contents);
    if t.len() == 0 {
        default
    } else {
        t
    }
}

/// Reads a value from the text of its file.
pub fn read_scalar(contents: &str, default: &str) -> (out: String)
    ensures
        out@ == scalar_or(contents@, default@),
{
    let v = chars_of(contents);
    assert(v@.subrange(0, v@.len() as int) == v@);
    let (a, b) = trim_range(&v, 0, v.len());
    if a == b {
        default.to_owned()
    } else {
        string_of(&v, a, b)
    }
}

/// Reads the refresh endpoint from the text of its file.
pub fn read_refresh_endpoint(contents: &str) -> (out: String)
    ensures
        out@ == scalar_or(contents@, default_refresh_endpoint()),
{
    read_scalar(contents, "/api/v1/authentication/refresh")
}

/// Reads the ping endpoint from the text of its file.
pub fn read_ping_endpoint(contents: &str) -> (out: String)
    ensures
        out@ == scalar_or(contents@, default_ping_endpoint()),
{
    read_scalar(contents, "/api/v1/ping")
}

/// A value without whitespace around it reads back as itself.
pub proof fn law_scalar_reads_back(value: Seq<char>, default: Seq<char>)
    requires
        value.len() > 0,
        trim(value) == value,
    ensures
        scalar_or(value, default) == value,
{
}

/// Whether a word in lower case says that the log is on: `on`, `true`, `1`,
/// or nothing at all.
pub open spec fn enabled_word(word: Seq<char>) -> bool {
    word.len() == 0 || word == "on"@ || word == "true"@ || word == "1"@
}

/// Whether the text of the switch's file says that the log is on: without
/// the whitespace around it, the text is an `enabled_word` as it stands or in
/// its lowercase form. So the log is on where the file says nothing.
pub open spec fn log_enabled(contents: Seq<char>) -> bool {
    let t = trim(contents);
    enabled_word(t) || enabled_word(lowercase(t))
}

/// Decides `enabled_word`.
pub fn is_enabled_word(word: &str) -> (out: bool)
    ensures
        out == enabled_word(word@),
{
    word.is_empty() || str_eq(word, "on") || str_eq(word, "true") || str_eq(word, "1")
}

/// Reads the switch of the request log from the text of its file.
pub fn read_log_enabled(contents: &str) -> (out: bool)
    ensures
        out == log_enabled(contents@),
{
    let word = trimmed(contents);
    if is_enabled_word(word.as_str()) {
        return true;
    }
    let lowered = to_lowercase(word.as_str());
    is_enabled_word(lowered.as_str())
}

/// A `*` stands nowhere in `p` but at its end, behind a `/`.
pub open spec fn wildcard_ok(p: Seq<char>) -> bool {
    forall|i: int|
        0 <= i < p.len() && #[trigger] p[i] == '*' ==> i == p.len() - 1 && i >= 1 && p[i - 1]
            == '/'
}

/// The pattern that a line stands for, if it is one: the line without the
/// whitespace around it, with a `/` put in front where it has none. A blank
/// line is no pattern, nor one with a `\`, nor one with a `*` anywhere but in
/// a closing `/*`.
pub open spec fn normalized_pattern(line: Seq<char>) -> Option<Seq<char>> {
    let raw = trim(line);
    let p = if raw.len() > 0 && raw[0] == '/' {
        raw
    } else {
        seq!['/'] + raw
    };
    if raw.len() == 0 || p.contains('\\') || !wildcard_ok(p) {
        None
    } else {
        Some(p)
    }
}

/// The patterns that a sequence of lines holds, in order.
pub open spec fn patterns_of_lines(lines: Seq<Seq<char>>) -> Seq<Seq<char>>
    decreases lines.len(),
{
    if lines.len() == 0 {
        Seq::empty()
    } else {
        let rest = patterns_of_lines(lines.drop_first());
        match normalized_pattern(lines[0]) {
            Some(p) => seq![p] + rest,
            None => rest,
        }
    }
}

/// The patterns that are always there.
pub open spec fn built_in_patterns() -> Seq<Seq<char>> {
    seq!["/"@, "/events"@]
}

/// The patterns in force: the built-in ones, then those of the file.
pub open spec fn log_ignore_patterns(contents: Seq<char>) -> Seq<Seq<char>> {
    built_in_patterns() + patterns_of_lines(split(contents, '\n'))
}

/// Whether `pattern` covers `path`. A pattern that ends in `/*` covers what
/// begins with it up to and with that slash, and also the path that is the
/// pattern without the `*` and without the slashes in front of it. Any other
/// pattern covers the path that equals it.
pub open spec fn pattern_matches(pattern: Seq<char>, path: Seq<char>) -> bool {
    if ends_with(pattern, "/*"@) {
        let prefix = pattern.drop_last();
        let base = prefix.take(prefix.len() - suffix_len(prefix, only('/')));
        path == base || starts_with(path, prefix)
    } else {
        path == pattern
    }
}

/// Whether one of `patterns` covers `path`.
pub open spec fn ignored(patterns: Seq<Seq<char>>, path: Seq<char>) -> bool {
    exists|i: int| 0 <= i < patterns.len() && pattern_matches(#[trigger] patterns[i], path)
}

/// Reads the pattern that the line `v[from..to]` stands for.
pub fn normalize_pattern_in(v: &Vec<char>, from: usize, to: usize) -> (out: Option<String>)
    requires
        from <= to <= v.len(),
    ensures
        opt_text(out) == normalized_pattern(v@.subrange(from as int, to as int)),
{
    let (a, b) = trim_range(v, from, to);
    let ghost raw = v@.subrange(a as int, b as int);
    if a == b {
        return None;
    }
    assert(raw[0] == v@[a as int]);
    let mut p: Vec<char> = Vec::new();
    if v[a] != '/' {
        p.push('/');
    }
    let ghost lead = p@;
    let mut i: usize = a;
    while i < b
        invariant
            a <= i <= b <= v.len(),
            p@ == lead + v@.subrange(a as int, i as int),
        decreases b - i,
    {
        p.push(v[i]);
        i += 1;
    }
    let ghost line = v@.subrange(from as int, to as int);
    assert(p@ == if raw[0] == '/' {
        raw
    } else {
        seq!['/'] + raw
    });
    let mut k: usize = 0;
    while k < p.len()
        invariant
            k <= p.len(),
            raw == trim(line),
            raw.len() > 0,
            p@ == if raw[0] == '/' {
                raw
            } else {
                seq!['/'] + raw
            },
            line == v@.subrange(from as int, to as int),
            forall|j: int| 0 <= j < k ==> p@[j] != '\\',
            forall|j: int|
                0 <= j < k && #[trigger] p@[j] == '*' ==> j == p@.len() - 1 && j >= 1 && p@[j - 1]
                    == '/',
        decreases p.len() - k,
    {
        if p[k] == '\\' {
            assert(p@[k as int] == '\\');
            return None;
        }
        if p[k] == '*' && !(k == p.len() - 1 && k >= 1 && p[k - 1] == '/') {
            return None;
        }
        k += 1;
    }
    assert(p@.subrange(0, p@.len() as int) == p@);
    Some(string_of(&p, 0, p.len()))
}

/// Reads a pattern of the log's ignore list from one line.
pub fn normalize_log_pattern(input: &str) -> (out: Option<String>)
    ensures
        opt_text(out) == normalized_pattern(input@),
{
    let v = chars_of(input);
    assert(v@.subrange(0, v@.len() as int) == v@);
    normalize_pattern_in(&v, 0, v.len())
}

/// Reads the patterns that a text holds, one to a line: the pattern of each
/// line that stands for one, in order.
pub fn read_patterns(contents: &str) -> (out: Vec<String>)
    ensures
        texts(out@) == patterns_of_lines(split(contents@, '\n')),
{
    let v = chars_of(contents);
    let mut out: Vec<String> = Vec::new();
    let mut start: usize = 0;
    proof {
        assert(v@.skip(0) == v@);
        assert(texts(out@) + patterns_of_lines(split(v@, '\n')) == patterns_of_lines(
            split(v@, '\n'),
        ));
    }
    loop
        invariant
            start <= v.len(),
            v@ == contents@,
            texts(out@) + patterns_of_lines(split(v@.skip(start as int), '\n'))
                == patterns_of_lines(split(contents@, '\n')),
        decreases v.len() - start,
    {
        let end = line_end(&v, start);
        let found = normalize_pattern_in(&v, start, end);
        let ghost rest = v@.skip(start as int);
        let ghost before = texts(out@);
        match found {
            Some(p) => {
                proof {
                    assert(texts(out@.push(p)) == before.push(p@));
                    let tail = patterns_of_lines(split(rest, '\n').drop_first());
                    assert(before.push(p@) + tail == before + (seq![p@] + tail));
                }
                out.push(p);
            },
            None => {},
        }
        if end == v.len() {
            proof {
                assert(patterns_of_lines(Seq::<Seq<char>>::empty()) == Seq::<Seq<char>>::empty());
                assert(texts(out@) + Seq::<Seq<char>>::empty() == texts(out@));
            }
            return out;
        }
        start = end + 1;
    }
}

/// Reads the log's ignore list from the text of its file: the built-in
/// patterns, then the pattern of each line that stands for one.
pub fn read_log_ignore_patterns(contents: &str) -> (out: Vec<String>)
    ensures
        texts(out@) == log_ignore_patterns(contents@),
{
    let mut out: Vec<String> = Vec::new();
    out.push("/".to_owned());
    out.push("/events".to_owned());
    assert(texts(out@) == built_in_patterns());
    let mut from_file = read_patterns(contents);
    let ghost tail = texts(from_file@);
    out.append(&mut from_file);
    assert(texts(out@) == built_in_patterns() + tail);
    out
}

/// Decides `pattern_matches`.
pub fn matches_pattern(pattern: &Vec<char>, path: &Vec<char>) -> (out: bool)
    ensures
        out == pattern_matches(pattern@, path@),
{
    let n = pattern.len();
    let tail = chars_of("/*");
    assert(pattern@.subrange(0, n as int) == pattern@);
    assert(path@.subrange(0, path@.len() as int) == path@);
    if !range_ends_with(pattern, 0, n, &tail) {
        return range_eq(path, 0, path.len(), pattern);
    }
    proof {
        reveal_strlit("/*");
    }
    let ghost prefix = pattern@.drop_last();
    let mut e: usize = n - 1;
    while e > 0 && pattern[e - 1] == '/'
        invariant
            e <= n - 1,
            n == pattern@.len(),
            forall|j: int| e <= j < n - 1 ==> #[trigger] pattern@[j] == '/',
        decreases e,
    {
        e -= 1;
    }
    proof {
        assert forall|j: int| prefix.len() - (n - 1 - e) <= j < prefix.len() implies only('/')(
            #[trigger] prefix[j],
        ) by {
            assert(prefix[j] == pattern@[j]);
        }
        if e > 0 {
            assert(prefix[e - 1] == pattern@[e - 1]);
        }
        lemma_suffix_len_is(prefix, only('/'), n - 1 - e);
        assert(prefix.take(e as int) == pattern@.subrange(0, e as int));
        assert(prefix == pattern@.subrange(0, n - 1));
    }
    let base = string_of(pattern, 0, e);
    let head = string_of(pattern, 0, n - 1);
    let base_chars = chars_of(base.as_str());
    let head_chars = chars_of(head.as_str());
    range_eq(path, 0, path.len(), &base_chars) || range_starts_with(
        path,
        0,
        path.len(),
        &head_chars,
    )
}

/// Whether one of `patterns` covers `path`.
pub fn matches_any(patterns: &Vec<String>, path: &str) -> (out: bool)
    ensures
        out == ignored(texts(patterns@), path@),
{
    let p = chars_of(path);
    let ghost all = texts(patterns@);
    let mut i: usize = 0;
    while i < patterns.len()
        invariant
            i <= patterns.len(),
            p@ == path@,
            all == texts(patterns@),
            forall|j: int| 0 <= j < i ==> !pattern_matches(#[trigger] all[j], path@),
        decreases patterns.len() - i,
    {
        let pattern = chars_of(patterns[i].as_str());
        assert(all[i as int] == pattern@);
        if matches_pattern(&pattern, &p) {
            return true;
        }
        i += 1;
    }
    false
}

/// Whether the request log passes over `path`, given the text of the
/// ignore list's file.
pub fn is_log_ignored(path: &str, contents: &str) -> (out: bool)
    ensures
        out == ignored(log_ignore_patterns(contents@), path@),
{
    let patterns = read_log_ignore_patterns(contents);
    matches_any(&patterns, path)
}

/// Whether a request for `path` is logged: the log is on, and no pattern of
/// the ignore list covers the path.
pub fn should_log(path: &str, enabled_contents: &str, ignore_contents: &str) -> (out: bool)
    ensures
        out == (log_enabled(enabled_contents@) && !ignored(
            log_ignore_patterns(ignore_contents@),
            path@,
        )),
{
    read_log_enabled(enabled_contents) && !is_log_ignored(path, ignore_contents)
}

/// The log passes over `/` and `/events` whatever the ignore list's file
/// holds.
pub proof fn law_built_in_patterns_ignored(contents: Seq<char>)
    ensures
        ignored(log_ignore_patterns(contents), "/"@),
        ignored(log_ignore_patterns(contents), "/events"@),
{
    reveal_strlit("/");
    reveal_strlit("/events");
    reveal_strlit("/*");
    let all = log_ignore_patterns(contents);
    assert(all[0] == "/"@);
    assert(all[1] == "/events"@);
    assert(!ends_with("/"@, "/*"@));
    assert(!ends_with("/events"@, "/*"@)) by {
        let s = "/events"@;
        assert(s.skip(5)[1] == 's');
        assert("/*"@[1] == '*');
    }
    assert(pattern_matches(all[0], "/"@));
    assert(pattern_matches(all[1], "/events"@));
}

/// A pattern `<base>/*` covers `<base>` itself and what begins with
/// `<base>/`, and nothing else: not a path that merely begins with `<base>`.
pub proof fn law_prefix_pattern(base: Seq<char>, path: Seq<char>)
    requires
        base.len() == 0 || base.last() != '/',
    ensures
        pattern_matches(base + "/*"@, path) <==> path == base || starts_with(
            path,
            base + seq!['/'],
        ),
{
    reveal_strlit("/*");
    let pattern = base + "/*"@;
    let prefix = pattern.drop_last();
    assert(pattern.skip(pattern.len() - 2) == "/*"@);
    assert(prefix == base + seq!['/']);
    assert(prefix[prefix.len() - 1] == '/');
    if base.len() > 0 {
        assert(prefix[prefix.len() - 2] == base.last());
    }
    lemma_suffix_len_is(prefix, only('/'), 1);
    assert(prefix.take(prefix.len() - 1) == base);
}

} // verus!
