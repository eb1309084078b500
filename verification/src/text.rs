//! Strings as sequences of characters.
//!
//! Every public function of this crate states its contract over the view of a
//! string, a `Seq<char>`. The executable code works on `Vec<char>`, which the
//! two conversions of this module produce and consume.

use vstd::prelude::*;

verus! {

/// `String::push` appends one character to the end of the string.
pub assume_specification[ String::push ](s: &mut String, ch: char)
    ensures
        final(s)@ == old(s)@.push(ch),
;

/// The characters of `s`, in order.
pub fn chars_of(s: &str) -> (out: Vec<char>)
    ensures
        out@ == s@,
{
    let mut out: Vec<char> = Vec::new();
    for c in it: s.chars()
        invariant
            out@ == it.seq().take(it.index()),
            it.seq() == s@,
    {
        out.push(c);
    }
    out
}

/// The string made of `v[from..to]`.
pub fn string_of(v: &Vec<char>, from: usize, to: usize) -> (out: String)
    requires
        from <= to <= v.len(),
    ensures
        out@ == v@.subrange(from as int, to as int),
{
    let mut out = String::new();
    let mut i: usize = from;
    while i < to
        invariant
            from <= i <= to <= v.len(),
            out@ == v@.subrange(from as int, i as int),
        decreases to - i,
    {
        out.push(v[i]);
        i += 1;
    }
    out
}

/// Whether `c` has the Unicode property White_Space.
pub open spec fn is_space(c: char) -> bool {
    let n = c as u32;
    ||| 0x09 <= n <= 0x0D
    ||| n == 0x20
    ||| n == 0x85
    ||| n == 0xA0
    ||| n == 0x1680
    ||| 0x2000 <= n <= 0x200A
    ||| n == 0x2028
    ||| n == 0x2029
    ||| n == 0x202F
    ||| n == 0x205F
    ||| n == 0x3000
}

/// Decides `is_space`.
pub fn is_whitespace(c: char) -> (out: bool)
    ensures
        out == is_space(c),
{
    let n: u32 = c as u32;
    (0x09 <= n && n <= 0x0D) || n == 0x20 || n == 0x85 || n == 0xA0 || n == 0x1680 || (0x2000 <= n
        && n <= 0x200A) || n == 0x2028 || n == 0x2029 || n == 0x202F || n == 0x205F || n == 0x3000
}

/// The predicate that holds of whitespace.
pub open spec fn space() -> spec_fn(char) -> bool {
    |c: char| is_space(c)
}

/// The predicate that holds of everything but whitespace.
pub open spec fn non_space() -> spec_fn(char) -> bool {
    |c: char| !is_space(c)
}

/// The predicate that holds of `x` alone.
pub open spec fn only<T>(x: T) -> spec_fn(T) -> bool {
    |y: T| y == x
}

/// The predicate that holds of everything but `x`.
pub open spec fn other_than<T>(x: T) -> spec_fn(T) -> bool {
    |y: T| y != x
}

/// The length of the longest prefix of `s` whose elements all satisfy `p`.
pub open spec fn prefix_len<T>(s: Seq<T>, p: spec_fn(T) -> bool) -> nat
    decreases s.len(),
{
    if s.len() > 0 && p(s[0]) {
        1 + prefix_len(s.drop_first(), p)
    } else {
        0
    }
}

/// The length of the longest suffix of `s` whose elements all satisfy `p`.
pub open spec fn suffix_len<T>(s: Seq<T>, p: spec_fn(T) -> bool) -> nat
    decreases s.len(),
{
    if s.len() > 0 && p(s.last()) {
        1 + suffix_len(s.drop_last(), p)
    } else {
        0
    }
}

/// `prefix_len(s, p)` is the first position whose element fails `p`, or the
/// length of `s` where there is none.
pub proof fn lemma_prefix_len<T>(s: Seq<T>, p: spec_fn(T) -> bool)
    ensures
        prefix_len(s, p) <= s.len(),
        forall|j: int| 0 <= j < prefix_len(s, p) ==> p(#[trigger] s[j]),
        prefix_len(s, p) < s.len() ==> !p(s[prefix_len(s, p) as int]),
    decreases s.len(),
{
    if s.len() > 0 && p(s[0]) {
        let t = s.drop_first();
        lemma_prefix_len(t, p);
        assert forall|j: int| 0 <= j < prefix_len(s, p) implies p(#[trigger] s[j]) by {
            if j > 0 {
                assert(s[j] == t[j - 1]);
            }
        }
        if prefix_len(s, p) < s.len() {
            assert(s[prefix_len(s, p) as int] == t[prefix_len(t, p) as int]);
        }
    }
}

/// A position `n` before which every element satisfies `p`, and which is the
/// end of `s` or holds an element that fails `p`, is `prefix_len(s, p)`.
pub proof fn lemma_prefix_len_is<T>(s: Seq<T>, p: spec_fn(T) -> bool, n: int)
    requires
        0 <= n <= s.len(),
        forall|j: int| 0 <= j < n ==> p(#[trigger] s[j]),
        n < s.len() ==> !p(s[n]),
    ensures
        prefix_len(s, p) == n,
    decreases n,
{
    if n > 0 {
        let t = s.drop_first();
        assert(p(s[0]));
        assert forall|j: int| 0 <= j < n - 1 implies p(#[trigger] t[j]) by {
            assert(t[j] == s[j + 1]);
        }
        lemma_prefix_len_is(t, p, n - 1);
    }
}

/// `prefix_len` of a sequence with one more element at its end.
pub proof fn lemma_prefix_len_push<T>(s: Seq<T>, p: spec_fn(T) -> bool, x: T)
    ensures
        prefix_len(s.push(x), p) == if prefix_len(s, p) < s.len() {
            prefix_len(s, p)
        } else if p(x) {
            s.len() + 1
        } else {
            s.len()
        },
{
    let n = prefix_len(s, p) as int;
    let t = s.push(x);
    lemma_prefix_len(s, p);
    assert forall|j: int| 0 <= j < n implies p(#[trigger] t[j]) by {
        assert(t[j] == s[j]);
    }
    if n < s.len() {
        assert(t[n] == s[n]);
        lemma_prefix_len_is(t, p, n);
    } else if p(x) {
        assert forall|j: int| 0 <= j < n + 1 implies p(#[trigger] t[j]) by {
            if j < n {
                assert(t[j] == s[j]);
            }
        }
        lemma_prefix_len_is(t, p, n + 1);
    } else {
        lemma_prefix_len_is(t, p, n);
    }
}

/// `suffix_len(s, p)` counts the elements behind the last one that fails `p`.
pub proof fn lemma_suffix_len<T>(s: Seq<T>, p: spec_fn(T) -> bool)
    ensures
        suffix_len(s, p) <= s.len(),
        forall|j: int| s.len() - suffix_len(s, p) <= j < s.len() ==> p(#[trigger] s[j]),
        suffix_len(s, p) < s.len() ==> !p(s[s.len() - suffix_len(s, p) - 1]),
    decreases s.len(),
{
    if s.len() > 0 && p(s.last()) {
        let t = s.drop_last();
        lemma_suffix_len(t, p);
        assert forall|j: int| s.len() - suffix_len(s, p) <= j < s.len() implies p(
            #[trigger] s[j],
        ) by {
            if j < s.len() - 1 {
                assert(s[j] == t[j]);
            }
        }
        if suffix_len(s, p) < s.len() {
            assert(s[s.len() - suffix_len(s, p) - 1] == t[t.len() - suffix_len(t, p) - 1]);
        }
    }
}

/// A count `n` of trailing elements that all satisfy `p`, in front of which
/// `s` begins or holds an element that fails `p`, is `suffix_len(s, p)`.
pub proof fn lemma_suffix_len_is<T>(s: Seq<T>, p: spec_fn(T) -> bool, n: int)
    requires
        0 <= n <= s.len(),
        forall|j: int| s.len() - n <= j < s.len() ==> p(#[trigger] s[j]),
        n < s.len() ==> !p(s[s.len() - n - 1]),
    ensures
        suffix_len(s, p) == n,
    decreases n,
{
    if n > 0 {
        let t = s.drop_last();
        assert(p(s[s.len() - 1]));
        assert forall|j: int| t.len() - (n - 1) <= j < t.len() implies p(#[trigger] t[j]) by {
            assert(t[j] == s[j]);
        }
        lemma_suffix_len_is(t, p, n - 1);
    }
}

/// Filtering a sequence with one more element at its end.
pub proof fn lemma_filter_push<T>(s: Seq<T>, p: spec_fn(T) -> bool, x: T)
    ensures
        s.push(x).filter(p) == if p(x) {
            s.filter(p).push(x)
        } else {
            s.filter(p)
        },
{
    reveal(Seq::filter);
    assert(s.push(x).drop_last() == s);
}

/// No character of `s` is whitespace.
pub open spec fn spaceless(s: Seq<char>) -> bool {
    forall|i: int| 0 <= i < s.len() ==> !is_space(#[trigger] s[i])
}

/// `s` without its leading whitespace.
pub open spec fn trim_start(s: Seq<char>) -> Seq<char> {
    s.skip(prefix_len(s, space()) as int)
}

/// `s` without its trailing whitespace.
pub open spec fn trim_end(s: Seq<char>) -> Seq<char> {
    s.take(s.len() - suffix_len(s, space()))
}

/// `s` without its leading and trailing whitespace.
pub open spec fn trim(s: Seq<char>) -> Seq<char> {
    trim_end(trim_start(s))
}

/// What `trim` returns neither begins nor ends with whitespace, and
/// trimming it again changes nothing.
pub proof fn law_trim_is_trimmed(s: Seq<char>)
    ensures
        trim(s).len() > 0 ==> !is_space(trim(s)[0]) && !is_space(trim(s).last()),
        trim(trim(s)) == trim(s),
{
    let a = trim_start(s);
    let t = trim(s);
    lemma_prefix_len(s, space());
    lemma_suffix_len(a, space());
    if t.len() > 0 {
        assert(t[0] == a[0]);
        assert(a[0] == s[prefix_len(s, space()) as int]);
        assert(t.last() == a[a.len() - suffix_len(a, space()) - 1]);
        lemma_prefix_len_is(t, space(), 0);
        assert(trim_start(t) == t);
        lemma_suffix_len_is(t, space(), 0);
        assert(trim_end(t) == t);
    } else {
        assert(prefix_len(t, space()) == 0);
        assert(trim_start(t) == t);
        assert(suffix_len(t, space()) == 0);
        assert(trim_end(t) == t);
    }
}

/// Whether `s` begins with `p`.
pub open spec fn starts_with<T>(s: Seq<T>, p: Seq<T>) -> bool {
    p.len() <= s.len() && s.take(p.len() as int) == p
}

/// Whether `s` ends with `p`.
pub open spec fn ends_with<T>(s: Seq<T>, p: Seq<T>) -> bool {
    p.len() <= s.len() && s.skip(s.len() - p.len()) == p
}

/// The pieces of `s` between the occurrences of `sep`: one more piece than
/// there are occurrences, each free of `sep`.
pub open spec fn split<T>(s: Seq<T>, sep: T) -> Seq<Seq<T>>
    decreases s.len(),
{
    let n = prefix_len(s, other_than(sep)) as int;
    if n < s.len() {
        seq![s.take(n)] + split(s.skip(n + 1), sep)
    } else {
        seq![s]
    }
}

/// The first position at or after `from`, and before `to`, whose character
/// fails to be whitespace; `to` where there is none.
pub fn skip_spaces(v: &Vec<char>, from: usize, to: usize) -> (out: usize)
    requires
        from <= to <= v.len(),
    ensures
        out == from + prefix_len(v@.subrange(from as int, to as int), space()),
        from <= out <= to,
{
    let mut i: usize = from;
    while i < to && is_whitespace(v[i])
        invariant
            from <= i <= to <= v.len(),
            forall|j: int| from <= j < i ==> is_space(#[trigger] v@[j]),
        decreases to - i,
    {
        i += 1;
    }
    proof {
        lemma_prefix_len_is(v@.subrange(from as int, to as int), space(), i - from);
    }
    i
}

/// The first position at or after `from`, and before `to`, whose character
/// is whitespace; `to` where there is none.
pub fn skip_non_spaces(v: &Vec<char>, from: usize, to: usize) -> (out: usize)
    requires
        from <= to <= v.len(),
    ensures
        out == from + prefix_len(v@.subrange(from as int, to as int), non_space()),
        from <= out <= to,
{
    let mut i: usize = from;
    while i < to && !is_whitespace(v[i])
        invariant
            from <= i <= to <= v.len(),
            forall|j: int| from <= j < i ==> !is_space(#[trigger] v@[j]),
        decreases to - i,
    {
        i += 1;
    }
    proof {
        lemma_prefix_len_is(v@.subrange(from as int, to as int), non_space(), i - from);
    }
    i
}

/// The first position at or after `from`, and before `to`, that holds `c`;
/// `to` where there is none.
pub fn find_char(v: &Vec<char>, from: usize, to: usize, c: char) -> (out: usize)
    requires
        from <= to <= v.len(),
    ensures
        out == from + prefix_len(v@.subrange(from as int, to as int), other_than(c)),
        from <= out <= to,
{
    let mut i: usize = from;
    while i < to && v[i] != c
        invariant
            from <= i <= to <= v.len(),
            forall|j: int| from <= j < i ==> #[trigger] v@[j] != c,
        decreases to - i,
    {
        i += 1;
    }
    proof {
        lemma_prefix_len_is(v@.subrange(from as int, to as int), other_than(c), i - from);
    }
    i
}

/// The end of the line that begins at `start`: the position of the next
/// line feed, or the end of `v`. The line is the first piece of what `v`
/// holds from `start` on, and the other pieces are those of what follows the
/// line feed.
pub fn line_end(v: &Vec<char>, start: usize) -> (end: usize)
    requires
        start <= v.len(),
    ensures
        start <= end <= v.len(),
        split(v@.skip(start as int), '\n')[0] == v@.subrange(start as int, end as int),
        split(v@.skip(start as int), '\n').drop_first() == if end < v.len() {
            split(v@.skip(end + 1), '\n')
        } else {
            Seq::empty()
        },
{
    let end = find_char(v, start, v.len(), '\n');
    proof {
        let rest = v@.skip(start as int);
        let lines = split(rest, '\n');
        assert(rest == v@.subrange(start as int, v@.len() as int));
        assert(rest.take(end - start) == v@.subrange(start as int, end as int));
        if end < v.len() {
            let tail = split(rest.skip(end - start + 1), '\n');
            assert(lines == seq![rest.take(end - start)] + tail);
            assert(lines.drop_first() == tail);
            assert(rest.skip(end - start + 1) == v@.skip(end + 1));
        } else {
            assert(lines == seq![rest]);
            assert(lines.drop_first() == Seq::<Seq<char>>::empty());
        }
    }
    end
}

/// The bounds of `v[from..to]` without its leading and trailing whitespace.
pub fn trim_range(v: &Vec<char>, from: usize, to: usize) -> (out: (usize, usize))
    requires
        from <= to <= v.len(),
    ensures
        from <= out.0 <= out.1 <= to,
        v@.subrange(out.0 as int, out.1 as int) == trim(v@.subrange(from as int, to as int)),
{
    let a = skip_spaces(v, from, to);
    let mut b: usize = to;
    while b > a && is_whitespace(v[b - 1])
        invariant
            from <= a <= b <= to <= v.len(),
            forall|j: int| b <= j < to ==> is_space(#[trigger] v@[j]),
        decreases b,
    {
        b -= 1;
    }
    proof {
        let s = v@.subrange(from as int, to as int);
        let t = trim_start(s);
        assert(t == v@.subrange(a as int, to as int));
        lemma_suffix_len_is(t, space(), to - b);
        assert(t.take(t.len() - (to - b)) == v@.subrange(a as int, b as int));
    }
    (a, b)
}

/// `s` without the whitespace around it.
pub fn trimmed(s: &str) -> (out: String)
    ensures
        out@ == trim(s@),
{
    let v = chars_of(s);
    assert(v@.subrange(0, v@.len() as int) == v@);
    let (a, b) = trim_range(&v, 0, v.len());
    string_of(&v, a, b)
}

/// Whether `v[from..to]` is `w`.
pub fn range_eq(v: &Vec<char>, from: usize, to: usize, w: &Vec<char>) -> (out: bool)
    requires
        from <= to <= v.len(),
    ensures
        out == (v@.subrange(from as int, to as int) == w@),
{
    let ghost s = v@.subrange(from as int, to as int);
    if to - from != w.len() {
        return false;
    }
    let mut i: usize = 0;
    while i < w.len()
        invariant
            from <= to <= v.len(),
            to - from == w.len(),
            i <= w.len(),
            s == v@.subrange(from as int, to as int),
            forall|j: int| 0 <= j < i ==> s[j] == w@[j],
        decreases w.len() - i,
    {
        if v[from + i] != w[i] {
            assert(s[i as int] != w@[i as int]);
            return false;
        }
        i += 1;
    }
    assert(s =~= w@);
    true
}

/// Whether `v[from..to]` begins with `w`.
pub fn range_starts_with(v: &Vec<char>, from: usize, to: usize, w: &Vec<char>) -> (out: bool)
    requires
        from <= to <= v.len(),
    ensures
        out == starts_with(v@.subrange(from as int, to as int), w@),
{
    if to - from < w.len() {
        return false;
    }
    assert(v@.subrange(from as int, to as int).take(w.len() as int) == v@.subrange(
        from as int,
        from + w.len(),
    ));
    range_eq(v, from, from + w.len(), w)
}

/// Whether `v[from..to]` ends with `w`.
pub fn range_ends_with(v: &Vec<char>, from: usize, to: usize, w: &Vec<char>) -> (out: bool)
    requires
        from <= to <= v.len(),
    ensures
        out == ends_with(v@.subrange(from as int, to as int), w@),
{
    if to - from < w.len() {
        return false;
    }
    assert(v@.subrange(from as int, to as int).skip(to - from - w.len()) == v@.subrange(
        to - w.len(),
        to as int,
    ));
    range_eq(v, to - w.len(), to, w)
}

/// The views of a sequence of strings.
pub open spec fn texts(v: Seq<String>) -> Seq<Seq<char>> {
    v.map_values(|s: String| s@)
}

/// The view of an optional string.
pub open spec fn opt_text(s: Option<String>) -> Option<Seq<char>> {
    match s {
        Some(s) => Some(s@),
        None => None,
    }
}

/// Whether `a` and `b` hold the same characters.
pub fn str_eq(a: &str, b: &str) -> (out: bool)
    ensures
        out == (a@ == b@),
{
    let va = chars_of(a);
    let vb = chars_of(b);
    assert(va@.subrange(0, va@.len() as int) == va@);
    range_eq(&va, 0, va.len(), &vb)
}

/// What `str::to_uppercase` makes of a string: its uppercase form by the
/// Unicode case mappings, which may be longer than the string.
pub uninterp spec fn uppercase(s: Seq<char>) -> Seq<char>;

/// What `str::to_lowercase` makes of a string: its lowercase form by the
/// Unicode case mappings.
pub uninterp spec fn lowercase(s: Seq<char>) -> Seq<char>;

/// Calls `str::to_uppercase`. The result depends on the characters of `s`
/// alone; nothing more is claimed of it.
#[verifier::external_body]
pub(crate) fn to_uppercase(s: &str) -> (out: String)
    ensures
        out@ == uppercase(s@),
{
    s.to_uppercase()
}

/// Calls `str::to_lowercase`. The result depends on the characters of `s`
/// alone; nothing more is claimed of it.
#[verifier::external_body]
pub(crate) fn to_lowercase(s: &str) -> (out: String)
    ensures
        out@ == lowercase(s@),
{
    s.to_lowercase()
}

} // verus!
