//! Which names and relative paths may be joined to a directory.
//!
//! A path is accepted only when it is plainly a chain of ordinary names. No
//! path is brought into a normal form first: what would need one is refused.

use vstd::prelude::*;
use crate::text::{
    chars_of, find_char, lemma_prefix_len, lemma_prefix_len_is, other_than, prefix_len, split,
};

verus! {

/// A single name: not empty, neither `.` nor `..`, and free of `/` and `\`.
pub open spec fn safe_segment(s: Seq<char>) -> bool {
    &&& s.len() > 0
    &&& s != seq!['.']
    &&& s != seq!['.', '.']
    &&& !s.contains('/')
    &&& !s.contains('\\')
}

/// A relative path: every piece between its slashes is a `safe_segment`.
/// This leaves out the empty path, a leading or trailing slash, and two
/// slashes in a row, each of which has an empty piece.
pub open spec fn safe_rel_path(p: Seq<char>) -> bool {
    forall|i: int| 0 <= i < split(p, '/').len() ==> safe_segment(#[trigger] split(p, '/')[i])
}

/// A path is safe when its first piece is, and so is what follows the first
/// slash, if there is one.
pub proof fn lemma_safe_rel_path_step(p: Seq<char>)
    ensures
        ({
            let n = prefix_len(p, other_than('/')) as int;
            safe_rel_path(p) <==> safe_segment(p.take(n)) && (n < p.len() ==> safe_rel_path(
                p.skip(n + 1),
            ))
        }),
{
    let n = prefix_len(p, other_than('/')) as int;
    lemma_prefix_len(p, other_than('/'));
    let all = split(p, '/');
    if n < p.len() {
        let rest = split(p.skip(n + 1), '/');
        assert(all == seq![p.take(n)] + rest);
        assert(all[0] == p.take(n));
        assert forall|i: int| 0 <= i < rest.len() implies rest[i] == all[i + 1] by {}
        if safe_segment(p.take(n)) && safe_rel_path(p.skip(n + 1)) {
            assert forall|i: int| 0 <= i < all.len() implies safe_segment(#[trigger] all[i]) by {
                if i > 0 {
                    assert(all[i] == rest[i - 1]);
                }
            }
        }
        if safe_rel_path(p) {
            assert(safe_segment(all[0]));
            assert forall|i: int| 0 <= i < rest.len() implies safe_segment(#[trigger] rest[i]) by {
                assert(rest[i] == all[i + 1]);
            }
        }
    } else {
        assert(all == seq![p]);
        assert(p.take(n) == p);
        assert(all[0] == p);
    }
}

/// A safe segment is a safe relative path.
pub proof fn lemma_segment_is_path(name: Seq<char>)
    requires
        safe_segment(name),
    ensures
        safe_rel_path(name),
{
    assert forall|j: int| 0 <= j < name.len() implies other_than('/')(#[trigger] name[j]) by {
        assert(name.contains(name[j]));
    }
    lemma_prefix_len_is(name, other_than('/'), name.len() as int);
    assert(split(name, '/') == seq![name]);
}

/// A safe relative path behind a safe segment and a slash is a safe relative
/// path.
pub proof fn lemma_segment_then_path(segment: Seq<char>, path: Seq<char>)
    requires
        safe_segment(segment),
        safe_rel_path(path),
    ensures
        safe_rel_path(segment + seq!['/'] + path),
{
    let whole = segment + seq!['/'] + path;
    let n = segment.len() as int;
    assert forall|j: int| 0 <= j < n implies other_than('/')(#[trigger] whole[j]) by {
        assert(whole[j] == segment[j]);
        assert(segment.contains(segment[j]));
    }
    assert(whole[n] == '/');
    lemma_prefix_len_is(whole, other_than('/'), n);
    lemma_safe_rel_path_step(whole);
    assert(whole.take(n) == segment);
    assert(whole.skip(n + 1) == path);
}

/// Decides `safe_segment` of `v[from..to]`.
pub fn safe_segment_in(v: &Vec<char>, from: usize, to: usize) -> (out: bool)
    requires
        from <= to <= v.len(),
    ensures
        out == safe_segment(v@.subrange(from as int, to as int)),
{
    let ghost s = v@.subrange(from as int, to as int);
    let len = to - from;
    if len == 0 {
        return false;
    }
    if len == 1 && v[from] == '.' {
        assert(s == seq!['.']);
        return false;
    }
    if len == 2 && v[from] == '.' && v[from + 1] == '.' {
        assert(s == seq!['.', '.']);
        return false;
    }
    assert(s != seq!['.']) by {
        let dot = seq!['.'];
        assert(dot.len() == 1 && dot[0] == '.');
        assert(s.len() == len && s[0] == v@[from as int]);
    }
    assert(s != seq!['.', '.']) by {
        let dots = seq!['.', '.'];
        assert(dots.len() == 2 && dots[0] == '.' && dots[1] == '.');
        assert(s.len() == len && s[0] == v@[from as int]);
        if len == 2 {
            assert(s[1] == v@[from + 1]);
        }
    }
    let mut i: usize = from;
    while i < to
        invariant
            from <= i <= to <= v.len(),
            s == v@.subrange(from as int, to as int),
            forall|j: int| 0 <= j < i - from ==> s[j] != '/' && s[j] != '\\',
        decreases to - i,
    {
        if v[i] == '/' || v[i] == '\\' {
            assert(s[i - from] == v@[i as int]);
            return false;
        }
        i += 1;
    }
    true
}

/// Decides `safe_rel_path` of `v[from..to]`.
pub fn safe_rel_path_in(v: &Vec<char>, from: usize, to: usize) -> (out: bool)
    requires
        from <= to <= v.len(),
    ensures
        out == safe_rel_path(v@.subrange(from as int, to as int)),
{
    let ghost whole = v@.subrange(from as int, to as int);
    let mut start: usize = from;
    loop
        invariant
            from <= start <= to <= v.len(),
            whole == v@.subrange(from as int, to as int),
            safe_rel_path(whole) == safe_rel_path(v@.subrange(start as int, to as int)),
        decreases to - start,
    {
        let end = find_char(v, start, to, '/');
        proof {
            let p = v@.subrange(start as int, to as int);
            lemma_safe_rel_path_step(p);
            assert(p.take(end - start) == v@.subrange(start as int, end as int));
            if end < to {
                assert(p.skip(end - start + 1) == v@.subrange(end + 1, to as int));
            }
        }
        if !safe_segment_in(v, start, end) {
            return false;
        }
        if end == to {
            return true;
        }
        start = end + 1;
    }
}

/// Whether `segment` may name one file or directory.
pub fn is_safe_segment(segment: &str) -> (out: bool)
    ensures
        out == safe_segment(segment@),
{
    let v = chars_of(segment);
    assert(v@.subrange(0, v@.len() as int) == v@);
    safe_segment_in(&v, 0, v.len())
}

/// Whether `path` is a chain of ordinary names joined by single slashes.
pub fn is_safe_rel_path(path: &str) -> (out: bool)
    ensures
        out == safe_rel_path(path@),
{
    let v = chars_of(path);
    assert(v@.subrange(0, v@.len() as int) == v@);
    safe_rel_path_in(&v, 0, v.len())
}

} // verus!
