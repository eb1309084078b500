//! The listings of the JSON files and folders, in order.
//!
//! Nothing here reads a directory. Each function takes the names that were
//! found, keeps those that are safe, and returns them sorted as strings are
//! ordered: character by character, a prefix before what it begins.

use vstd::prelude::*;
use vstd::string::StringExecFns;
use crate::path_guard::{
    lemma_segment_is_path, lemma_segment_then_path, safe_rel_path, safe_rel_path_in, safe_segment,
    safe_segment_in,
};
use crate::text::{chars_of, lemma_filter_push, string_of, texts};

verus! {

/// Whether `a` comes before `b`, or is `b`, in the order of strings.
pub open spec fn lex_le(a: Seq<char>, b: Seq<char>) -> bool
    decreases a.len(),
{
    if a.len() == 0 {
        true
    } else if b.len() == 0 {
        false
    } else if a[0] != b[0] {
        a[0] < b[0]
    } else {
        lex_le(a.drop_first(), b.drop_first())
    }
}

/// Of two strings, one comes before the other or is the other.
pub proof fn lemma_lex_total(a: Seq<char>, b: Seq<char>)
    ensures
        lex_le(a, b) || lex_le(b, a),
    decreases a.len(),
{
    if a.len() > 0 && b.len() > 0 && a[0] == b[0] {
        lemma_lex_total(a.drop_first(), b.drop_first());
    }
}

/// The order of strings is transitive.
pub proof fn lemma_lex_trans(a: Seq<char>, b: Seq<char>, c: Seq<char>)
    requires
        lex_le(a, b),
        lex_le(b, c),
    ensures
        lex_le(a, c),
    decreases a.len(),
{
    if a.len() > 0 && b.len() > 0 && c.len() > 0 && a[0] == b[0] && b[0] == c[0] {
        lemma_lex_trans(a.drop_first(), b.drop_first(), c.drop_first());
    }
}

/// Two strings of which each comes before the other or is the other are the
/// same string.
pub proof fn lemma_lex_antisymmetric(a: Seq<char>, b: Seq<char>)
    requires
        lex_le(a, b),
        lex_le(b, a),
    ensures
        a == b,
    decreases a.len(),
{
    if a.len() > 0 && b.len() > 0 {
        lemma_lex_antisymmetric(a.drop_first(), b.drop_first());
        assert(a == seq![a[0]] + a.drop_first());
        assert(b == seq![b[0]] + b.drop_first());
    } else {
        assert(a == b);
    }
}

/// Every element of `s` comes before those behind it, or equals them.
pub open spec fn sorted(s: Seq<Seq<char>>) -> bool {
    forall|i: int, j: int| 0 <= i < j < s.len() ==> lex_le(#[trigger] s[i], #[trigger] s[j])
}

/// The views of a sequence of character vectors.
pub open spec fn views(v: Seq<Vec<char>>) -> Seq<Seq<char>> {
    v.map_values(|x: Vec<char>| x@)
}

/// Inserting an element puts it into the multiset once more.
pub proof fn lemma_insert_to_multiset<T>(s: Seq<T>, i: int, x: T)
    requires
        0 <= i <= s.len(),
    ensures
        s.insert(i, x).to_multiset() == s.to_multiset().insert(x),
{
    broadcast use vstd::seq_lib::group_to_multiset_ensures;

    let t = s.insert(i, x);
    assert(t[i] == x);
    assert(t.remove(i) == s);
    assert(t.contains(x));
    assert(t.to_multiset() =~= s.to_multiset().insert(x));
}

/// There is one way to sort: two sorted sequences that hold the same
/// strings, each as often as the other, are the same sequence.
pub proof fn law_sorted_is_unique(a: Seq<Seq<char>>, b: Seq<Seq<char>>)
    requires
        sorted(a),
        sorted(b),
        a.to_multiset() == b.to_multiset(),
    ensures
        a == b,
    decreases a.len(),
{
    a.to_multiset_ensures();
    b.to_multiset_ensures();
    assert(a.len() == b.len());
    if a.len() > 0 {
        // Each first element occurs in the other sequence, behind its first
        // element or as it.
        assert(a.contains(a[0]));
        assert(b.to_multiset().count(a[0]) > 0);
        assert(b.contains(a[0]));
        let i = choose|i: int| 0 <= i < b.len() && b[i] == a[0];
        assert(lex_le(b[0], a[0])) by {
            if i == 0 {
                lemma_lex_total(b[0], b[0]);
            }
        }
        assert(b.contains(b[0]));
        assert(a.to_multiset().count(b[0]) > 0);
        assert(a.contains(b[0]));
        let j = choose|j: int| 0 <= j < a.len() && a[j] == b[0];
        assert(lex_le(a[0], b[0])) by {
            if j == 0 {
                lemma_lex_total(a[0], a[0]);
            }
        }
        lemma_lex_antisymmetric(a[0], b[0]);
        let ra = a.drop_first();
        let rb = b.drop_first();
        assert(ra == a.remove(0));
        assert(rb == b.remove(0));
        assert(ra.to_multiset() == rb.to_multiset());
        assert(sorted(ra)) by {
            assert forall|i: int, j: int| 0 <= i < j < ra.len() implies lex_le(
                #[trigger] ra[i],
                #[trigger] ra[j],
            ) by {
                assert(ra[i] == a[i + 1] && ra[j] == a[j + 1]);
            }
        }
        assert(sorted(rb)) by {
            assert forall|i: int, j: int| 0 <= i < j < rb.len() implies lex_le(
                #[trigger] rb[i],
                #[trigger] rb[j],
            ) by {
                assert(rb[i] == b[i + 1] && rb[j] == b[j + 1]);
            }
        }
        law_sorted_is_unique(ra, rb);
        assert(a == seq![a[0]] + ra);
        assert(b == seq![b[0]] + rb);
    }
}

/// Decides `lex_le`.
pub fn le_chars(a: &Vec<char>, b: &Vec<char>) -> (out: bool)
    ensures
        out == lex_le(a@, b@),
{
    let mut i: usize = 0;
    assert(a@.skip(0) == a@ && b@.skip(0) == b@);
    while i < a.len() && i < b.len()
        invariant
            i <= a.len(),
            i <= b.len(),
            lex_le(a@, b@) == lex_le(a@.skip(i as int), b@.skip(i as int)),
        decreases a.len() - i,
    {
        let x = a[i];
        let y = b[i];
        proof {
            assert(a@.skip(i as int)[0] == a@[i as int]);
            assert(b@.skip(i as int)[0] == b@[i as int]);
            assert(a@.skip(i as int).drop_first() == a@.skip(i + 1));
            assert(b@.skip(i as int).drop_first() == b@.skip(i + 1));
        }
        if x < y {
            return true;
        }
        if x > y {
            return false;
        }
        i += 1;
    }
    i == a.len()
}

/// Sorts strings, given as vectors of characters.
pub fn sort_texts(items: Vec<Vec<char>>) -> (out: Vec<Vec<char>>)
    ensures
        sorted(views(out@)),
        views(out@).to_multiset() == views(items@).to_multiset(),
        forall|x: Seq<char>| views(out@).contains(x) <==> views(items@).contains(x),
{
    broadcast use vstd::seq_lib::group_to_multiset_ensures;

    let ghost all = views(items@).to_multiset();
    let mut left = items;
    let mut out: Vec<Vec<char>> = Vec::new();
    assert(views(out@) == Seq::<Seq<char>>::empty());
    assert(views(out@).to_multiset().add(views(left@).to_multiset()) == all);
    while left.len() > 0
        invariant
            sorted(views(out@)),
            views(out@).to_multiset().add(views(left@).to_multiset()) == all,
        decreases left.len(),
    {
        let ghost before_left = views(left@);
        let ghost before_out = views(out@);
        let x = left.pop().unwrap();
        proof {
            assert(views(left@) == before_left.drop_last());
            assert(before_left == views(left@).push(x@));
        }
        // The place of `x`: behind everything that comes before it or equals it.
        let mut at: usize = out.len();
        while at > 0 && !le_chars(&out[at - 1], &x)
            invariant
                at <= out.len(),
                before_out == views(out@),
                forall|j: int| at <= j < out@.len() ==> !lex_le(#[trigger] before_out[j], x@),
            decreases at,
        {
            at -= 1;
        }
        proof {
            let after = before_out.insert(at as int, x@);
            assert forall|i: int, j: int| 0 <= i < j < after.len() implies lex_le(
                #[trigger] after[i],
                #[trigger] after[j],
            ) by {
                if j < at {
                } else if i < at && j == at {
                    if i < at - 1 {
                        lemma_lex_trans(before_out[i], before_out[at - 1], x@);
                    }
                } else if i < at && j > at {
                    assert(after[j] == before_out[j - 1]);
                } else if i == at {
                    assert(after[j] == before_out[j - 1]);
                    lemma_lex_total(before_out[j - 1], x@);
                } else {
                    assert(after[i] == before_out[i - 1]);
                    assert(after[j] == before_out[j - 1]);
                }
            }
            lemma_insert_to_multiset(before_out, at as int, x@);
            assert(views(out@.insert(at as int, x)) == after);
            vstd::seq_lib::to_multiset_build(views(left@), x@);
            assert(before_left == views(left@).push(x@));
            assert(after.to_multiset().add(views(left@).to_multiset())
                =~= before_out.to_multiset().add(before_left.to_multiset()));
        }
        out.insert(at, x);
    }
    proof {
        assert(views(left@) == Seq::<Seq<char>>::empty());
        assert(views(out@).to_multiset().add(Seq::<Seq<char>>::empty().to_multiset()) == views(
            out@,
        ).to_multiset());
        views(out@).to_multiset_ensures();
        views(items@).to_multiset_ensures();
        assert forall|x: Seq<char>| views(out@).contains(x) <==> views(items@).contains(x) by {
            assert(views(out@).to_multiset().count(x) == views(items@).to_multiset().count(x));
        }
    }
    out
}

/// The predicate that holds of safe segments.
pub open spec fn is_segment() -> spec_fn(Seq<char>) -> bool {
    |name: Seq<char>| safe_segment(name)
}

/// The predicate that holds of safe relative paths.
pub open spec fn is_rel_path() -> spec_fn(Seq<char>) -> bool {
    |path: Seq<char>| safe_rel_path(path)
}

/// The function that puts a name behind `subdir` and a slash.
pub open spec fn under(subdir: Seq<char>) -> spec_fn(Seq<char>) -> Seq<char> {
    |name: Seq<char>| subdir + seq!['/'] + name
}

/// `path` with a slash in place of each backslash.
pub open spec fn slashed(path: Seq<char>) -> Seq<char> {
    path.map_values(
        |c: char|
            if c == '\\' {
                '/'
            } else {
                c
            },
    )
}

/// The function `slashed`.
pub open spec fn slashes() -> spec_fn(Seq<char>) -> Seq<char> {
    |path: Seq<char>| slashed(path)
}

/// The address under which the file `rel` is served.
pub open spec fn json_url(rel: Seq<char>) -> Seq<char> {
    "/json/"@ + rel
}

/// The relative paths of a listing.
pub open spec fn rels(entries: Seq<(String, String)>) -> Seq<Seq<char>> {
    entries.map_values(|e: (String, String)| e.0@)
}

/// Every entry of a listing holds, beside its relative path, the address
/// under which that file is served.
pub open spec fn addressed(entries: Seq<(String, String)>) -> bool {
    forall|i: int| 0 <= i < entries.len() ==> (#[trigger] entries[i]).1@ == json_url(entries[i].0@)
}

/// What holds of every element of `a` holds of each element of a sequence
/// with the same elements.
pub proof fn lemma_all_hold(
    a: Seq<Seq<char>>,
    b: Seq<Seq<char>>,
    p: spec_fn(Seq<char>) -> bool,
    i: int,
)
    requires
        forall|j: int| 0 <= j < a.len() ==> p(#[trigger] a[j]),
        forall|x: Seq<char>| b.contains(x) <==> a.contains(x),
        0 <= i < b.len(),
    ensures
        p(b[i]),
{
    assert(b.contains(b[i]));
    assert(a.contains(b[i]));
}

/// The strings of `items`, in order.
pub fn strings_of(items: &Vec<Vec<char>>) -> (out: Vec<String>)
    ensures
        texts(out@) == views(items@),
{
    let mut out: Vec<String> = Vec::new();
    let mut i: usize = 0;
    while i < items.len()
        invariant
            i <= items.len(),
            texts(out@) == views(items@).take(i as int),
        decreases items.len() - i,
    {
        let item = &items[i];
        assert(item@.subrange(0, item@.len() as int) == item@);
        let s = string_of(item, 0, item.len());
        assert(texts(out@.push(s)) == texts(out@).push(s@));
        assert(views(items@).take(i + 1) == views(items@).take(i as int).push(item@));
        out.push(s);
        i += 1;
    }
    assert(views(items@).take(i as int) == views(items@));
    out
}

/// The listing of the files `items`: each with its address.
pub fn entries_of(items: &Vec<Vec<char>>) -> (out: Vec<(String, String)>)
    ensures
        rels(out@) == views(items@),
        addressed(out@),
{
    let mut out: Vec<(String, String)> = Vec::new();
    let mut i: usize = 0;
    while i < items.len()
        invariant
            i <= items.len(),
            rels(out@) == views(items@).take(i as int),
            addressed(out@),
        decreases items.len() - i,
    {
        let item = &items[i];
        assert(item@.subrange(0, item@.len() as int) == item@);
        let rel = string_of(item, 0, item.len());
        let mut url = "/json/".to_owned();
        url.append(rel.as_str());
        let entry = (rel, url);
        assert(rels(out@.push(entry)) == rels(out@).push(entry.0@));
        assert(views(items@).take(i + 1) == views(items@).take(i as int).push(item@));
        out.push(entry);
        i += 1;
    }
    assert(views(items@).take(i as int) == views(items@));
    out
}

/// The folders to list: of `names`, those that are safe segments, sorted.
pub fn collect_subdirs(names: &Vec<String>) -> (out: Vec<String>)
    ensures
        sorted(texts(out@)),
        texts(out@).to_multiset() == texts(names@).filter(is_segment()).to_multiset(),
        forall|i: int| 0 <= i < out@.len() ==> safe_segment(#[trigger] out@[i]@),
{
    let ghost all = texts(names@);
    let mut found: Vec<Vec<char>> = Vec::new();
    let mut i: usize = 0;
    proof {
        reveal(Seq::filter);
        assert(all.take(0) == Seq::<Seq<char>>::empty());
        assert(views(found@) == Seq::<Seq<char>>::empty());
    }
    while i < names.len()
        invariant
            i <= names.len(),
            all == texts(names@),
            views(found@) == all.take(i as int).filter(is_segment()),
            forall|j: int| 0 <= j < found@.len() ==> safe_segment(#[trigger] found@[j]@),
        decreases names.len() - i,
    {
        let name = chars_of(names[i].as_str());
        proof {
            assert(name@.subrange(0, name@.len() as int) == name@);
            assert(all.take(i + 1) == all.take(i as int).push(name@));
            lemma_filter_push(all.take(i as int), is_segment(), name@);
        }
        if safe_segment_in(&name, 0, name.len()) {
            assert(views(found@.push(name)) == views(found@).push(name@));
            found.push(name);
        }
        i += 1;
    }
    assert(all.take(i as int) == all);
    let ordered = sort_texts(found);
    let out = strings_of(&ordered);
    proof {
        assert forall|i: int| 0 <= i < out@.len() implies safe_segment(#[trigger] out@[i]@) by {
            lemma_all_hold(views(found@), views(ordered@), is_segment(), i);
            assert(texts(out@)[i] == out@[i]@);
        }
    }
    out
}

/// The files of the folder `subdir` to list: of `names`, those that are
/// safe segments, each behind the folder and a slash and with its address,
/// sorted by their relative paths.
pub fn collect_subdir_entries(subdir: &str, names: &Vec<String>) -> (out: Vec<(String, String)>)
    ensures
        sorted(rels(out@)),
        rels(out@).to_multiset() == texts(names@).filter(is_segment()).map_values(
            under(subdir@),
        ).to_multiset(),
        addressed(out@),
        safe_segment(subdir@) ==> forall|i: int|
            0 <= i < out@.len() ==> safe_rel_path((#[trigger] out@[i]).0@),
{
    let ghost all = texts(names@);
    let folder = chars_of(subdir);
    let mut found: Vec<Vec<char>> = Vec::new();
    let mut i: usize = 0;
    proof {
        reveal(Seq::filter);
        assert(all.take(0) == Seq::<Seq<char>>::empty());
        assert(views(found@) == Seq::<Seq<char>>::empty().map_values(under(subdir@)));
    }
    while i < names.len()
        invariant
            i <= names.len(),
            all == texts(names@),
            folder@ == subdir@,
            views(found@) == all.take(i as int).filter(is_segment()).map_values(under(subdir@)),
            safe_segment(subdir@) ==> forall|j: int|
                0 <= j < found@.len() ==> safe_rel_path(#[trigger] found@[j]@),
        decreases names.len() - i,
    {
        let name = chars_of(names[i].as_str());
        proof {
            assert(name@.subrange(0, name@.len() as int) == name@);
            assert(all.take(i + 1) == all.take(i as int).push(name@));
            lemma_filter_push(all.take(i as int), is_segment(), name@);
        }
        if safe_segment_in(&name, 0, name.len()) {
            let mut rel = folder.clone();
            rel.push('/');
            let mut k: usize = 0;
            while k < name.len()
                invariant
                    k <= name.len(),
                    rel@ == folder@ + seq!['/'] + name@.take(k as int),
                decreases name.len() - k,
            {
                rel.push(name[k]);
                assert(name@.take(k + 1) == name@.take(k as int).push(name@[k as int]));
                k += 1;
            }
            proof {
                assert(name@.take(k as int) == name@);
                let kept = all.take(i as int).filter(is_segment());
                assert(kept.push(name@).map_values(under(subdir@)) == kept.map_values(
                    under(subdir@),
                ).push(rel@));
                assert(views(found@.push(rel)) == views(found@).push(rel@));
                if safe_segment(subdir@) {
                    lemma_segment_is_path(name@);
                    lemma_segment_then_path(subdir@, name@);
                }
            }
            found.push(rel);
        }
        i += 1;
    }
    assert(all.take(i as int) == all);
    let ordered = sort_texts(found);
    let out = entries_of(&ordered);
    proof {
        if safe_segment(subdir@) {
            assert forall|i: int| 0 <= i < out@.len() implies safe_rel_path(
                (#[trigger] out@[i]).0@,
            ) by {
                lemma_all_hold(views(found@), views(ordered@), is_rel_path(), i);
                assert(rels(out@)[i] == out@[i].0@);
            }
        }
    }
    out
}

/// A path with a slash in place of each backslash.
pub fn with_slashes(path: &str) -> (out: Vec<char>)
    ensures
        out@ == slashed(path@),
{
    let v = chars_of(path);
    let mut out: Vec<char> = Vec::new();
    let mut i: usize = 0;
    while i < v.len()
        invariant
            i <= v.len(),
            v@ == path@,
            out@ == slashed(v@.take(i as int)),
        decreases v.len() - i,
    {
        let c = if v[i] == '\\' {
            '/'
        } else {
            v[i]
        };
        assert(slashed(v@.take(i + 1)) == slashed(v@.take(i as int)).push(c));
        out.push(c);
        i += 1;
    }
    assert(v@.take(i as int) == v@);
    out
}

/// The files to list: of the relative paths `files`, written with slashes,
/// those that are safe, each with its address, sorted by their relative
/// paths.
pub fn collect_json_entries(files: &Vec<String>) -> (out: Vec<(String, String)>)
    ensures
        sorted(rels(out@)),
        rels(out@).to_multiset() == texts(files@).map_values(slashes()).filter(
            is_rel_path(),
        ).to_multiset(),
        addressed(out@),
        forall|i: int| 0 <= i < out@.len() ==> safe_rel_path((#[trigger] out@[i]).0@),
{
    let ghost all = texts(files@).map_values(slashes());
    let mut found: Vec<Vec<char>> = Vec::new();
    let mut i: usize = 0;
    proof {
        reveal(Seq::filter);
        assert(all.take(0) == Seq::<Seq<char>>::empty());
        assert(views(found@) == Seq::<Seq<char>>::empty());
    }
    while i < files.len()
        invariant
            i <= files.len(),
            all == texts(files@).map_values(slashes()),
            views(found@) == all.take(i as int).filter(is_rel_path()),
            forall|j: int| 0 <= j < found@.len() ==> safe_rel_path(#[trigger] found@[j]@),
        decreases files.len() - i,
    {
        let rel = with_slashes(files[i].as_str());
        proof {
            assert(rel@.subrange(0, rel@.len() as int) == rel@);
            assert(all.take(i + 1) == all.take(i as int).push(rel@));
            lemma_filter_push(all.take(i as int), is_rel_path(), rel@);
        }
        if safe_rel_path_in(&rel, 0, rel.len()) {
            assert(views(found@.push(rel)) == views(found@).push(rel@));
            found.push(rel);
        }
        i += 1;
    }
    assert(all.take(i as int) == all);
    let ordered = sort_texts(found);
    let out = entries_of(&ordered);
    proof {
        assert forall|i: int| 0 <= i < out@.len() implies safe_rel_path(
            (#[trigger] out@[i]).0@,
        ) by {
            lemma_all_hold(views(found@), views(ordered@), is_rel_path(), i);
            assert(rels(out@)[i] == out@[i].0@);
        }
    }
    out
}

/// The two listings of the index page: the files, and the folders.
pub fn collect_json_index(files: &Vec<String>, folders: &Vec<String>) -> (out: (
    Vec<(String, String)>,
    Vec<String>,
))
    ensures
        sorted(rels(out.0@)),
        rels(out.0@).to_multiset() == texts(files@).map_values(slashes()).filter(
            is_rel_path(),
        ).to_multiset(),
        addressed(out.0@),
        forall|i: int| 0 <= i < out.0@.len() ==> safe_rel_path((#[trigger] out.0@[i]).0@),
        sorted(texts(out.1@)),
        texts(out.1@).to_multiset() == texts(folders@).filter(is_segment()).to_multiset(),
        forall|i: int| 0 <= i < out.1@.len() ==> safe_segment(#[trigger] out.1@[i]@),
{
    let entries = collect_json_entries(files);
    let subdirs = collect_subdirs(folders);
    (entries, subdirs)
}

} // verus!
