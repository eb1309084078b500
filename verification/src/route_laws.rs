//! What holds of the route table whatever it contains.

use vstd::prelude::*;
use crate::path_guard::{safe_rel_path, safe_segment};
use crate::routes::{
    after_first_word, all_storable, first_word, line_of_route, lookup, route_of_line,
    routes_of_lines, routes_of_text, storable, text_of_routes, unique_keys, upsert, valid_route,
    with_key, without_key, Method, Route,
};
use crate::text::{
    is_space, lemma_filter_push, lemma_prefix_len, lemma_prefix_len_is, lemma_prefix_len_push,
    lemma_suffix_len_is, non_space, other_than, prefix_len, space, spaceless, split, trim,
    trim_start,
};

verus! {

/// Looking up in a table with one more mapping at its end: an earlier
/// mapping for the same method and path comes first.
pub proof fn lemma_lookup_push(table: Seq<Route>, x: Route, method: Method, path: Seq<char>)
    ensures
        lookup(table.push(x), method, path) == match lookup(table, method, path) {
            Some(file) => Some(file),
            None => if x.method == method && x.path == path {
                Some(x.file)
            } else {
                None
            },
        },
{
    lemma_prefix_len_push(table, without_key(method, path), x);
    lemma_prefix_len(table, without_key(method, path));
}

/// A lookup finds nothing exactly when no mapping has the method and path.
pub proof fn lemma_lookup_none(table: Seq<Route>, method: Method, path: Seq<char>)
    ensures
        lookup(table, method, path) is None <==> forall|i: int|
            0 <= i < table.len() ==> !(#[trigger] table[i].method == method && table[i].path
                == path),
{
    let p = without_key(method, path);
    lemma_prefix_len(table, p);
    if lookup(table, method, path) is None {
        assert forall|i: int| 0 <= i < table.len() implies !(#[trigger] table[i].method == method
            && table[i].path == path) by {
            assert(p(table[i]));
        }
    }
}

/// Taking out the mappings for one method and path changes no lookup for
/// another.
pub proof fn lemma_lookup_filter_other(
    table: Seq<Route>,
    gone_method: Method,
    gone_path: Seq<char>,
    method: Method,
    path: Seq<char>,
)
    requires
        !(gone_method == method && gone_path == path),
    ensures
        lookup(table.filter(without_key(gone_method, gone_path)), method, path) == lookup(
            table,
            method,
            path,
        ),
    decreases table.len(),
{
    let p = without_key(gone_method, gone_path);
    if table.len() == 0 {
        reveal(Seq::filter);
    } else {
        let front = table.drop_last();
        let x = table.last();
        assert(table == front.push(x));
        lemma_lookup_filter_other(front, gone_method, gone_path, method, path);
        lemma_filter_push(front, p, x);
        lemma_lookup_push(front, x, method, path);
        if p(x) {
            lemma_lookup_push(front.filter(p), x, method, path);
        }
    }
}

/// Once the mappings for a method and path are taken out, a lookup for them
/// finds nothing.
pub proof fn lemma_lookup_filter_same(table: Seq<Route>, method: Method, path: Seq<char>)
    ensures
        lookup(table.filter(without_key(method, path)), method, path) is None,
    decreases table.len(),
{
    let p = without_key(method, path);
    if table.len() == 0 {
        reveal(Seq::filter);
    } else {
        let front = table.drop_last();
        let x = table.last();
        assert(table == front.push(x));
        lemma_lookup_filter_same(front, method, path);
        lemma_filter_push(front, p, x);
        if p(x) {
            lemma_lookup_push(front.filter(p), x, method, path);
        }
    }
}

/// A table with one more mapping at its end has unique keys exactly when it
/// had them before and held no mapping for the new method and path.
pub proof fn lemma_unique_push(table: Seq<Route>, x: Route)
    ensures
        unique_keys(table.push(x)) <==> unique_keys(table) && lookup(table, x.method, x.path)
            is None,
{
    let longer = table.push(x);
    lemma_lookup_none(table, x.method, x.path);
    if unique_keys(longer) {
        assert forall|i: int, j: int| 0 <= i < j < table.len() implies !(table[i].method
            == table[j].method && table[i].path == table[j].path) by {
            assert(longer[i] == table[i] && longer[j] == table[j]);
        }
        assert forall|i: int| 0 <= i < table.len() implies !(#[trigger] table[i].method == x.method
            && table[i].path == x.path) by {
            assert(longer[i] == table[i] && longer[table.len() as int] == x);
        }
    }
    if unique_keys(table) && lookup(table, x.method, x.path) is None {
        assert forall|i: int, j: int| 0 <= i < j < longer.len() implies !(longer[i].method
            == longer[j].method && longer[i].path == longer[j].path) by {
            assert(longer[i] == table[i]);
            if j < table.len() {
                assert(longer[j] == table[j]);
            }
        }
    }
}

/// Taking out the mappings for one method and path keeps the keys unique.
pub proof fn lemma_unique_filter(table: Seq<Route>, method: Method, path: Seq<char>)
    requires
        unique_keys(table),
    ensures
        unique_keys(table.filter(without_key(method, path))),
    decreases table.len(),
{
    let p = without_key(method, path);
    if table.len() == 0 {
        reveal(Seq::filter);
    } else {
        let front = table.drop_last();
        let x = table.last();
        assert(table == front.push(x));
        lemma_unique_push(front, x);
        lemma_unique_filter(front, method, path);
        lemma_filter_push(front, p, x);
        if p(x) {
            lemma_lookup_filter_other(front, method, path, x.method, x.path);
            lemma_unique_push(front.filter(p), x);
        }
    }
}

/// What holds of every element of a sequence holds of every element that a
/// filter leaves of it.
pub proof fn lemma_filter_keeps<T>(s: Seq<T>, p: spec_fn(T) -> bool, q: spec_fn(T) -> bool)
    requires
        forall|i: int| 0 <= i < s.len() ==> q(#[trigger] s[i]),
    ensures
        forall|i: int| 0 <= i < s.filter(p).len() ==> q(#[trigger] s.filter(p)[i]),
    decreases s.len(),
{
    reveal(Seq::filter);
    if s.len() > 0 {
        let front = s.drop_last();
        assert forall|i: int| 0 <= i < front.len() implies q(#[trigger] front[i]) by {
            assert(front[i] == s[i]);
        }
        lemma_filter_keeps(front, p, q);
        assert(q(s[s.len() - 1]));
        let kept = s.filter(p);
        assert forall|i: int| 0 <= i < kept.len() implies q(#[trigger] kept[i]) by {
            if i < front.filter(p).len() {
                assert(kept[i] == front.filter(p)[i]);
            }
        }
    }
}

/// The last write wins: after a mapping is set, a lookup for its method and
/// path finds its file.
pub proof fn law_upsert_finds(table: Seq<Route>, r: Route)
    ensures
        lookup(upsert(table, r), r.method, r.path) == Some(r.file),
{
    let kept = table.filter(without_key(r.method, r.path));
    lemma_lookup_filter_same(table, r.method, r.path);
    lemma_lookup_push(kept, r, r.method, r.path);
}

/// Setting a mapping changes no lookup for another method or path.
pub proof fn law_upsert_keeps_others(table: Seq<Route>, r: Route, method: Method, path: Seq<char>)
    requires
        !(r.method == method && r.path == path),
    ensures
        lookup(upsert(table, r), method, path) == lookup(table, method, path),
{
    let kept = table.filter(without_key(r.method, r.path));
    lemma_lookup_filter_other(table, r.method, r.path, method, path);
    lemma_lookup_push(kept, r, method, path);
}

/// Setting a mapping keeps the keys of the table unique.
pub proof fn law_upsert_unique(table: Seq<Route>, r: Route)
    requires
        unique_keys(table),
    ensures
        unique_keys(upsert(table, r)),
{
    let kept = table.filter(without_key(r.method, r.path));
    lemma_unique_filter(table, r.method, r.path);
    lemma_lookup_filter_same(table, r.method, r.path);
    lemma_unique_push(kept, r);
}

/// After a mapping is set, the table holds exactly one mapping for its
/// method and path: the one that was set.
pub proof fn law_upsert_one_entry(table: Seq<Route>, r: Route)
    ensures
        upsert(table, r).filter(with_key(r.method, r.path)) == seq![r],
{
    let kept = table.filter(without_key(r.method, r.path));
    lemma_filter_holds(table, without_key(r.method, r.path));
    assert forall|i: int| 0 <= i < kept.len() implies !with_key(r.method, r.path)(
        #[trigger] kept[i],
    ) by {
        assert(without_key(r.method, r.path)(kept[i]));
    }
    lemma_filter_none(kept, with_key(r.method, r.path));
    lemma_filter_push(kept, with_key(r.method, r.path), r);
}

/// Every element of a filtered sequence passes the filter.
pub proof fn lemma_filter_holds<T>(s: Seq<T>, p: spec_fn(T) -> bool)
    ensures
        forall|i: int| 0 <= i < s.filter(p).len() ==> p(#[trigger] s.filter(p)[i]),
    decreases s.len(),
{
    reveal(Seq::filter);
    if s.len() > 0 {
        lemma_filter_holds(s.drop_last(), p);
    }
}

/// A filter that no element passes leaves nothing.
pub proof fn lemma_filter_none<T>(s: Seq<T>, p: spec_fn(T) -> bool)
    requires
        forall|i: int| 0 <= i < s.len() ==> !p(#[trigger] s[i]),
    ensures
        s.filter(p) == Seq::<T>::empty(),
    decreases s.len(),
{
    reveal(Seq::filter);
    if s.len() > 0 {
        lemma_filter_none(s.drop_last(), p);
    }
}

/// Setting a valid mapping in a table of valid mappings leaves a table of
/// valid mappings.
pub proof fn law_upsert_valid(table: Seq<Route>, r: Route)
    requires
        valid_route(r),
        forall|i: int| 0 <= i < table.len() ==> valid_route(#[trigger] table[i]),
    ensures
        forall|i: int|
            0 <= i < upsert(table, r).len() ==> valid_route(#[trigger] upsert(table, r)[i]),
{
    let kept = table.filter(without_key(r.method, r.path));
    lemma_filter_keeps(table, without_key(r.method, r.path), |x: Route| valid_route(x));
    assert forall|i: int| 0 <= i < upsert(table, r).len() implies valid_route(
        #[trigger] upsert(table, r)[i],
    ) by {
        if i < kept.len() {
            assert(upsert(table, r)[i] == kept[i]);
        }
    }
}

/// The table after each mapping of `rs` was set in turn.
pub open spec fn upsert_all(table: Seq<Route>, rs: Seq<Route>) -> Seq<Route>
    decreases rs.len(),
{
    if rs.len() == 0 {
        table
    } else {
        upsert(upsert_all(table, rs.drop_last()), rs.last())
    }
}

/// However many mappings are set, one after another, in a table whose keys
/// are unique, its keys stay unique. The empty table is such a table.
pub proof fn law_upserts_unique(table: Seq<Route>, rs: Seq<Route>)
    requires
        unique_keys(table),
    ensures
        unique_keys(upsert_all(table, rs)),
    decreases rs.len(),
{
    if rs.len() > 0 {
        law_upserts_unique(table, rs.drop_last());
        law_upsert_unique(upsert_all(table, rs.drop_last()), rs.last());
    }
}

/// After the mappings of `rs` were set one after another, a lookup for the
/// method and path of `rs[k]` finds the file of `rs[k]`, provided that no
/// later mapping of `rs` has the same method and path.
pub proof fn law_upserts_last_wins(table: Seq<Route>, rs: Seq<Route>, k: int)
    requires
        0 <= k < rs.len(),
        forall|j: int|
            k < j < rs.len() ==> !(#[trigger] rs[j].method == rs[k].method && rs[j].path
                == rs[k].path),
    ensures
        lookup(upsert_all(table, rs), rs[k].method, rs[k].path) == Some(rs[k].file),
    decreases rs.len(),
{
    let front = rs.drop_last();
    let before = upsert_all(table, front);
    if k == rs.len() - 1 {
        law_upsert_finds(before, rs.last());
    } else {
        assert(front[k] == rs[k]);
        assert forall|j: int| k < j < front.len() implies !(#[trigger] front[j].method
            == front[k].method && front[j].path == front[k].path) by {
            assert(front[j] == rs[j]);
        }
        law_upserts_last_wins(table, front, k);
        assert(!(rs.last().method == rs[k].method && rs.last().path == rs[k].path)) by {
            assert(rs[rs.len() - 1] == rs.last());
        }
        law_upsert_keeps_others(before, rs.last(), rs[k].method, rs[k].path);
    }
}

/// A word that stands behind whitespace and in front of the end or of more
/// whitespace is the first word, and what follows it is what is left.
pub proof fn lemma_first_word(lead: Seq<char>, word: Seq<char>, rest: Seq<char>)
    requires
        forall|i: int| 0 <= i < lead.len() ==> is_space(#[trigger] lead[i]),
        word.len() > 0,
        spaceless(word),
        rest.len() > 0 ==> is_space(rest[0]),
    ensures
        first_word(lead + word + rest) == word,
        after_first_word(lead + word + rest) == rest,
{
    let s = lead + word + rest;
    assert forall|j: int| 0 <= j < lead.len() implies space()(#[trigger] s[j]) by {
        assert(s[j] == lead[j]);
    }
    assert(s[lead.len() as int] == word[0]);
    lemma_prefix_len_is(s, space(), lead.len() as int);
    let t = trim_start(s);
    assert(t == word + rest);
    assert forall|j: int| 0 <= j < word.len() implies non_space()(#[trigger] t[j]) by {
        assert(t[j] == word[j]);
    }
    if rest.len() > 0 {
        assert(t[word.len() as int] == rest[0]);
    }
    lemma_prefix_len_is(t, non_space(), word.len() as int);
    assert(t.take(word.len() as int) == word);
    assert(t.skip(word.len() as int) == rest);
}

/// A safe relative path is not empty.
pub proof fn lemma_safe_rel_path_nonempty(p: Seq<char>)
    requires
        safe_rel_path(p),
    ensures
        p.len() > 0,
{
    if p.len() == 0 {
        assert(prefix_len(p, other_than('/')) == 0);
        assert(split(p, '/') == seq![p]);
        assert(safe_segment(split(p, '/')[0]));
    }
}

/// The line of a valid mapping without whitespace in its path and file,
/// taken without its line feed, reads back as that mapping.
pub proof fn lemma_line_reads_back(r: Route)
    requires
        valid_route(r),
        spaceless(r.path),
        spaceless(r.file),
    ensures
        route_of_line(r.method.name() + seq![' '] + r.path + seq![' '] + r.file) == Some(r),
        spaceless(r.method.name()),
        r.path.len() > 0,
        r.file.len() > 0,
{
    reveal_strlit("GET");
    reveal_strlit("POST");
    reveal_strlit("/api/");
    let name = r.method.name();
    let gap = seq![' '];
    let body = name + gap + r.path + gap + r.file;
    lemma_safe_rel_path_nonempty(r.file);
    assert(r.path.len() >= 5);
    assert(spaceless(name)) by {
        assert forall|i: int| 0 <= i < name.len() implies !is_space(#[trigger] name[i]) by {
            match r.method {
                Method::Get => {
                    assert(name[i] == 'G' || name[i] == 'E' || name[i] == 'T');
                },
                Method::Post => {
                    assert(name[i] == 'P' || name[i] == 'O' || name[i] == 'S' || name[i] == 'T');
                },
            }
        }
    }
    assert(is_space(gap[0]));
    // The body has no whitespace at either end.
    assert(body[0] == name[0]);
    assert(body.last() == r.file.last());
    lemma_prefix_len_is(body, space(), 0);
    assert(trim_start(body) == body);
    lemma_suffix_len_is(body, space(), 0);
    assert(trim(body) == body);
    assert(body[0] != '#');
    // Its three words are the method, the path and the file.
    let after_method = gap + r.path + gap + r.file;
    let after_path = gap + r.file;
    assert(body == Seq::<char>::empty() + name + after_method);
    assert(after_method[0] == ' ');
    lemma_first_word(Seq::empty(), name, after_method);
    assert(after_method == gap + r.path + after_path);
    assert(after_path[0] == ' ');
    lemma_first_word(gap, r.path, after_path);
    assert(after_path == gap + r.file + Seq::<char>::empty());
    lemma_first_word(gap, r.file, Seq::empty());
    assert(Method::named(name) == Some(r.method)) by {
        assert("GET"@.len() != "POST"@.len());
    }
}

/// A table that was written and read again is the table that was written,
/// mapping for mapping and in the same order. This holds of every table of
/// valid mappings whose paths and files are free of whitespace: whitespace
/// is what separates the words of a line.
pub proof fn law_write_then_read(table: Seq<Route>)
    requires
        forall|i: int| 0 <= i < table.len() ==> valid_route(#[trigger] table[i]),
        forall|i: int| 0 <= i < table.len() ==> spaceless(#[trigger] table[i].path),
        forall|i: int| 0 <= i < table.len() ==> spaceless(#[trigger] table[i].file),
    ensures
        routes_of_text(text_of_routes(table)) == table,
    decreases table.len(),
{
    let text = text_of_routes(table);
    if table.len() == 0 {
        assert(prefix_len(text, other_than('\n')) == 0);
        assert(split(text, '\n') == seq![text]);
        let lines = split(text, '\n');
        assert(prefix_len(text, space()) == 0);
        assert(trim(text).len() == 0);
        assert(route_of_line(lines[0]) is None);
        assert(lines.drop_first() == Seq::<Seq<char>>::empty());
        assert(routes_of_lines(lines.drop_first()) == Seq::<Route>::empty());
    } else {
        let r = table[0];
        let rest = table.drop_first();
        let name = r.method.name();
        let body = name + seq![' '] + r.path + seq![' '] + r.file;
        let tail = text_of_routes(rest);
        assert forall|i: int| 0 <= i < rest.len() implies valid_route(#[trigger] rest[i]) by {
            assert(rest[i] == table[i + 1]);
        }
        assert forall|i: int| 0 <= i < rest.len() implies spaceless(#[trigger] rest[i].path) by {
            assert(rest[i] == table[i + 1]);
        }
        assert forall|i: int| 0 <= i < rest.len() implies spaceless(#[trigger] rest[i].file) by {
            assert(rest[i] == table[i + 1]);
        }
        law_write_then_read(rest);
        lemma_line_reads_back(r);
        assert(line_of_route(r) == body + seq!['\n']);
        assert(text == body + seq!['\n'] + tail);
        // The first line feed of the text is the one that ends the body.
        assert forall|j: int| 0 <= j < body.len() implies other_than('\n')(#[trigger] text[j]) by {
            assert(text[j] == body[j]);
            let n = name.len() as int;
            let p = r.path.len() as int;
            if j < n {
                assert(body[j] == name[j]);
                assert(!is_space(name[j]));
            } else if j == n {
                assert(body[j] == ' ');
            } else if j < n + 1 + p {
                assert(body[j] == r.path[j - n - 1]);
                assert(!is_space(r.path[j - n - 1]));
            } else if j == n + 1 + p {
                assert(body[j] == ' ');
            } else {
                assert(body[j] == r.file[j - n - p - 2]);
                assert(!is_space(r.file[j - n - p - 2]));
            }
        }
        assert(text[body.len() as int] == '\n');
        lemma_prefix_len_is(text, other_than('\n'), body.len() as int);
        assert(text.take(body.len() as int) == body);
        assert(text.skip(body.len() as int + 1) == tail);
        let lines = split(text, '\n');
        assert(lines == seq![body] + split(tail, '\n'));
        assert(lines[0] == body);
        assert(lines.drop_first() == split(tail, '\n'));
        assert(routes_of_lines(lines) == seq![r] + rest);
        assert(seq![r] + rest == table);
    }
}

/// A word holds no whitespace.
pub proof fn lemma_first_word_spaceless(s: Seq<char>)
    ensures
        spaceless(first_word(s)),
{
    let t = trim_start(s);
    let word = first_word(s);
    lemma_prefix_len(t, non_space());
    assert forall|i: int| 0 <= i < word.len() implies !is_space(#[trigger] word[i]) by {
        assert(word[i] == t[i]);
        assert(non_space()(t[i]));
    }
}

/// The mapping that a line holds is one that the text of the table can hold.
pub proof fn lemma_line_is_storable(line: Seq<char>)
    ensures
        route_of_line(line) matches Some(r) ==> storable(r),
{
    let l = trim(line);
    let after_method = after_first_word(l);
    lemma_first_word_spaceless(after_method);
    lemma_first_word_spaceless(after_first_word(after_method));
}

/// The mappings that lines hold are such as the text of the table can hold.
pub proof fn lemma_lines_are_storable(lines: Seq<Seq<char>>)
    ensures
        all_storable(routes_of_lines(lines)),
    decreases lines.len(),
{
    if lines.len() > 0 {
        let rest = routes_of_lines(lines.drop_first());
        lemma_lines_are_storable(lines.drop_first());
        lemma_line_is_storable(lines[0]);
        let all = routes_of_lines(lines);
        assert forall|i: int| 0 <= i < all.len() implies storable(#[trigger] all[i]) by {
            match route_of_line(lines[0]) {
                Some(r) => {
                    if i > 0 {
                        assert(all[i] == rest[i - 1]);
                    }
                },
                None => {},
            }
        }
    }
}

/// Whatever text is read as a table, every mapping that is read is valid,
/// and its path and file are free of whitespace.
pub proof fn law_read_is_storable(text: Seq<char>)
    ensures
        all_storable(routes_of_text(text)),
{
    lemma_lines_are_storable(split(text, '\n'));
}

/// Setting a mapping that the text can hold, in a table of such mappings,
/// leaves a table of such mappings.
pub proof fn lemma_upsert_storable(table: Seq<Route>, r: Route)
    requires
        storable(r),
        all_storable(table),
    ensures
        all_storable(upsert(table, r)),
{
    let kept = table.filter(without_key(r.method, r.path));
    lemma_filter_keeps(table, without_key(r.method, r.path), |x: Route| storable(x));
    assert forall|i: int| 0 <= i < upsert(table, r).len() implies storable(
        #[trigger] upsert(table, r)[i],
    ) by {
        if i < kept.len() {
            assert(upsert(table, r)[i] == kept[i]);
        }
    }
}

/// The stored table keeps what was set: when a mapping is set in the table
/// that a text holds, and the new text is read again, the table that is read
/// is the one that was written, it holds exactly one mapping for the method
/// and path that were set, and a lookup for them finds the file that was
/// set. This holds of every text, and of every valid mapping whose path and
/// file are free of whitespace.
pub proof fn law_set_then_read(text: Seq<char>, r: Route)
    requires
        storable(r),
    ensures
        ({
            let written = upsert(routes_of_text(text), r);
            let read = routes_of_text(text_of_routes(written));
            &&& read == written
            &&& read.filter(with_key(r.method, r.path)) == seq![r]
            &&& lookup(read, r.method, r.path) == Some(r.file)
        }),
{
    let table = routes_of_text(text);
    let written = upsert(table, r);
    law_read_is_storable(text);
    lemma_upsert_storable(table, r);
    law_write_then_read(written);
    law_upsert_one_entry(table, r);
    law_upsert_finds(table, r);
}

} // verus!
