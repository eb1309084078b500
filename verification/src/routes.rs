//! The route table: which file answers a method and an API path.
//!
//! The table is kept as text, one mapping per line: the method, the path and
//! the file, separated by whitespace. Lines that are blank, begin with `#` or
//! fail validation are passed over when the text is read.

use vstd::prelude::*;
use vstd::string::StringExecFns;
use crate::path_guard::{safe_rel_path, safe_rel_path_in};
use crate::route_laws::law_read_is_storable;
use crate::text::{
    chars_of, line_end, lemma_filter_push, lemma_prefix_len_is, non_space, opt_text, prefix_len,
    range_starts_with, skip_non_spaces, skip_spaces, spaceless, split, starts_with, str_eq,
    string_of, to_uppercase, trim, trim_range, trim_start, uppercase,
};

verus! {

/// The request methods that a mapping can answer.
#[derive(Clone, Copy, Debug, PartialEq, Eq, Structural)]
pub enum Method {
    Get,
    Post,
}

impl Method {
    /// The method's name as the table's text holds it.
    pub open spec fn name(self) -> Seq<char> {
        match self {
            Method::Get => "GET"@,
            Method::Post => "POST"@,
        }
    }

    /// The method that `s` names, letter for letter.
    pub open spec fn named(s: Seq<char>) -> Option<Method> {
        if s == "GET"@ {
            Some(Method::Get)
        } else if s == "POST"@ {
            Some(Method::Post)
        } else {
            None
        }
    }

    /// The method that the word `t` stands for: the one it names, or else the
    /// one that its uppercase form names.
    pub open spec fn of_word(t: Seq<char>) -> Option<Method> {
        match Method::named(t) {
            Some(m) => Some(m),
            None => Method::named(uppercase(t)),
        }
    }

    /// The method's name: `GET` or `POST`.
    pub fn as_str(&self) -> (out: &'static str)
        ensures
            out@ == self.name(),
    {
        match self {
            Method::Get => "GET",
            Method::Post => "POST",
        }
    }

    /// The method that `name` is, letter for letter, the name of.
    pub fn from_name(name: &str) -> (out: Option<Method>)
        ensures
            out == Method::named(name@),
    {
        if str_eq(name, "GET") {
            Some(Method::Get)
        } else if str_eq(name, "POST") {
            Some(Method::Post)
        } else {
            None
        }
    }

    /// Reads a method from a word in any mix of upper and lower case.
    pub fn parse(word: &str) -> (out: Option<Method>)
        ensures
            out == Method::of_word(word@),
    {
        match Method::from_name(word) {
            Some(m) => Some(m),
            None => {
                let upper = to_uppercase(word);
                Method::from_name(upper.as_str())
            },
        }
    }
}

/// One line of the route table.
#[derive(Debug, PartialEq, Eq)]
pub struct RouteMapping {
    pub method: Method,
    pub path: String,
    pub file: String,
}

/// What a `RouteMapping` stands for.
pub struct Route {
    pub method: Method,
    pub path: Seq<char>,
    pub file: Seq<char>,
}

impl View for RouteMapping {
    type V = Route;

    open spec fn view(&self) -> Route {
        Route { method: self.method, path: self.path@, file: self.file@ }
    }
}

impl Clone for RouteMapping {
    fn clone(&self) -> (out: Self)
        ensures
            out == *self,
    {
        RouteMapping { method: self.method, path: self.path.clone(), file: self.file.clone() }
    }
}

/// The mappings that a table holds, in order.
pub open spec fn routes(table: Seq<RouteMapping>) -> Seq<Route> {
    table.map_values(|m: RouteMapping| m@)
}

/// The start of every API path.
pub open spec fn api_root() -> Seq<char> {
    "/api/"@
}

/// An API path: it begins with `/api/`, and what follows its first slash is
/// a safe relative path.
pub open spec fn valid_api_path(path: Seq<char>) -> bool {
    starts_with(path, api_root()) && safe_rel_path(path.skip(1))
}

/// A mapping that the table accepts: an API path, and a file that is a safe
/// relative path.
pub open spec fn valid_route(r: Route) -> bool {
    valid_api_path(r.path) && safe_rel_path(r.file)
}

/// A mapping that the text of the table can hold: a valid mapping whose path
/// and file are free of whitespace, which is what separates the words of a
/// line.
pub open spec fn storable(r: Route) -> bool {
    valid_route(r) && spaceless(r.path) && spaceless(r.file)
}

/// Every mapping of the table is one that its text can hold.
pub open spec fn all_storable(table: Seq<Route>) -> bool {
    forall|i: int| 0 <= i < table.len() ==> storable(#[trigger] table[i])
}

/// The first word of `s`: what stands between its leading whitespace and the
/// next whitespace. It is empty where `s` holds no word.
pub open spec fn first_word(s: Seq<char>) -> Seq<char> {
    let t = trim_start(s);
    t.take(prefix_len(t, non_space()) as int)
}

/// What follows the first word of `s`.
pub open spec fn after_first_word(s: Seq<char>) -> Seq<char> {
    let t = trim_start(s);
    t.skip(prefix_len(t, non_space()) as int)
}

/// The mapping that a line of the table holds, if it holds one: its first
/// three words are a method, an API path and a file. What follows them is
/// ignored.
pub open spec fn route_of_line(line: Seq<char>) -> Option<Route> {
    let l = trim(line);
    let after_method = after_first_word(l);
    let after_path = after_first_word(after_method);
    if l.len() == 0 || l[0] == '#' {
        None
    } else {
        match Method::of_word(first_word(l)) {
            None => None,
            Some(method) => {
                let r = Route {
                    method,
                    path: first_word(after_method),
                    file: first_word(after_path),
                };
                if valid_route(r) {
                    Some(r)
                } else {
                    None
                }
            },
        }
    }
}

/// The mappings that a sequence of lines holds, in order.
pub open spec fn routes_of_lines(lines: Seq<Seq<char>>) -> Seq<Route>
    decreases lines.len(),
{
    if lines.len() == 0 {
        Seq::empty()
    } else {
        let rest = routes_of_lines(lines.drop_first());
        match route_of_line(lines[0]) {
            Some(r) => seq![r] + rest,
            None => rest,
        }
    }
}

/// The mappings that the text of a table holds, in order.
pub open spec fn routes_of_text(text: Seq<char>) -> Seq<Route> {
    routes_of_lines(split(text, '\n'))
}

/// The line that holds `r`.
pub open spec fn line_of_route(r: Route) -> Seq<char> {
    r.method.name() + seq![' '] + r.path + seq![' '] + r.file + seq!['\n']
}

/// The text of a table: the line of each mapping, in order.
pub open spec fn text_of_routes(table: Seq<Route>) -> Seq<char>
    decreases table.len(),
{
    if table.len() == 0 {
        Seq::empty()
    } else {
        line_of_route(table[0]) + text_of_routes(table.drop_first())
    }
}

/// The view of an optional mapping.
pub open spec fn route_view(m: Option<RouteMapping>) -> Option<Route> {
    match m {
        Some(m) => Some(m@),
        None => None,
    }
}

/// Whether `path` is an API path.
pub fn is_api_path_in(v: &Vec<char>, from: usize, to: usize) -> (out: bool)
    requires
        from <= to <= v.len(),
    ensures
        out == valid_api_path(v@.subrange(from as int, to as int)),
{
    let root = chars_of("/api/");
    if !range_starts_with(v, from, to, &root) {
        return false;
    }
    proof {
        reveal_strlit("/api/");
        assert(v@.subrange(from as int, to as int).skip(1) == v@.subrange(from + 1, to as int));
    }
    safe_rel_path_in(v, from + 1, to)
}

/// The bounds of the first word of `v[from..to]`. What follows the word
/// begins where the word ends.
pub fn word_bounds(v: &Vec<char>, from: usize, to: usize) -> (out: (usize, usize))
    requires
        from <= to <= v.len(),
    ensures
        from <= out.0 <= out.1 <= to,
        v@.subrange(out.0 as int, out.1 as int) == first_word(v@.subrange(from as int, to as int)),
        v@.subrange(out.1 as int, to as int) == after_first_word(
            v@.subrange(from as int, to as int),
        ),
{
    let a = skip_spaces(v, from, to);
    let b = skip_non_spaces(v, a, to);
    proof {
        let t = v@.subrange(a as int, to as int);
        assert(trim_start(v@.subrange(from as int, to as int)) == t);
        assert(t.take(b - a) == v@.subrange(a as int, b as int));
        assert(t.skip(b - a) == v@.subrange(b as int, to as int));
    }
    (a, b)
}

/// Reads the mapping that the line `v[from..to]` holds.
pub fn read_route_line(v: &Vec<char>, from: usize, to: usize) -> (out: Option<RouteMapping>)
    requires
        from <= to <= v.len(),
    ensures
        route_view(out) == route_of_line(v@.subrange(from as int, to as int)),
{
    let (start, end) = trim_range(v, from, to);
    if start == end {
        return None;
    }
    assert(v@.subrange(start as int, end as int)[0] == v@[start as int]);
    if v[start] == '#' {
        return None;
    }
    let (method_from, method_to) = word_bounds(v, start, end);
    let (path_from, path_to) = word_bounds(v, method_to, end);
    let (file_from, file_to) = word_bounds(v, path_to, end);
    let word = string_of(v, method_from, method_to);
    let method = match Method::parse(word.as_str()) {
        Some(m) => m,
        None => {
            return None;
        },
    };
    if !is_api_path_in(v, path_from, path_to) {
        return None;
    }
    if !safe_rel_path_in(v, file_from, file_to) {
        return None;
    }
    let path = string_of(v, path_from, path_to);
    let file = string_of(v, file_from, file_to);
    Some(RouteMapping { method, path, file })
}

/// Reads the route table from its text. A line that holds no valid mapping
/// is passed over and takes nothing from the lines around it. Every mapping
/// that is read is valid, and its path and file are single words.
pub fn read_route_mappings(contents: &str) -> (out: Vec<RouteMapping>)
    ensures
        routes(out@) == routes_of_text(contents@),
        all_storable(routes(out@)),
        forall|i: int| 0 <= i < out@.len() ==> valid_route(#[trigger] out@[i]@),
{
    let v = chars_of(contents);
    let mut out: Vec<RouteMapping> = Vec::new();
    let mut start: usize = 0;
    assert(v@.skip(0) == v@);
    assert(routes(out@) + routes_of_text(v@) == routes_of_text(v@));
    loop
        invariant
            start <= v.len(),
            v@ == contents@,
            routes(out@) + routes_of_text(v@.skip(start as int)) == routes_of_text(contents@),
            forall|i: int| 0 <= i < out@.len() ==> valid_route(#[trigger] out@[i]@),
        decreases v.len() - start,
    {
        let end = line_end(&v, start);
        let found = read_route_line(&v, start, end);
        let ghost rest = v@.skip(start as int);
        let ghost before = routes(out@);
        match found {
            Some(m) => {
                proof {
                    assert(routes(out@.push(m)) == before.push(m@));
                    let tail = routes_of_lines(split(rest, '\n').drop_first());
                    assert(before.push(m@) + tail == before + (seq![m@] + tail));
                }
                out.push(m);
            },
            None => {},
        }
        if end == v.len() {
            proof {
                assert(routes_of_lines(Seq::<Seq<char>>::empty()) == Seq::<Route>::empty());
                assert(routes(out@) + Seq::<Route>::empty() == routes(out@));
                law_read_is_storable(contents@);
            }
            return out;
        }
        start = end + 1;
    }
}

/// Writes the route table as text, one line for each mapping.
pub fn write_route_mappings(mappings: &Vec<RouteMapping>) -> (out: String)
    ensures
        out@ == text_of_routes(routes(mappings@)),
{
    let ghost table = routes(mappings@);
    let mut out = String::new();
    let mut i: usize = 0;
    assert(table.skip(0) == table);
    while i < mappings.len()
        invariant
            i <= mappings.len(),
            table == routes(mappings@),
            out@ + text_of_routes(table.skip(i as int)) == text_of_routes(table),
        decreases mappings.len() - i,
    {
        let ghost before = out@;
        let m = &mappings[i];
        out.append(m.method.as_str());
        out.push(' ');
        out.append(m.path.as_str());
        out.push(' ');
        out.append(m.file.as_str());
        out.push('\n');
        proof {
            let rest = table.skip(i as int);
            assert(rest[0] == m@);
            assert(rest.drop_first() == table.skip(i + 1));
            assert(out@ == before + line_of_route(m@));
            assert(out@ + text_of_routes(table.skip(i + 1)) == before + (line_of_route(m@)
                + text_of_routes(table.skip(i + 1))));
        }
        i += 1;
    }
    assert(text_of_routes(table.skip(i as int)) == Seq::<char>::empty());
    assert(out@ + Seq::<char>::empty() == out@);
    out
}

/// The predicate that holds of the mappings for `method` and `path`.
pub open spec fn with_key(method: Method, path: Seq<char>) -> spec_fn(Route) -> bool {
    |r: Route| r.method == method && r.path == path
}

/// The predicate that holds of the mappings for anything but `method` and
/// `path`.
pub open spec fn without_key(method: Method, path: Seq<char>) -> spec_fn(Route) -> bool {
    |r: Route| !(r.method == method && r.path == path)
}

/// The file of the first mapping for `method` and `path`, if there is one.
pub open spec fn lookup(table: Seq<Route>, method: Method, path: Seq<char>) -> Option<Seq<char>> {
    let i = prefix_len(table, without_key(method, path)) as int;
    if i < table.len() {
        Some(table[i].file)
    } else {
        None
    }
}

/// The table after `r` was set: every mapping for the method and path of `r`
/// is gone, and `r` stands at the end.
pub open spec fn upsert(table: Seq<Route>, r: Route) -> Seq<Route> {
    table.filter(without_key(r.method, r.path)).push(r)
}

/// No two mappings of the table have the same method and path.
pub open spec fn unique_keys(table: Seq<Route>) -> bool {
    forall|i: int, j: int|
        0 <= i < j < table.len() ==> !(table[i].method == table[j].method && table[i].path
            == table[j].path)
}

/// What is left of `whole` when the elements whose flag in `keep` is false are
/// taken out.
pub open spec fn selection<T>(whole: Seq<T>, keep: Seq<bool>) -> Seq<T>
    decreases whole.len(),
{
    if whole.len() == 0 || keep.len() != whole.len() {
        Seq::empty()
    } else {
        let rest = selection(whole.drop_last(), keep.drop_last());
        if keep.last() {
            rest.push(whole.last())
        } else {
            rest
        }
    }
}

/// Looks up the file that answers `method` and `path`: that of the first
/// mapping for them.
pub fn find_route_mapping(mappings: &Vec<RouteMapping>, method: Method, path: &str) -> (out:
    Option<String>)
    ensures
        opt_text(out) == lookup(routes(mappings@), method, path@),
{
    let ghost table = routes(mappings@);
    let mut i: usize = 0;
    while i < mappings.len()
        invariant
            i <= mappings.len(),
            table == routes(mappings@),
            forall|j: int| 0 <= j < i ==> without_key(method, path@)(#[trigger] table[j]),
        decreases mappings.len() - i,
    {
        let m = &mappings[i];
        if m.method == method && str_eq(m.path.as_str(), path) {
            proof {
                assert(table[i as int] == m@);
                lemma_prefix_len_is(table, without_key(method, path@), i as int);
            }
            return Some(m.file.clone());
        }
        assert(table[i as int] == m@);
        i += 1;
    }
    proof {
        lemma_prefix_len_is(table, without_key(method, path@), i as int);
    }
    None
}

/// Sets a mapping: every mapping for its method and path leaves the table,
/// and the new one is added at the end.
pub fn upsert_route_mapping(mappings: &mut Vec<RouteMapping>, mapping: RouteMapping)
    ensures
        routes(final(mappings)@) == upsert(routes(old(mappings)@), mapping@),
{
    let ghost table = routes(mappings@);
    let ghost p = without_key(mapping.method, mapping.path@);
    let mut kept: Vec<RouteMapping> = Vec::new();
    let mut i: usize = 0;
    proof {
        reveal(Seq::filter);
        assert(table.take(0) == Seq::<Route>::empty());
    }
    while i < mappings.len()
        invariant
            i <= mappings.len(),
            table == routes(mappings@),
            p == without_key(mapping.method, mapping.path@),
            routes(kept@) == table.take(i as int).filter(p),
        decreases mappings.len() - i,
    {
        let m = &mappings[i];
        let ghost before = routes(kept@);
        proof {
            assert(table[i as int] == m@);
            assert(table.take(i + 1) == table.take(i as int).push(m@));
            lemma_filter_push(table.take(i as int), p, m@);
        }
        if !(m.method == mapping.method && str_eq(m.path.as_str(), mapping.path.as_str())) {
            let copy = m.clone();
            assert(routes(kept@.push(copy)) == before.push(m@));
            kept.push(copy);
        }
        i += 1;
    }
    proof {
        assert(table.take(i as int) == table);
        assert(routes(kept@.push(mapping)) == routes(kept@).push(mapping@));
    }
    kept.push(mapping);
    *mappings = kept;
}

/// Takes out of the table every mapping of which `remove` returns true, and
/// leaves the others in their order: there are flags, one for each mapping
/// of the table as it was, such that what stays is the selection by them,
/// and each flag is the negation of what `remove` returned of its mapping.
pub fn remove_route_mappings_where<F: Fn(&RouteMapping) -> bool>(
    mappings: &mut Vec<RouteMapping>,
    remove: F,
)
    requires
        forall|i: int|
            0 <= i < old(mappings)@.len() ==> call_requires(remove, (&old(mappings)@[i],)),
    ensures
        exists|keep: Seq<bool>|
            {
                &&& keep.len() == old(mappings)@.len()
                &&& final(mappings)@ == #[trigger] selection(old(mappings)@, keep)
                &&& forall|i: int|
                    0 <= i < keep.len() ==> call_ensures(
                        remove,
                        (&old(mappings)@[i],),
                        !#[trigger] keep[i],
                    )
            },
{
    let ghost whole = mappings@;
    let ghost mut keep: Seq<bool> = Seq::empty();
    let mut kept: Vec<RouteMapping> = Vec::new();
    let mut i: usize = 0;
    assert(whole.take(0) == Seq::<RouteMapping>::empty());
    while i < mappings.len()
        invariant
            i <= mappings.len(),
            whole == mappings@,
            keep.len() == i,
            kept@ == selection(whole.take(i as int), keep),
            forall|j: int| 0 <= j < whole.len() ==> call_requires(remove, (&whole[j],)),
            forall|j: int| 0 <= j < i ==> call_ensures(remove, (&whole[j],), !#[trigger] keep[j]),
        decreases mappings.len() - i,
    {
        let m = &mappings[i];
        let gone = remove(m);
        proof {
            let next = keep.push(!gone);
            assert(whole.take(i + 1).drop_last() == whole.take(i as int));
            assert(next.drop_last() == keep);
            assert(whole.take(i + 1).last() == *m);
            keep = next;
        }
        if !gone {
            kept.push(m.clone());
        }
        i += 1;
    }
    assert(whole.take(i as int) == whole);
    *mappings = kept;
}

} // verus!
