//! What a posted form asks to change, and what is written if it is accepted.
//!
//! Each update is checked in full before anything is handed back for
//! writing: a form that is refused changes nothing.

use vstd::prelude::*;
use vstd::string::{StringExecFns, StringSliceAdditionalSpecFns};
use crate::config::{log_enabled, patterns_of_lines, read_patterns, scalar_or};
use crate::form::{field_text, form_field, form_value};
use crate::path_guard::{is_safe_segment, safe_rel_path, safe_rel_path_in, safe_segment};
use crate::routes::{
    is_api_path_in, read_route_mappings, routes_of_text, text_of_routes, upsert,
    upsert_route_mapping, valid_api_path, valid_route, write_route_mappings, Method, Route,
    RouteMapping,
};
use crate::text::{
    chars_of, is_space, lemma_prefix_len_is, lemma_suffix_len_is, opt_text, range_starts_with,
    space, split, starts_with, string_of, texts, trim, trim_range, trim_start, trimmed,
};

verus! {

/// Why an update is refused.
#[derive(Clone, Copy, Debug, PartialEq, Eq, Structural)]
pub enum Rejection {
    /// The form lacks a field that the update needs.
    MissingField,
    /// The method is neither `GET` nor `POST`.
    InvalidMethod,
    /// The path is no API path.
    InvalidPath,
    /// The file is no safe relative path.
    InvalidFile,
    /// The name is no safe segment.
    InvalidName,
}

/// The endpoint that a form's `path` field configures.
pub open spec fn endpoint_update(field: Option<Seq<char>>) -> Result<Seq<char>, Rejection> {
    match field {
        None => Err(Rejection::MissingField),
        Some(path) => if valid_api_path(path) {
            Ok(path)
        } else {
            Err(Rejection::InvalidPath)
        },
    }
}

/// The view of the outcome of an update that yields text.
pub open spec fn text_outcome(r: Result<String, Rejection>) -> Result<Seq<char>, Rejection> {
    match r {
        Ok(s) => Ok(s@),
        Err(e) => Err(e),
    }
}

/// Checks the endpoint that a form's `path` field holds.
pub fn check_endpoint(field: Option<String>) -> (out: Result<String, Rejection>)
    ensures
        text_outcome(out) == endpoint_update(opt_text(field)),
{
    match field {
        None => Err(Rejection::MissingField),
        Some(path) => {
            let v = chars_of(path.as_str());
            assert(v@.subrange(0, v@.len() as int) == v@);
            if is_api_path_in(&v, 0, v.len()) {
                Ok(path)
            } else {
                Err(Rejection::InvalidPath)
            }
        },
    }
}

/// An endpoint that was accepted and written reads back as itself, unless
/// it ends in whitespace, which reading takes off.
pub proof fn law_endpoint_reads_back(path: Seq<char>, default: Seq<char>)
    requires
        endpoint_update(Some(path)) is Ok,
        !is_space(path.last()),
    ensures
        scalar_or(endpoint_update(Some(path))->Ok_0, default) == path,
{
    reveal_strlit("/api/");
    assert(path.take(5)[0] == '/');
    assert(path[0] == '/');
    lemma_prefix_len_is(path, space(), 0);
    assert(trim_start(path) == path);
    lemma_suffix_len_is(path, space(), 0);
    assert(trim(path) == path);
}

/// The new text of the refresh endpoint's file, given the body of the form
/// that sets it.
pub fn set_refresh_endpoint(body: &str) -> (out: Result<String, Rejection>)
    ensures
        text_outcome(out) == endpoint_update(
            field_text(form_field(body.spec_bytes(), "path".spec_bytes())),
        ),
{
    check_endpoint(form_value(body, "path"))
}

/// The new text of the ping endpoint's file, given the body of the form that
/// sets it.
pub fn set_ping_endpoint(body: &str) -> (out: Result<String, Rejection>)
    ensures
        text_outcome(out) == endpoint_update(
            field_text(form_field(body.spec_bytes(), "path".spec_bytes())),
        ),
{
    check_endpoint(form_value(body, "path"))
}

/// Whether `s` is the word `on` in any mix of upper and lower case.
pub open spec fn says_on(s: Seq<char>) -> bool {
    s.len() == 2 && (s[0] == 'o' || s[0] == 'O') && (s[1] == 'n' || s[1] == 'N')
}

/// The text of the log switch's file for a form's `enabled` field: `on`
/// where the field says so, `off` for anything else.
pub open spec fn toggle_update(field: Option<Seq<char>>) -> Result<Seq<char>, Rejection> {
    match field {
        None => Err(Rejection::MissingField),
        Some(value) => if says_on(trim(value)) {
            Ok("on"@)
        } else {
            Ok("off"@)
        },
    }
}

/// The text that switching the log on writes is read as on.
pub proof fn law_switched_on_reads_on(value: Seq<char>)
    requires
        says_on(trim(value)),
    ensures
        log_enabled(toggle_update(Some(value))->Ok_0),
{
    reveal_strlit("on");
    let on = "on"@;
    assert(on[0] == 'o' && on[1] == 'n');
    lemma_prefix_len_is(on, space(), 0);
    assert(trim_start(on) == on);
    lemma_suffix_len_is(on, space(), 0);
    assert(trim(on) == on);
}

/// Checks the switch that a form's `enabled` field holds.
pub fn check_log_toggle(field: Option<String>) -> (out: Result<String, Rejection>)
    ensures
        text_outcome(out) == toggle_update(opt_text(field)),
{
    match field {
        None => Err(Rejection::MissingField),
        Some(value) => {
            let v = chars_of(value.as_str());
            assert(v@.subrange(0, v@.len() as int) == v@);
            let (a, b) = trim_range(&v, 0, v.len());
            let ghost t = v@.subrange(a as int, b as int);
            if b - a == 2 && (v[a] == 'o' || v[a] == 'O') && (v[a + 1] == 'n' || v[a + 1] == 'N') {
                assert(t[0] == v@[a as int] && t[1] == v@[a + 1]);
                Ok("on".to_owned())
            } else {
                if b - a == 2 {
                    assert(t[0] == v@[a as int] && t[1] == v@[a + 1]);
                }
                Ok("off".to_owned())
            }
        },
    }
}

/// The new text of the log switch's file, given the body of the form that
/// sets it.
pub fn set_log_toggle(body: &str) -> (out: Result<String, Rejection>)
    ensures
        text_outcome(out) == toggle_update(
            field_text(form_field(body.spec_bytes(), "enabled".spec_bytes())),
        ),
{
    check_log_toggle(form_value(body, "enabled"))
}

/// The lines joined by line feeds, with none behind the last.
pub open spec fn join_lines(lines: Seq<Seq<char>>) -> Seq<char>
    decreases lines.len(),
{
    if lines.len() == 0 {
        Seq::empty()
    } else if lines.len() == 1 {
        lines[0]
    } else {
        join_lines(lines.drop_last()) + seq!['\n'] + lines.last()
    }
}

/// The text of the ignore list's file for a form's `patterns` field: the
/// pattern of each line that stands for one.
pub open spec fn ignore_update(field: Option<Seq<char>>) -> Result<Seq<char>, Rejection> {
    match field {
        None => Err(Rejection::MissingField),
        Some(text) => Ok(join_lines(patterns_of_lines(split(text, '\n')))),
    }
}

/// Checks the patterns that a form's `patterns` field holds.
pub fn check_log_ignore(field: Option<String>) -> (out: Result<String, Rejection>)
    ensures
        text_outcome(out) == ignore_update(opt_text(field)),
{
    let text = match field {
        None => {
            return Err(Rejection::MissingField);
        },
        Some(text) => text,
    };
    let patterns = read_patterns(text.as_str());
    let ghost lines = texts(patterns@);
    let mut out = String::new();
    let mut i: usize = 0;
    assert(lines.take(0) == Seq::<Seq<char>>::empty());
    while i < patterns.len()
        invariant
            i <= patterns.len(),
            lines == texts(patterns@),
            out@ == join_lines(lines.take(i as int)),
        decreases patterns.len() - i,
    {
        if i > 0 {
            out.push('\n');
        }
        out.append(patterns[i].as_str());
        proof {
            let upto = lines.take(i + 1);
            assert(upto.drop_last() == lines.take(i as int));
            assert(upto.last() == patterns@[i as int]@);
        }
        i += 1;
    }
    assert(lines.take(i as int) == lines);
    Ok(out)
}

/// The new text of the ignore list's file, given the body of the form that
/// sets it.
pub fn set_log_ignore(body: &str) -> (out: Result<String, Rejection>)
    ensures
        text_outcome(out) == ignore_update(
            field_text(form_field(body.spec_bytes(), "patterns".spec_bytes())),
        ),
{
    check_log_ignore(form_value(body, "patterns"))
}

/// The file of a mapping as the table holds it: the field without the
/// whitespace around it and without one leading `/json/` or `json/`.
pub open spec fn json_relative(input: Seq<char>) -> Seq<char> {
    let t = trim(input);
    if starts_with(t, "/json/"@) {
        t.skip(6)
    } else if starts_with(t, "json/"@) {
        t.skip(5)
    } else {
        t
    }
}

/// The file that a form's `file` field names, relative to the directory of
/// the JSON files.
pub open spec fn file_update(input: Seq<char>) -> Result<Seq<char>, Rejection> {
    if safe_rel_path(json_relative(input)) {
        Ok(json_relative(input))
    } else {
        Err(Rejection::InvalidFile)
    }
}

/// Reads the file of a mapping from a form field: a path relative to the
/// directory of the JSON files, which may be written with `/json/` or
/// `json/` in front.
pub fn normalize_json_file(input: &str) -> (out: Result<String, Rejection>)
    ensures
        text_outcome(out) == file_update(input@),
{
    let v = chars_of(input);
    assert(v@.subrange(0, v@.len() as int) == v@);
    let (a, b) = trim_range(&v, 0, v.len());
    let long = chars_of("/json/");
    let short = chars_of("json/");
    proof {
        reveal_strlit("/json/");
        reveal_strlit("json/");
    }
    let ghost t = v@.subrange(a as int, b as int);
    let from = if range_starts_with(&v, a, b, &long) {
        assert(t.skip(6) == v@.subrange(a + 6, b as int));
        a + 6
    } else if range_starts_with(&v, a, b, &short) {
        assert(t.skip(5) == v@.subrange(a + 5, b as int));
        a + 5
    } else {
        a
    };
    if safe_rel_path_in(&v, from, b) {
        Ok(string_of(&v, from, b))
    } else {
        Err(Rejection::InvalidFile)
    }
}

/// The mapping that the three fields of a form ask to set.
pub open spec fn route_update(method: Seq<char>, path: Seq<char>, file: Seq<char>) -> Result<
    Route,
    Rejection,
> {
    match Method::of_word(trim(method)) {
        None => Err(Rejection::InvalidMethod),
        Some(m) => if !valid_api_path(trim(path)) {
            Err(Rejection::InvalidPath)
        } else {
            match file_update(file) {
                Err(e) => Err(e),
                Ok(f) => Ok(Route { method: m, path: trim(path), file: f }),
            }
        },
    }
}

/// The view of the outcome of an update that yields a mapping.
pub open spec fn route_outcome(r: Result<RouteMapping, Rejection>) -> Result<Route, Rejection> {
    match r {
        Ok(m) => Ok(m@),
        Err(e) => Err(e),
    }
}

/// Checks the mapping that the fields of a form ask to set. What it
/// accepts is a valid mapping.
pub fn check_route(method: &str, path: &str, file: &str) -> (out: Result<RouteMapping, Rejection>)
    ensures
        route_outcome(out) == route_update(method@, path@, file@),
        out matches Ok(m) ==> valid_route(m@),
{
    let word = trimmed(method);
    let method = match Method::parse(word.as_str()) {
        Some(m) => m,
        None => {
            return Err(Rejection::InvalidMethod);
        },
    };
    let path = trimmed(path);
    let v = chars_of(path.as_str());
    assert(v@.subrange(0, v@.len() as int) == v@);
    if !is_api_path_in(&v, 0, v.len()) {
        return Err(Rejection::InvalidPath);
    }
    match normalize_json_file(file) {
        Err(e) => Err(e),
        Ok(file) => Ok(RouteMapping { method, path, file }),
    }
}

/// What a form that sets a mapping asks for, given the text of its three
/// fields.
pub open spec fn mapping_update(
    method: Option<Seq<char>>,
    path: Option<Seq<char>>,
    file: Option<Seq<char>>,
) -> Result<Route, Rejection> {
    if method is None || path is None || file is None {
        Err(Rejection::MissingField)
    } else {
        route_update(method->0, path->0, file->0)
    }
}

/// The new text of the route table for an update: the table as it was read,
/// with the mapping set.
pub open spec fn table_update(update: Result<Route, Rejection>, contents: Seq<char>) -> Result<
    Seq<char>,
    Rejection,
> {
    match update {
        Err(e) => Err(e),
        Ok(r) => Ok(text_of_routes(upsert(routes_of_text(contents), r))),
    }
}

/// Sets a mapping in the route table that `contents` holds, and returns the
/// table's new text.
pub fn apply_route(mapping: RouteMapping, contents: &str) -> (out: String)
    ensures
        out@ == text_of_routes(upsert(routes_of_text(contents@), mapping@)),
{
    let mut mappings = read_route_mappings(contents);
    upsert_route_mapping(&mut mappings, mapping);
    write_route_mappings(&mappings)
}

/// The new text of the route table, given the body of the form that sets a
/// mapping and the text of the table as it is. The fields `method`, `path`
/// and `file` are all needed.
pub fn set_route_mapping(body: &str, contents: &str) -> (out: Result<String, Rejection>)
    ensures
        text_outcome(out) == table_update(
            mapping_update(
                field_text(form_field(body.spec_bytes(), "method".spec_bytes())),
                field_text(form_field(body.spec_bytes(), "path".spec_bytes())),
                field_text(form_field(body.spec_bytes(), "file".spec_bytes())),
            ),
            contents@,
        ),
{
    let method = match form_value(body, "method") {
        Some(v) => v,
        None => {
            return Err(Rejection::MissingField);
        },
    };
    let path = match form_value(body, "path") {
        Some(v) => v,
        None => {
            return Err(Rejection::MissingField);
        },
    };
    let file = match form_value(body, "file") {
        Some(v) => v,
        None => {
            return Err(Rejection::MissingField);
        },
    };
    match check_route(method.as_str(), path.as_str(), file.as_str()) {
        Err(e) => Err(e),
        Ok(mapping) => Ok(apply_route(mapping, contents)),
    }
}

/// The folder that a form field names.
pub open spec fn folder_update(field: Option<Seq<char>>) -> Result<Seq<char>, Rejection> {
    let name = match field {
        Some(name) => name,
        None => Seq::empty(),
    };
    if safe_segment(name) {
        Ok(name)
    } else {
        Err(Rejection::InvalidName)
    }
}

/// Checks the folder that a form field names. A missing field is an empty
/// name, which is refused like any other unsafe name.
pub fn check_folder(field: Option<String>) -> (out: Result<String, Rejection>)
    ensures
        text_outcome(out) == folder_update(opt_text(field)),
{
    let name = match field {
        Some(name) => name,
        None => String::new(),
    };
    if is_safe_segment(name.as_str()) {
        Ok(name)
    } else {
        Err(Rejection::InvalidName)
    }
}

/// The folder to create under the directory of the JSON files, given the
/// body of the form that asks for it.
pub fn create_subdir(body: &str) -> (out: Result<String, Rejection>)
    ensures
        text_outcome(out) == folder_update(
            field_text(form_field(body.spec_bytes(), "name".spec_bytes())),
        ),
{
    check_folder(form_value(body, "name"))
}

/// The folder to delete under the directory of the JSON files, given the
/// body of the form that asks for it.
pub fn delete_subdir(body: &str) -> (out: Result<String, Rejection>)
    ensures
        text_outcome(out) == folder_update(
            field_text(form_field(body.spec_bytes(), "name".spec_bytes())),
        ),
{
    check_folder(form_value(body, "name"))
}

/// The old and the new name of a renaming.
pub open spec fn rename_update(from: Option<Seq<char>>, to: Option<Seq<char>>) -> Result<
    (Seq<char>, Seq<char>),
    Rejection,
> {
    match (folder_update(from), folder_update(to)) {
        (Ok(a), Ok(b)) => Ok((a, b)),
        _ => Err(Rejection::InvalidName),
    }
}

/// The view of the outcome of a renaming.
pub open spec fn pair_outcome(r: Result<(String, String), Rejection>) -> Result<
    (Seq<char>, Seq<char>),
    Rejection,
> {
    match r {
        Ok((a, b)) => Ok((a@, b@)),
        Err(e) => Err(e),
    }
}

/// Checks the two names of a renaming.
pub fn check_rename(from: Option<String>, to: Option<String>) -> (out: Result<
    (String, String),
    Rejection,
>)
    ensures
        pair_outcome(out) == rename_update(opt_text(from), opt_text(to)),
{
    match check_folder(from) {
        Err(_) => Err(Rejection::InvalidName),
        Ok(a) => match check_folder(to) {
            Err(_) => Err(Rejection::InvalidName),
            Ok(b) => Ok((a, b)),
        },
    }
}

/// The folder to rename under the directory of the JSON files and its new
/// name, given the body of the form that asks for it.
pub fn rename_subdir(body: &str) -> (out: Result<(String, String), Rejection>)
    ensures
        pair_outcome(out) == rename_update(
            field_text(form_field(body.spec_bytes(), "from".spec_bytes())),
            field_text(form_field(body.spec_bytes(), "to".spec_bytes())),
        ),
{
    let from = form_value(body, "from");
    let to = form_value(body, "to");
    check_rename(from, to)
}

} // verus!
