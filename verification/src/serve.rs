//! Which answer a request gets, and where the files lie.
//!
//! The two built-in endpoints come before the route table: a mapping for
//! the path of the ping endpoint is never reached by a `GET`, nor one for
//! the path of the refresh endpoint by a `POST`.

use vstd::prelude::*;
use vstd::string::{StrSliceExecFns, StringExecFns, StringSliceAdditionalSpecFns};
use crate::config::{
    default_ping_endpoint, default_refresh_endpoint, read_ping_endpoint, read_refresh_endpoint,
    scalar_or,
};
use crate::path_guard::{
    is_safe_rel_path, is_safe_segment, lemma_segment_is_path, lemma_segment_then_path,
    safe_rel_path, safe_segment,
};
use crate::routes::{
    find_route_mapping, lookup, read_route_mappings, routes, routes_of_text, Method, Route,
    RouteMapping,
};
use crate::text::{chars_of, opt_text, str_eq, texts};
use crate::updates::{text_outcome, Rejection};

verus! {

/// The file of the route table in the configuration directory.
pub const ROUTES_FILE: &'static str = "routes.txt";

/// The file of the refresh endpoint in the configuration directory.
pub const REFRESH_ENDPOINT_FILE: &'static str = "refresh_endpoint.txt";

/// The file of the ping endpoint in the configuration directory.
pub const PING_ENDPOINT_FILE: &'static str = "ping_endpoint.txt";

/// The file of the log's ignore list in the configuration directory.
pub const LOG_IGNORE_FILE: &'static str = "log_ignore.txt";

/// The file of the log's switch in the configuration directory.
pub const LOG_ENABLED_FILE: &'static str = "log_enabled.txt";

/// The file of the ping endpoint's answer under the directory of the JSON
/// files.
pub const PING_RESPONSE_FILE: &'static str = "ping/response.json";

/// The file of the refresh endpoint's answer under the directory of the JSON
/// files.
pub const REFRESH_RESPONSE_FILE: &'static str = "authentication/refresh.json";

/// The content type of every answer that holds JSON.
pub const JSON_CONTENT_TYPE: &'static str = "application/json";

/// The caching directive of every answer: files are read anew each time.
pub const CACHE_CONTROL: &'static str = "no-store";

/// The answer to a request under `/api/`.
#[derive(Debug, PartialEq, Eq)]
pub enum Resolution {
    /// The ping endpoint's answer.
    Ping,
    /// The refresh endpoint's answer.
    Refresh,
    /// The file of that relative path under the directory of the JSON files.
    Served(String),
    /// Nothing answers.
    NotFound,
}

/// What a `Resolution` stands for.
pub enum Answer {
    Ping,
    Refresh,
    Served(Seq<char>),
    NotFound,
}

impl View for Resolution {
    type V = Answer;

    open spec fn view(&self) -> Answer {
        match self {
            Resolution::Ping => Answer::Ping,
            Resolution::Refresh => Answer::Refresh,
            Resolution::Served(file) => Answer::Served(file@),
            Resolution::NotFound => Answer::NotFound,
        }
    }
}

/// What the route table answers.
pub open spec fn table_answer(table: Seq<Route>, method: Method, path: Seq<char>) -> Answer {
    match lookup(table, method, path) {
        Some(file) => Answer::Served(file),
        None => Answer::NotFound,
    }
}

/// The answer to a request: a `GET` for the ping endpoint and a `POST` for
/// the refresh endpoint get the built-in answers, and every other request
/// what the route table answers.
pub open spec fn resolved(
    method: Method,
    path: Seq<char>,
    ping: Seq<char>,
    refresh: Seq<char>,
    table: Seq<Route>,
) -> Answer {
    match method {
        Method::Get => if path == ping {
            Answer::Ping
        } else {
            table_answer(table, method, path)
        },
        Method::Post => if path == refresh {
            Answer::Refresh
        } else {
            table_answer(table, method, path)
        },
    }
}

/// Resolves a request for `path` against the two endpoints and the route
/// table.
pub fn resolve(
    method: Method,
    path: &str,
    ping_endpoint: &str,
    refresh_endpoint: &str,
    mappings: &Vec<RouteMapping>,
) -> (out: Resolution)
    ensures
        out@ == resolved(method, path@, ping_endpoint@, refresh_endpoint@, routes(mappings@)),
{
    match method {
        Method::Get => {
            if str_eq(path, ping_endpoint) {
                return Resolution::Ping;
            }
        },
        Method::Post => {
            if str_eq(path, refresh_endpoint) {
                return Resolution::Refresh;
            }
        },
    }
    match find_route_mapping(mappings, method, path) {
        Some(file) => Resolution::Served(file),
        None => Resolution::NotFound,
    }
}

/// A `GET` for the ping endpoint gets the ping answer whatever the route
/// table holds, and a `POST` for the refresh endpoint the refresh answer.
pub proof fn law_endpoints_before_table(ping: Seq<char>, refresh: Seq<char>, table: Seq<Route>)
    ensures
        resolved(Method::Get, ping, ping, refresh, table) == Answer::Ping,
        resolved(Method::Post, refresh, ping, refresh, table) == Answer::Refresh,
{
}

/// The answer to `GET /api/<tail>`, given the texts of the ping endpoint's
/// file and of the route table.
pub fn api_get(tail: &str, ping_contents: &str, routes_contents: &str) -> (out: Resolution)
    ensures
        out@ == resolved(
            Method::Get,
            "/api/"@ + tail@,
            scalar_or(ping_contents@, default_ping_endpoint()),
            Seq::empty(),
            routes_of_text(routes_contents@),
        ),
{
    let mut requested = "/api/".to_owned();
    requested.append(tail);
    let ping = read_ping_endpoint(ping_contents);
    if str_eq(requested.as_str(), ping.as_str()) {
        return Resolution::Ping;
    }
    let mappings = read_route_mappings(routes_contents);
    match find_route_mapping(&mappings, Method::Get, requested.as_str()) {
        Some(file) => Resolution::Served(file),
        None => Resolution::NotFound,
    }
}

/// The answer to `POST /api/<tail>`, given the texts of the refresh
/// endpoint's file and of the route table.
pub fn api_post(tail: &str, refresh_contents: &str, routes_contents: &str) -> (out: Resolution)
    ensures
        out@ == resolved(
            Method::Post,
            "/api/"@ + tail@,
            Seq::empty(),
            scalar_or(refresh_contents@, default_refresh_endpoint()),
            routes_of_text(routes_contents@),
        ),
{
    let mut requested = "/api/".to_owned();
    requested.append(tail);
    let refresh = read_refresh_endpoint(refresh_contents);
    if str_eq(requested.as_str(), refresh.as_str()) {
        return Resolution::Refresh;
    }
    let mappings = read_route_mappings(routes_contents);
    match find_route_mapping(&mappings, Method::Post, requested.as_str()) {
        Some(file) => Resolution::Served(file),
        None => Resolution::NotFound,
    }
}

/// The ping endpoint's answer where no file holds one.
pub const PING_FALLBACK: &'static str = "{\"status\":\"success\"}";

/// The refresh endpoint's answer where no file holds one.
pub const REFRESH_FALLBACK: &'static str =
    "{\"status\":\"success\",\"data\":{\"access_token\":\"dev_access_token\"}} ";

/// The body of the ping endpoint's answer: what its file holds, or the
/// fallback where the file could not be read.
pub fn ping_response(stored: Option<Vec<u8>>) -> (out: Vec<u8>)
    ensures
        out@ == match stored {
            Some(bytes) => bytes@,
            None => PING_FALLBACK.spec_bytes(),
        },
{
    match stored {
        Some(bytes) => bytes,
        None => PING_FALLBACK.as_bytes_vec(),
    }
}

/// The body of the refresh endpoint's answer: what its file holds, or the
/// fallback where the file could not be read.
pub fn refresh_token(stored: Option<Vec<u8>>) -> (out: Vec<u8>)
    ensures
        out@ == match stored {
            Some(bytes) => bytes@,
            None => REFRESH_FALLBACK.spec_bytes(),
        },
{
    match stored {
        Some(bytes) => bytes,
        None => REFRESH_FALLBACK.as_bytes_vec(),
    }
}

/// `rel` under the directory `base`: the two joined by one slash, which is
/// left out where `base` is empty or ends in one.
pub open spec fn joined(base: Seq<char>, rel: Seq<char>) -> Seq<char> {
    if base.len() == 0 || base.last() == '/' {
        base + rel
    } else {
        base + seq!['/'] + rel
    }
}

/// The path of `rel` under the directory `base`.
pub fn join_path(base: &str, rel: &str) -> (out: String)
    ensures
        out@ == joined(base@, rel@),
{
    let b = chars_of(base);
    let mut out = base.to_owned();
    if b.len() > 0 && b[b.len() - 1] != '/' {
        out.push('/');
    }
    out.append(rel);
    out
}

/// The directory of the JSON files under the directory `root`.
pub fn base_json_dir(root: &str) -> (out: String)
    ensures
        out@ == joined(root@, "json"@),
{
    join_path(root, "json")
}

/// The configuration directory under the directory `root`.
pub fn base_config_dir(root: &str) -> (out: String)
    ensures
        out@ == joined(root@, "config"@),
{
    join_path(root, "config")
}

/// The file that a request for `/json/<subdir>/<path>` names, relative to
/// the directory of the JSON files.
pub open spec fn json_file(subdir: Seq<char>, path: Seq<char>) -> Result<Seq<char>, Rejection> {
    if !safe_segment(subdir) {
        Err(Rejection::InvalidName)
    } else if !safe_rel_path(path) {
        Err(Rejection::InvalidFile)
    } else {
        Ok(subdir + seq!['/'] + path)
    }
}

/// Checks a request for `/json/<subdir>/<path>` and returns the file that
/// it names, relative to the directory of the JSON files. What it returns is
/// a safe relative path.
pub fn get_json(subdir: &str, path: &str) -> (out: Result<String, Rejection>)
    ensures
        text_outcome(out) == json_file(subdir@, path@),
        out matches Ok(file) ==> safe_rel_path(file@),
{
    if !is_safe_segment(subdir) {
        return Err(Rejection::InvalidName);
    }
    if !is_safe_rel_path(path) {
        return Err(Rejection::InvalidFile);
    }
    let mut file = subdir.to_owned();
    file.push('/');
    file.append(path);
    proof {
        lemma_segment_then_path(subdir@, path@);
        assert(subdir@.push('/') == subdir@ + seq!['/']);
    }
    Ok(file)
}

/// Where an upload with the name `name` goes in the folder `subdir`: behind
/// the folder and a slash, if the name is a safe segment.
pub open spec fn upload_target(subdir: Seq<char>, name: Seq<char>) -> Option<Seq<char>> {
    if safe_segment(name) {
        Some(subdir + seq!['/'] + name)
    } else {
        None
    }
}

/// The function that gives each name its `upload_target` in `subdir`.
pub open spec fn targets_in(subdir: Seq<char>) -> spec_fn(Seq<char>) -> Option<Seq<char>> {
    |name: Seq<char>| upload_target(subdir, name)
}

/// The views of a sequence of optional strings.
pub open spec fn opt_texts(v: Seq<Option<String>>) -> Seq<Option<Seq<char>>> {
    v.map_values(|s: Option<String>| opt_text(s))
}

/// The view of the outcome of an upload.
pub open spec fn upload_outcome(r: Result<Vec<Option<String>>, Rejection>) -> Result<
    Seq<Option<Seq<char>>>,
    Rejection,
> {
    match r {
        Ok(v) => Ok(opt_texts(v@)),
        Err(e) => Err(e),
    }
}

/// Checks an upload of files with the names `names` into the folder
/// `subdir`, and returns for each name where the file goes, relative to the
/// directory of the JSON files. A file whose name is no safe segment goes
/// nowhere. Every place that is returned is a safe relative path.
pub fn upload_files(subdir: &str, names: &Vec<String>) -> (out: Result<
    Vec<Option<String>>,
    Rejection,
>)
    ensures
        upload_outcome(out) == if safe_segment(subdir@) {
            Ok::<Seq<Option<Seq<char>>>, Rejection>(texts(names@).map_values(targets_in(subdir@)))
        } else {
            Err::<Seq<Option<Seq<char>>>, Rejection>(Rejection::InvalidName)
        },
        out matches Ok(files) ==> forall|i: int|
            0 <= i < files@.len() ==> (#[trigger] files@[i] matches Some(file) ==> safe_rel_path(
                file@,
            )),
{
    if !is_safe_segment(subdir) {
        return Err(Rejection::InvalidName);
    }
    let ghost all = texts(names@);
    let mut files: Vec<Option<String>> = Vec::new();
    let mut i: usize = 0;
    while i < names.len()
        invariant
            i <= names.len(),
            all == texts(names@),
            safe_segment(subdir@),
            opt_texts(files@) == all.take(i as int).map_values(targets_in(subdir@)),
            forall|j: int|
                0 <= j < files@.len() ==> (#[trigger] files@[j] matches Some(file)
                    ==> safe_rel_path(file@)),
        decreases names.len() - i,
    {
        let name = names[i].as_str();
        let target = if is_safe_segment(name) {
            let mut file = subdir.to_owned();
            file.push('/');
            file.append(name);
            proof {
                lemma_segment_is_path(name@);
                lemma_segment_then_path(subdir@, name@);
                assert(subdir@.push('/') == subdir@ + seq!['/']);
            }
            Some(file)
        } else {
            None
        };
        proof {
            assert(all.take(i + 1) == all.take(i as int).push(name@));
            assert(all.take(i as int).push(name@).map_values(targets_in(subdir@)) == all.take(
                i as int,
            ).map_values(targets_in(subdir@)).push(upload_target(subdir@, name@)));
            assert(opt_texts(files@.push(target)) == opt_texts(files@).push(
                opt_text(target),
            ));
        }
        files.push(target);
        i += 1;
    }
    assert(all.take(i as int) == all);
    Ok(files)
}

} // verus!
