use api_stub::config::{
    read_log_enabled, read_log_ignore_patterns, read_ping_endpoint, read_refresh_endpoint,
};
use api_stub::routes::{
    find_route_mapping, read_route_mappings, write_route_mappings, Method, RouteMapping,
};
use api_stub::updates::{
    apply_route, check_endpoint, check_folder, check_log_ignore, check_log_toggle, check_rename,
    check_route, create_subdir, delete_subdir, normalize_json_file, rename_subdir,
    set_log_ignore, set_log_toggle, set_ping_endpoint, set_refresh_endpoint, set_route_mapping,
    Rejection,
};

fn text(s: &str) -> Option<String> {
    Some(s.to_string())
}

fn ok(s: &str) -> Result<String, Rejection> {
    Ok(s.to_string())
}

#[test]
fn an_endpoint_must_be_an_api_path() {
    assert_eq!(check_endpoint(text("/api/v2/ping")), ok("/api/v2/ping"));
    assert_eq!(check_endpoint(text("/api/a/b/c")), ok("/api/a/b/c"));
    assert_eq!(check_endpoint(None), Err(Rejection::MissingField));
    assert_eq!(check_endpoint(text("")), Err(Rejection::InvalidPath));
    assert_eq!(check_endpoint(text("/v2/ping")), Err(Rejection::InvalidPath));
    assert_eq!(check_endpoint(text("api/v2/ping")), Err(Rejection::InvalidPath));
    assert_eq!(check_endpoint(text("/api/")), Err(Rejection::InvalidPath));
    assert_eq!(check_endpoint(text("/api/../etc")), Err(Rejection::InvalidPath));
    assert_eq!(check_endpoint(text("/api/a//b")), Err(Rejection::InvalidPath));
    assert_eq!(check_endpoint(text("/api/a\\b")), Err(Rejection::InvalidPath));
    assert_eq!(check_endpoint(text(" /api/x")), Err(Rejection::InvalidPath));
}

#[test]
fn the_endpoint_forms_are_read_and_checked() {
    assert_eq!(set_ping_endpoint("path=%2Fapi%2Fv2%2Fping"), ok("/api/v2/ping"));
    assert_eq!(set_refresh_endpoint("x=1&path=/api/auth/renew"), ok("/api/auth/renew"));
    assert_eq!(set_ping_endpoint("other=1"), Err(Rejection::MissingField));
    assert_eq!(set_refresh_endpoint(""), Err(Rejection::MissingField));
    assert_eq!(set_ping_endpoint("path=%2Fping"), Err(Rejection::InvalidPath));
    assert_eq!(set_refresh_endpoint("path=/api/%2E%2E/x"), Err(Rejection::InvalidPath));
}

#[test]
fn an_endpoint_that_was_set_is_read_back() {
    assert_eq!(read_ping_endpoint(""), "/api/v1/ping");
    let written = set_ping_endpoint("path=%2Fapi%2Fv2%2Fping").unwrap();
    assert_eq!(read_ping_endpoint(&written), "/api/v2/ping");
    let written = set_refresh_endpoint("path=/api/renew").unwrap();
    assert_eq!(read_refresh_endpoint(&written), "/api/renew");
    let written = set_ping_endpoint("path=/api/x+").unwrap();
    assert_eq!(written, "/api/x ");
    assert_eq!(read_ping_endpoint(&written), "/api/x");
}

#[test]
fn the_log_switch_that_was_set_is_read_back() {
    assert!(read_log_enabled(&set_log_toggle("enabled=on").unwrap()));
    assert!(!read_log_enabled(&set_log_toggle("enabled=off").unwrap()));
    assert!(!read_log_enabled(&set_log_toggle("enabled=true").unwrap()));
}

#[test]
fn the_ignore_list_that_was_set_is_read_back() {
    let written = set_log_ignore("patterns=health%0A%2Fjson%2F*").unwrap();
    assert_eq!(
        read_log_ignore_patterns(&written),
        vec!["/", "/events", "/health", "/json/*"]
    );
}

#[test]
fn the_log_switch_is_on_only_for_the_word_on() {
    assert_eq!(check_log_toggle(text("on")), ok("on"));
    assert_eq!(check_log_toggle(text(" ON ")), ok("on"));
    assert_eq!(check_log_toggle(text("oN")), ok("on"));
    assert_eq!(check_log_toggle(text("off")), ok("off"));
    assert_eq!(check_log_toggle(text("true")), ok("off"));
    assert_eq!(check_log_toggle(text("")), ok("off"));
    assert_eq!(check_log_toggle(text("o")), ok("off"));
    assert_eq!(check_log_toggle(text("ono")), ok("off"));
    assert_eq!(check_log_toggle(None), Err(Rejection::MissingField));
    assert_eq!(set_log_toggle("enabled=on"), ok("on"));
    assert_eq!(set_log_toggle("enabled=+On+"), ok("on"));
    assert_eq!(set_log_toggle("enabled=off"), ok("off"));
    assert_eq!(set_log_toggle("disabled=on"), Err(Rejection::MissingField));
}

#[test]
fn the_ignore_list_is_written_one_pattern_to_a_line() {
    assert_eq!(check_log_ignore(text("/json/*\nhealth")), ok("/json/*\n/health"));
    assert_eq!(check_log_ignore(text("\n/a\n\n/b\\c\n  b  \n/c*d\n")), ok("/a\n/b"));
    assert_eq!(check_log_ignore(text("/a\r\n/b\r\n")), ok("/a\n/b"));
    assert_eq!(check_log_ignore(text("")), ok(""));
    assert_eq!(check_log_ignore(text("/only")), ok("/only"));
    assert_eq!(check_log_ignore(None), Err(Rejection::MissingField));
    assert_eq!(set_log_ignore("patterns=%2Fjson%2F*%0D%0Ahealth"), ok("/json/*\n/health"));
    assert_eq!(set_log_ignore("pattern=x"), Err(Rejection::MissingField));
}

#[test]
fn the_file_of_a_mapping_is_relative_to_the_json_directory() {
    assert_eq!(normalize_json_file("dir/f.json"), ok("dir/f.json"));
    assert_eq!(normalize_json_file("  dir/f.json  "), ok("dir/f.json"));
    assert_eq!(normalize_json_file("/json/dir/f.json"), ok("dir/f.json"));
    assert_eq!(normalize_json_file("json/dir/f.json"), ok("dir/f.json"));
    assert_eq!(normalize_json_file("/json/json/f.json"), ok("json/f.json"));
    assert_eq!(normalize_json_file("json"), ok("json"));
    assert_eq!(normalize_json_file("jsonx/f.json"), ok("jsonx/f.json"));
}

#[test]
fn files_that_are_refused() {
    assert_eq!(normalize_json_file(""), Err(Rejection::InvalidFile));
    assert_eq!(normalize_json_file("/abs/f.json"), Err(Rejection::InvalidFile));
    assert_eq!(normalize_json_file("/json/"), Err(Rejection::InvalidFile));
    assert_eq!(normalize_json_file("json/"), Err(Rejection::InvalidFile));
    assert_eq!(normalize_json_file("/json//abs"), Err(Rejection::InvalidFile));
    assert_eq!(normalize_json_file("../secret"), Err(Rejection::InvalidFile));
    assert_eq!(normalize_json_file("dir/../../secret"), Err(Rejection::InvalidFile));
    assert_eq!(normalize_json_file("dir\\f.json"), Err(Rejection::InvalidFile));
}

#[test]
fn a_mapping_is_checked_field_by_field() {
    assert_eq!(
        check_route(" get ", " /api/x ", " /json/dir/f.json "),
        Ok(RouteMapping {
            method: Method::Get,
            path: "/api/x".to_string(),
            file: "dir/f.json".to_string()
        })
    );
    assert_eq!(check_route("PUT", "/api/x", "f.json"), Err(Rejection::InvalidMethod));
    assert_eq!(check_route("", "/api/x", "f.json"), Err(Rejection::InvalidMethod));
    assert_eq!(check_route("POST", "/x", "f.json"), Err(Rejection::InvalidPath));
    assert_eq!(check_route("POST", "/api/../x", "f.json"), Err(Rejection::InvalidPath));
    assert_eq!(check_route("POST", "/api/x", "../f.json"), Err(Rejection::InvalidFile));
    assert_eq!(check_route("PUT", "/x", "../f.json"), Err(Rejection::InvalidMethod));
    assert_eq!(check_route("GET", "/x", "../f.json"), Err(Rejection::InvalidPath));
}

#[test]
fn a_mapping_is_set_in_the_text_of_the_table() {
    let m = RouteMapping {
        method: Method::Get,
        path: "/api/x".to_string(),
        file: "f2".to_string(),
    };
    assert_eq!(apply_route(m.clone(), ""), "GET /api/x f2\n");
    assert_eq!(
        apply_route(m, "# old\nGET /api/x f1\nPOST /api/x p\nbroken line\n"),
        "POST /api/x p\nGET /api/x f2\n"
    );
}

#[test]
fn the_mapping_form_is_read_checked_and_applied() {
    assert_eq!(
        set_route_mapping("method=GET&path=%2Fapi%2Fx&file=f1", ""),
        ok("GET /api/x f1\n")
    );
    assert_eq!(
        set_route_mapping("method=get&path=%2Fapi%2Fx&file=json%2Ff2", "GET /api/x f1\n"),
        ok("GET /api/x f2\n")
    );
    assert_eq!(
        set_route_mapping("method=post&path=/api/y&file=g", "GET /api/x f1\n"),
        ok("GET /api/x f1\nPOST /api/y g\n")
    );
}

#[test]
fn a_mapping_form_that_is_refused() {
    let table = "GET /api/x f1\n";
    assert_eq!(set_route_mapping("path=/api/x&file=f", table), Err(Rejection::MissingField));
    assert_eq!(set_route_mapping("method=GET&file=f", table), Err(Rejection::MissingField));
    assert_eq!(set_route_mapping("method=GET&path=/api/x", table), Err(Rejection::MissingField));
    assert_eq!(
        set_route_mapping("method=PATCH&path=/api/x&file=f", table),
        Err(Rejection::InvalidMethod)
    );
    assert_eq!(
        set_route_mapping("method=GET&path=/apix&file=f", table),
        Err(Rejection::InvalidPath)
    );
    assert_eq!(
        set_route_mapping("method=GET&path=/api/x&file=%2Fetc%2Fpasswd", table),
        Err(Rejection::InvalidFile)
    );
    assert_eq!(
        set_route_mapping("method=PATCH&path=/apix", table),
        Err(Rejection::MissingField)
    );
}

#[test]
fn a_folder_name_must_be_a_safe_segment() {
    assert_eq!(check_folder(text("users")), ok("users"));
    assert_eq!(check_folder(None), Err(Rejection::InvalidName));
    assert_eq!(check_folder(text("")), Err(Rejection::InvalidName));
    assert_eq!(check_folder(text("..")), Err(Rejection::InvalidName));
    assert_eq!(check_folder(text("a/b")), Err(Rejection::InvalidName));
    assert_eq!(create_subdir("name=users"), ok("users"));
    assert_eq!(create_subdir("name=..%2Fusers"), Err(Rejection::InvalidName));
    assert_eq!(create_subdir(""), Err(Rejection::InvalidName));
    assert_eq!(delete_subdir("name=users"), ok("users"));
    assert_eq!(delete_subdir("name=."), Err(Rejection::InvalidName));
    assert_eq!(delete_subdir("nam=users"), Err(Rejection::InvalidName));
}

#[test]
fn a_renaming_needs_two_safe_names() {
    assert_eq!(
        check_rename(text("old"), text("new")),
        Ok(("old".to_string(), "new".to_string()))
    );
    assert_eq!(check_rename(text("old"), None), Err(Rejection::InvalidName));
    assert_eq!(check_rename(None, text("new")), Err(Rejection::InvalidName));
    assert_eq!(check_rename(text("a/b"), text("new")), Err(Rejection::InvalidName));
    assert_eq!(check_rename(text("old"), text("..")), Err(Rejection::InvalidName));
    assert_eq!(
        rename_subdir("from=old&to=new"),
        Ok(("old".to_string(), "new".to_string()))
    );
    assert_eq!(rename_subdir("from=old"), Err(Rejection::InvalidName));
    assert_eq!(rename_subdir("from=old&to=a%5Cb"), Err(Rejection::InvalidName));
}

#[test]
fn a_mapping_that_was_set_is_found_once_in_the_text_that_is_read_again() {
    let before = "# hand-written\nGET /api/x f0\nget /api/x f1\nPOST /api/x p\nnot a line\n";
    let written = set_route_mapping("method=GET&path=/api/x&file=f2", before).unwrap();
    let read = read_route_mappings(&written);
    let same_key: Vec<&RouteMapping> =
        read.iter().filter(|m| m.method == Method::Get && m.path == "/api/x").collect();
    assert_eq!(same_key.len(), 1);
    assert_eq!(same_key[0].file, "f2");
    assert_eq!(find_route_mapping(&read, Method::Get, "/api/x"), Some("f2".to_string()));
    assert_eq!(find_route_mapping(&read, Method::Post, "/api/x"), Some("p".to_string()));
    assert_eq!(write_route_mappings(&read), written);
}

#[test]
fn a_mapping_with_whitespace_in_its_path_is_not_read_back() {
    let written = set_route_mapping("method=GET&path=/api/a+b&file=f", "").unwrap();
    assert_eq!(written, "GET /api/a b f\n");
    let read = read_route_mappings(&written);
    assert_eq!(find_route_mapping(&read, Method::Get, "/api/a b"), None);
    assert_eq!(find_route_mapping(&read, Method::Get, "/api/a"), Some("b".to_string()));
}
