use api_stub::routes::{Method, RouteMapping};
use api_stub::serve::{
    api_get, api_post, base_config_dir, base_json_dir, get_json, join_path, ping_response,
    refresh_token, resolve, upload_files, Resolution, LOG_ENABLED_FILE, LOG_IGNORE_FILE,
    PING_ENDPOINT_FILE, REFRESH_ENDPOINT_FILE, ROUTES_FILE,
};
use api_stub::updates::Rejection;

fn mapping(method: Method, path: &str, file: &str) -> RouteMapping {
    RouteMapping { method, path: path.to_string(), file: file.to_string() }
}

fn served(file: &str) -> Resolution {
    Resolution::Served(file.to_string())
}

#[test]
fn the_ping_endpoint_comes_before_the_route_table() {
    let table = vec![mapping(Method::Get, "/api/v1/ping", "shadowed.json")];
    let ping = "/api/v1/ping";
    let refresh = "/api/v1/authentication/refresh";
    assert_eq!(resolve(Method::Get, ping, ping, refresh, &table), Resolution::Ping);
    assert_eq!(resolve(Method::Get, ping, ping, refresh, &vec![]), Resolution::Ping);
    assert_eq!(api_get("v1/ping", "", "GET /api/v1/ping shadowed.json\n"), Resolution::Ping);
    assert_eq!(api_get("v1/ping", "", ""), Resolution::Ping);
}

#[test]
fn the_refresh_endpoint_comes_before_the_route_table() {
    let table = vec![mapping(Method::Post, "/api/v1/authentication/refresh", "shadowed.json")];
    assert_eq!(
        resolve(
            Method::Post,
            "/api/v1/authentication/refresh",
            "/api/v1/ping",
            "/api/v1/authentication/refresh",
            &table
        ),
        Resolution::Refresh
    );
    assert_eq!(api_post("v1/authentication/refresh", "", ""), Resolution::Refresh);
}

#[test]
fn each_endpoint_answers_its_own_method_only() {
    let table = vec![
        mapping(Method::Post, "/api/v1/ping", "posted.json"),
        mapping(Method::Get, "/api/v1/authentication/refresh", "got.json"),
    ];
    let ping = "/api/v1/ping";
    let refresh = "/api/v1/authentication/refresh";
    assert_eq!(resolve(Method::Post, ping, ping, refresh, &table), served("posted.json"));
    assert_eq!(resolve(Method::Get, refresh, ping, refresh, &table), served("got.json"));
    assert_eq!(resolve(Method::Post, ping, ping, refresh, &vec![]), Resolution::NotFound);
    assert_eq!(api_post("v1/ping", "", ""), Resolution::NotFound);
    assert_eq!(api_get("v1/authentication/refresh", "", ""), Resolution::NotFound);
}

#[test]
fn other_requests_are_answered_by_the_table() {
    let routes = "GET /api/items items/all.json\nPOST /api/items items/new.json\n";
    assert_eq!(api_get("items", "", routes), served("items/all.json"));
    assert_eq!(api_post("items", "", routes), served("items/new.json"));
    assert_eq!(api_get("items/1", "", routes), Resolution::NotFound);
    assert_eq!(api_get("", "", routes), Resolution::NotFound);
}

#[test]
fn a_configured_endpoint_replaces_the_default() {
    let routes = "GET /api/v1/ping old.json\n";
    assert_eq!(api_get("v2/ping", "/api/v2/ping\n", routes), Resolution::Ping);
    assert_eq!(api_get("v1/ping", "/api/v2/ping\n", routes), served("old.json"));
    assert_eq!(api_post("renew", " /api/renew ", ""), Resolution::Refresh);
}

#[test]
fn the_built_in_answers_fall_back_where_no_file_holds_one() {
    assert_eq!(ping_response(None), b"{\"status\":\"success\"}");
    assert_eq!(ping_response(None), api_stub::serve::PING_FALLBACK.as_bytes());
    assert_eq!(refresh_token(None), api_stub::serve::REFRESH_FALLBACK.as_bytes());
    assert_eq!(
        refresh_token(None),
        b"{\"status\":\"success\",\"data\":{\"access_token\":\"dev_access_token\"}} "
    );
    assert_eq!(ping_response(Some(b"{\"up\":true}".to_vec())), b"{\"up\":true}");
    assert_eq!(refresh_token(Some(vec![])), b"");
}

#[test]
fn paths_are_joined_with_one_slash() {
    assert_eq!(join_path("/srv/app", "json"), "/srv/app/json");
    assert_eq!(join_path("/srv/app/", "json"), "/srv/app/json");
    assert_eq!(join_path("", "json"), "json");
    assert_eq!(join_path("/", "json"), "/json");
    assert_eq!(join_path("base", "a/b.json"), "base/a/b.json");
    assert_eq!(base_json_dir("/srv/app"), "/srv/app/json");
    assert_eq!(base_config_dir("/srv/app"), "/srv/app/config");
    assert_eq!(base_config_dir(""), "config");
}

#[test]
fn the_configuration_files_have_their_names() {
    assert_eq!(ROUTES_FILE, "routes.txt");
    assert_eq!(REFRESH_ENDPOINT_FILE, "refresh_endpoint.txt");
    assert_eq!(PING_ENDPOINT_FILE, "ping_endpoint.txt");
    assert_eq!(LOG_IGNORE_FILE, "log_ignore.txt");
    assert_eq!(LOG_ENABLED_FILE, "log_enabled.txt");
}

#[test]
fn a_json_file_is_named_by_a_folder_and_a_path() {
    assert_eq!(get_json("users", "all.json"), Ok("users/all.json".to_string()));
    assert_eq!(get_json("users", "a/b/c.json"), Ok("users/a/b/c.json".to_string()));
    assert_eq!(get_json("..", "all.json"), Err(Rejection::InvalidName));
    assert_eq!(get_json("", "all.json"), Err(Rejection::InvalidName));
    assert_eq!(get_json("a/b", "all.json"), Err(Rejection::InvalidName));
    assert_eq!(get_json("users", ""), Err(Rejection::InvalidFile));
    assert_eq!(get_json("users", "../all.json"), Err(Rejection::InvalidFile));
    assert_eq!(get_json("users", "/etc/passwd"), Err(Rejection::InvalidFile));
    assert_eq!(get_json("users", "a/"), Err(Rejection::InvalidFile));
    assert_eq!(get_json("..", "../x"), Err(Rejection::InvalidName));
}

#[test]
fn uploads_with_unsafe_names_go_nowhere() {
    let names = vec![
        "a.json".to_string(),
        "../b.json".to_string(),
        "".to_string(),
        "c.json".to_string(),
        "d/e.json".to_string(),
        "a.json".to_string(),
    ];
    assert_eq!(
        upload_files("users", &names),
        Ok(vec![
            Some("users/a.json".to_string()),
            None,
            None,
            Some("users/c.json".to_string()),
            None,
            Some("users/a.json".to_string()),
        ])
    );
    assert_eq!(upload_files("users", &vec![]), Ok(vec![]));
    assert_eq!(upload_files("..", &names), Err(Rejection::InvalidName));
    assert_eq!(upload_files("", &vec![]), Err(Rejection::InvalidName));
}

#[test]
fn the_built_in_answers_have_their_files_and_headers() {
    assert_eq!(api_stub::serve::PING_RESPONSE_FILE, "ping/response.json");
    assert_eq!(api_stub::serve::REFRESH_RESPONSE_FILE, "authentication/refresh.json");
    assert_eq!(api_stub::serve::JSON_CONTENT_TYPE, "application/json");
    assert_eq!(api_stub::serve::CACHE_CONTROL, "no-store");
}
