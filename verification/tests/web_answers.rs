use rustservice::web::{progress_request, ProgressRequest};
use rustservice::web::static_target;
use rustservice::web::meta_json;
use rustservice::library::Entry;
use rustservice::web::{
    dpi_param, entry_json, get_user, is_api_path, json_esc, list_json, me_json, mime_of,
    page_param, parse_args, parse_uint_exec, progress_get, progress_post, query_map,
    recent_item_json, recent_json, render_concurrency, static_rel, strip_prefix, User,
};

#[test]
fn users_from_gateway_headers() {
    assert!(get_user(None, None, None, true).is_none());
    let u = get_user(None, Some("true".to_string()), None, false).unwrap();
    assert_eq!((u.uid.as_str(), u.username.as_str(), u.is_admin), ("debug", "debug", true));
    let u = get_user(Some("7".to_string()), Some("TRUE".to_string()), Some("bob".to_string()), true).unwrap();
    assert_eq!((u.uid.as_str(), u.username.as_str(), u.is_admin), ("7", "bob", false));
    let u = get_user(Some("8".to_string()), None, None, true).unwrap();
    assert_eq!((u.uid.as_str(), u.username.as_str(), u.is_admin), ("8", "8", false));
}

#[test]
fn me_answer() {
    let u = User { uid: "1".to_string(), username: "a\"b".to_string(), is_admin: true };
    assert_eq!(me_json(&u), "{\"uid\":\"1\",\"username\":\"a\\\"b\",\"isAdmin\":true}");
    let u = User { uid: "2".to_string(), username: "c".to_string(), is_admin: false };
    assert_eq!(me_json(&u), "{\"uid\":\"2\",\"username\":\"c\",\"isAdmin\":false}");
}

#[test]
fn json_esc_matches_the_store_escaping() {
    assert_eq!(json_esc("a\"\\\n\u{2}"), "a\\\"\\\\\\n\\u0002");
}

#[test]
fn entry_answer_with_and_without_progress() {
    let e = Entry {
        name: "Rust.pdf".to_string(),
        path: "/vol1/PDFLibrary/技术/Rust.pdf".to_string(),
        kind: "file",
        size: 10,
        mtime: 20,
        count: 0,
    };
    let roots = vec!["/vol1/PDFLibrary".to_string()];
    assert_eq!(
        entry_json(&e, &roots, Some("{\"page\":1}".to_string())),
        "{\"name\":\"Rust.pdf\",\"path\":\"/vol1/PDFLibrary/技术/Rust.pdf\",\"type\":\"file\",\"size\":10,\"mtime\":20,\"count\":0,\"segments\":[\"技术\",\"Rust.pdf\"],\"progress\":{\"page\":1}}"
    );
    assert_eq!(
        entry_json(&e, &Vec::new(), None),
        "{\"name\":\"Rust.pdf\",\"path\":\"/vol1/PDFLibrary/技术/Rust.pdf\",\"type\":\"file\",\"size\":10,\"mtime\":20,\"count\":0,\"segments\":[]}"
    );
}

#[test]
fn list_answer() {
    let crumbs = vec![("P".to_string(), "/p".to_string()), ("q\"".to_string(), "/p/q\"".to_string())];
    let items = vec!["{}".to_string(), "{\"a\":1}".to_string()];
    assert_eq!(
        list_json("/p/q\"", &crumbs, &items, "bob"),
        "{\"path\":\"/p/q\\\"\",\"breadcrumb\":[{\"name\":\"P\",\"path\":\"/p\"},{\"name\":\"q\\\"\",\"path\":\"/p/q\\\"\"}],\"items\":[{},{\"a\":1}],\"count\":2,\"username\":\"bob\"}"
    );
    assert_eq!(
        list_json("", &Vec::new(), &Vec::new(), ""),
        "{\"path\":\"\",\"breadcrumb\":[],\"items\":[],\"count\":0,\"username\":\"\"}"
    );
}

#[test]
fn recent_answers() {
    let roots = vec!["/r".to_string()];
    let item = recent_item_json("/r/sub/a.pdf", &roots, "{\"page\":2}");
    assert_eq!(
        item,
        "{\"name\":\"a.pdf\",\"path\":\"/r/sub/a.pdf\",\"segments\":[\"sub\",\"a.pdf\"],\"progress\":{\"page\":2}}"
    );
    assert_eq!(recent_json(&vec!["{}".to_string(), "{}".to_string()]), "{\"items\":[{},{}]}");
    assert_eq!(recent_json(&Vec::new()), "{\"items\":[]}");
}

#[test]
fn progress_answers() {
    assert_eq!(progress_get("k", None), "{\"path\":\"k\",\"progress\":null}");
    assert_eq!(progress_get("/a\"b", Some("{\"page\":3}".to_string())), "{\"path\":\"/a\\\"b\",\"progress\":{\"page\":3}}");
    assert_eq!(progress_post("{}"), "{\"ok\":true,\"progress\":{}}");
}

#[test]
fn query_strings_are_decoded_and_last_wins() {
    let q = query_map(Some("path=%2Fvol%20one%2F%E6%8A%80&page=3&&flag&page=4"));
    assert_eq!(q.get("path"), Some("/vol one/技".to_string()));
    assert_eq!(q.get("page"), Some("4".to_string()));
    assert_eq!(q.get("flag"), Some(String::new()));
    assert_eq!(q.get("x"), None);
}

#[test]
fn undecodable_query_text_becomes_empty() {
    let q = query_map(Some("a%FF=1&b=%FF&c=x=y"));
    assert_eq!(q.get(""), Some("1".to_string()));
    assert_eq!(q.get("b"), Some(String::new()));
    assert_eq!(q.get("c"), Some("x=y".to_string()));
    assert_eq!(q.get("a%FF"), None);
}

#[test]
fn no_query_means_no_parameters() {
    assert_eq!(query_map(None).get("path"), None);
    assert_eq!(query_map(Some("")).get(""), None);
}

#[test]
fn unsigned_parsing() {
    assert_eq!(parse_uint_exec("42", 100), Some(42));
    assert_eq!(parse_uint_exec("+5", 100), Some(5));
    assert_eq!(parse_uint_exec("101", 100), None);
    assert_eq!(parse_uint_exec(" 5", 100), None);
    assert_eq!(parse_uint_exec("", 100), None);
    assert_eq!(parse_uint_exec("+", 100), None);
    assert_eq!(parse_uint_exec("-0", 100), None);
    assert_eq!(parse_uint_exec("18446744073709551615", u64::MAX), Some(u64::MAX));
    assert_eq!(parse_uint_exec("18446744073709551616", u64::MAX), None);
}

#[test]
fn page_and_dpi_parameters() {
    assert_eq!(page_param(Some("3".to_string())), Some(3));
    assert_eq!(page_param(Some("x".to_string())), None);
    assert_eq!(page_param(Some("-1".to_string())), None);
    assert_eq!(page_param(None), None);
    assert_eq!(dpi_param(Some("10".to_string())), 36);
    assert_eq!(dpi_param(Some("1000".to_string())), 400);
    assert_eq!(dpi_param(Some("150".to_string())), 150);
    assert_eq!(dpi_param(Some("abc".to_string())), 300);
    assert_eq!(dpi_param(Some("5000000000".to_string())), 300);
    assert_eq!(dpi_param(None), 300);
}

#[test]
fn render_concurrency_setting() {
    assert_eq!(render_concurrency(Some(" 3 ".to_string()), Some(8)), 3);
    assert_eq!(render_concurrency(Some("0".to_string()), Some(8)), 1);
    assert_eq!(render_concurrency(None, Some(8)), 4);
    assert_eq!(render_concurrency(None, Some(1)), 2);
    assert_eq!(render_concurrency(None, None), 4);
    assert_eq!(render_concurrency(Some("x".to_string()), Some(3)), 3);
    assert_eq!(render_concurrency(Some("16".to_string()), Some(3)), 16);
}

#[test]
fn gateway_prefix_is_stripped_as_text() {
    assert_eq!(strip_prefix("/app/x/api/me", "/app/x"), "/api/me");
    assert_eq!(strip_prefix("/api/me", "/app/x"), "/api/me");
    assert_eq!(strip_prefix("/app/xy", "/app/x"), "y");
}

#[test]
fn api_paths() {
    assert!(is_api_path("/api/list"));
    assert!(is_api_path("/api/"));
    assert!(!is_api_path("/apix"));
    assert!(!is_api_path("/api"));
}

#[test]
fn static_file_names() {
    assert_eq!(static_rel("/"), "index.html");
    assert_eq!(static_rel(""), "index.html");
    assert_eq!(static_rel("//a/b.js"), "a/b.js");
    assert_eq!(static_rel("/assets/x.css"), "assets/x.css");
}

#[test]
fn mime_types_by_extension() {
    assert_eq!(mime_of("/ui/app.JS"), "application/javascript; charset=utf-8");
    assert_eq!(mime_of("/ui/index.html"), "text/html; charset=utf-8");
    assert_eq!(mime_of("a.mjs"), "application/javascript; charset=utf-8");
    assert_eq!(mime_of("a.map"), "application/json; charset=utf-8");
    assert_eq!(mime_of("f.woff2"), "font/woff2");
    assert_eq!(mime_of("i.JPEG"), "image/jpeg");
    assert_eq!(mime_of("x"), "application/octet-stream");
    assert_eq!(mime_of(".css"), "application/octet-stream");
    assert_eq!(mime_of("a.tar.gz"), "application/octet-stream");
    assert_eq!(mime_of("/a.b/c"), "application/octet-stream");
}

#[test]
fn command_line_arguments() {
    let a = |v: &[&str]| v.iter().map(|s| s.to_string()).collect::<Vec<String>>();
    assert_eq!(parse_args(&a(&["prog", "--port", "8080", "--host", "127.0.0.1"])), (8080, "127.0.0.1".to_string()));
    assert_eq!(parse_args(&a(&["prog", "--port", "abc"])), (0, "0.0.0.0".to_string()));
    assert_eq!(parse_args(&a(&["prog", "--port"])), (0, "0.0.0.0".to_string()));
    assert_eq!(parse_args(&a(&["prog", "--port", "70000"])), (0, "0.0.0.0".to_string()));
    assert_eq!(parse_args(&a(&["prog", "x", "--host", "h"])), (0, "h".to_string()));
    assert_eq!(parse_args(&a(&[])), (0, "0.0.0.0".to_string()));
}

#[test]
fn static_files_stay_inside_the_web_root() {
    assert_eq!(
        static_target("/opt/ui", "/assets/app.js", Some("/opt/ui/assets/app.js".to_string()), true),
        "/opt/ui/assets/app.js"
    );
    assert_eq!(
        static_target("/opt/ui", "/../../etc/passwd", Some("/etc/passwd".to_string()), true),
        "/opt/ui/index.html"
    );
    assert_eq!(static_target("/opt/ui", "/missing.js", None, false), "/opt/ui/index.html");
    assert_eq!(
        static_target("/opt/ui", "/assets", Some("/opt/ui/assets".to_string()), false),
        "/opt/ui/index.html"
    );
    assert_eq!(static_target("/opt/ui", "/", Some("/opt/ui/index.html".to_string()), true), "/opt/ui/index.html");
}

#[test]
fn meta_answer() {
    assert_eq!(
        meta_json("/r/技术/a\"b.pdf", 3, "524.0", "737.0"),
        "{\"path\":\"/r/技术/a\\\"b.pdf\",\"name\":\"a\\\"b.pdf\",\"pageCount\":3,\"width\":524.0,\"height\":737.0}"
    );
}

#[test]
fn progress_request_decisions() {
    assert!(matches!(progress_request("GET", ""), ProgressRequest::MissingPath));
    assert!(matches!(progress_request("DELETE", ""), ProgressRequest::MissingPath));
    assert!(matches!(progress_request("GET", "/a.pdf"), ProgressRequest::Read));
    assert!(matches!(progress_request("POST", "/a.pdf"), ProgressRequest::Save));
    assert!(matches!(progress_request("PUT", "/a.pdf"), ProgressRequest::NotAllowed));
    assert!(matches!(progress_request("get", "/a.pdf"), ProgressRequest::NotAllowed));
}
