use rustservice::trimapi::socket_path_fits;
use rustservice::trimapi::{
    json_string_array, query_accessible_folders, rpc_reply_json, rpc_request, uid_request_data,
    wants_query,
};

#[test]
fn string_arrays_are_read_by_key() {
    let j = "{\"code\":0,\"data\":{\"paths\":[\"/a\", \"/b\\\"c\",\"\"]}}";
    assert_eq!(json_string_array(j, "paths"), vec!["/a", "/b\"c", ""]);
    assert!(json_string_array(j, "other").is_empty());
    assert!(json_string_array("{\"paths\":[\"/a\"", "paths").is_empty());
    assert!(json_string_array("{\"paths\":3}", "paths").is_empty());
    assert!(json_string_array("{\"paths\":[]}", "paths").is_empty());
}

#[test]
fn uid_data_is_a_number_when_the_uid_is_one() {
    assert_eq!(uid_request_data("123"), "{\"uid\":123}");
    assert_eq!(uid_request_data("-5"), "{\"uid\":-5}");
    assert_eq!(uid_request_data("+7"), "{\"uid\":7}");
    assert_eq!(uid_request_data("-9223372036854775808"), "{\"uid\":-9223372036854775808}");
}

#[test]
fn uid_data_is_a_string_otherwise() {
    assert_eq!(uid_request_data("ab\"c"), "{\"uid\":\"abc\"}");
    assert_eq!(uid_request_data("99999999999999999999"), "{\"uid\":\"99999999999999999999\"}");
    assert_eq!(uid_request_data(""), "{\"uid\":\"\"}");
    assert_eq!(uid_request_data("+"), "{\"uid\":\"+\"}");
}

#[test]
fn rpc_request_text() {
    let body = "{\"reqId\":\"1\",\"req\":\"trim.x\",\"appName\":\"app\",\"data\":{}}";
    let expect = format!(
        "POST /api/v1/trimapp HTTP/1.1\r\nHost: localhost\r\nContent-Type: application/json\r\nAuthorization: Bearer tok\r\nContent-Length: {}\r\nConnection: close\r\n\r\n{}",
        body.len(),
        body
    );
    assert_eq!(rpc_request("trim.x", "app", "{}", "tok"), expect);
}

#[test]
fn content_length_counts_utf8_bytes() {
    let r = rpc_request("r", "应用", "{}", "t");
    let body = "{\"reqId\":\"1\",\"req\":\"r\",\"appName\":\"应用\",\"data\":{}}";
    assert!(r.contains(&format!("Content-Length: {}\r\n", body.len())));
    assert!(r.ends_with(body));
}

#[test]
fn replies_count_only_with_code_zero() {
    assert_eq!(
        rpc_reply_json("HTTP/1.1 200 OK\r\nA: b\r\n\r\n{\"code\":0,\"x\":1}"),
        Some("{\"code\":0,\"x\":1}".to_string())
    );
    assert_eq!(rpc_reply_json("{\"code\": 0}"), Some("{\"code\": 0}".to_string()));
    assert_eq!(rpc_reply_json("HTTP/1.1 200 OK\r\n\r\n{\"code\":10}"), None);
    assert_eq!(rpc_reply_json(""), None);
}

#[test]
fn folder_query_merges_shared_and_user_paths() {
    let shared = Some("{\"code\":0,\"data\":{\"paths\":[\"/s\",\"/a\"]}}".to_string());
    let user = Some("{\"code\":0,\"data\":{\"paths\":[\"/a\",\"\",\"/u\"]}}".to_string());
    let r = query_accessible_folders("  42 ", true, shared, user.clone());
    assert_eq!(r, Some(vec!["/s".to_string(), "/a".to_string(), "/u".to_string()]));
    let r = query_accessible_folders("42", true, None, user);
    assert_eq!(r, Some(vec!["/a".to_string(), "/u".to_string()]));
}

#[test]
fn folder_query_fails_when_it_cannot_be_answered() {
    let user = Some("{\"paths\":[\"/u\"]}".to_string());
    assert_eq!(query_accessible_folders("debug", true, None, user.clone()), None);
    assert_eq!(query_accessible_folders("  ", true, None, user.clone()), None);
    assert_eq!(query_accessible_folders("42", false, None, user), None);
    assert_eq!(query_accessible_folders("42", true, Some("{\"paths\":[\"/s\"]}".to_string()), None), None);
}

#[test]
fn queries_are_wanted_for_real_users() {
    assert!(wants_query("7"));
    assert!(!wants_query(" debug "));
    assert!(!wants_query(""));
    assert!(!wants_query(" \t"));
}

#[test]
fn socket_paths_must_leave_room_for_the_nul_byte() {
    assert!(socket_path_fits("/var/run/x.socket", 108));
    assert!(socket_path_fits(&"a".repeat(107), 108));
    assert!(!socket_path_fits(&"a".repeat(108), 108));
    assert!(!socket_path_fits(&"é".repeat(54), 108));
    assert!(socket_path_fits(&"é".repeat(53), 108));
}
