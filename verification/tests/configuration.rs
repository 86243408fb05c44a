use rustservice::config::{
    add_root, collect_roots, env_or, init_config, needs_refresh, progress_file,
    refresh_live_roots, root_candidates, safe_name, trim_end_slashes, webroot_candidates,
    with_request_uid, ConfigEnv, LiveCache, LiveRoots, RequestContext,
};

fn env() -> ConfigEnv {
    ConfigEnv {
        appname: None,
        gateway_prefix: None,
        data_dir: None,
        sock: None,
        log_file: None,
        require_auth: None,
        roots_file: None,
        default_data_dir: "/work/data".to_string(),
        default_sock: "/work/app.sock".to_string(),
        web_root: "/opt/ui".to_string(),
    }
}

#[test]
fn env_or_uses_non_empty_values() {
    assert_eq!(env_or(Some("x".to_string()), "d"), "x");
    assert_eq!(env_or(Some(String::new()), "d"), "d");
    assert_eq!(env_or(None, "d"), "d");
}

#[test]
fn trailing_slashes_are_dropped() {
    assert_eq!(trim_end_slashes("/app/x//"), "/app/x");
    assert_eq!(trim_end_slashes("///"), "");
    assert_eq!(trim_end_slashes("/a/b"), "/a/b");
}

#[test]
fn config_defaults() {
    let c = init_config(0, "0.0.0.0".to_string(), env());
    assert_eq!(c.appname, "pdfreader");
    assert_eq!(c.gateway_prefix, "/app/fnnas-pdfreader");
    assert_eq!(c.sock_path, "/work/app.sock");
    assert_eq!(c.data_dir, "/work/data");
    assert_eq!(c.web_root, "/opt/ui");
    assert_eq!(c.log_file, None);
    assert!(!c.require_auth);
    assert_eq!(c.roots_file, None);
    assert_eq!(c.port, 0);
    assert_eq!(c.host, "0.0.0.0");
}

#[test]
fn config_from_variables() {
    let mut e = env();
    e.appname = Some("reader".to_string());
    e.gateway_prefix = Some("/app/pdf/".to_string());
    e.data_dir = Some("/d".to_string());
    e.sock = Some("/s.sock".to_string());
    e.log_file = Some(String::new());
    e.require_auth = Some("1".to_string());
    e.roots_file = Some("/r.txt".to_string());
    let c = init_config(8080, "127.0.0.1".to_string(), e);
    assert_eq!(c.appname, "reader");
    assert_eq!(c.gateway_prefix, "/app/pdf");
    assert_eq!(c.data_dir, "/d");
    assert_eq!(c.sock_path, "/s.sock");
    assert_eq!(c.log_file, None);
    assert!(c.require_auth);
    assert_eq!(c.roots_file, Some("/r.txt".to_string()));
    assert_eq!(c.port, 8080);
}

#[test]
fn only_one_turns_authentication_on() {
    let mut e = env();
    e.require_auth = Some("true".to_string());
    assert!(!init_config(0, String::new(), e).require_auth);
}

#[test]
fn safe_names() {
    assert_eq!(safe_name("u-1_a/../b"), "u-1_ab");
    assert_eq!(safe_name("../"), "anon");
    assert_eq!(safe_name("中文"), "anon");
    assert_eq!(safe_name(""), "anon");
    assert_eq!(safe_name("1000"), "1000");
}

#[test]
fn progress_files_live_under_the_data_dir() {
    assert_eq!(progress_file("/data", "u1"), "/data/progress/u1.json");
    assert_eq!(progress_file("/data/", ".."), "/data/progress/anon.json");
}

#[test]
fn webroot_candidates_in_order() {
    let c = webroot_candidates(Some("/w".to_string()), "/opt/app/bin", "/home/me");
    assert_eq!(c, vec!["/w", "/opt/app/bin/ui", "/opt/app/bin/../ui", "/home/me/ui"]);
    let c = webroot_candidates(Some(String::new()), "/b", "/c");
    assert_eq!(c, vec!["/b/ui", "/b/../ui", "/c/ui"]);
}

#[test]
fn the_request_uid_is_restored_after_use() {
    let mut ctx = RequestContext::new();
    assert_eq!(ctx.request_uid(), "");
    let seen = with_request_uid(&mut ctx, "42", |c| c.request_uid());
    assert_eq!(seen, "42");
    assert_eq!(ctx.request_uid(), "");
    ctx.uid = "outer".to_string();
    let inner = with_request_uid(&mut ctx, "7", |c| format!("{}!", c.request_uid()));
    assert_eq!(inner, "7!");
    assert_eq!(ctx.request_uid(), "outer");
}

#[test]
fn refresh_is_for_real_users_and_not_too_often() {
    let mut cache = LiveCache::new();
    assert!(!needs_refresh(&cache, "", 0));
    assert!(!needs_refresh(&cache, "debug", 0));
    assert!(needs_refresh(&cache, "u", 0));
    refresh_live_roots(&mut cache, "u", 1_000_000_000, Some(vec!["/x".to_string()]), 1_000_000_000);
    assert!(!needs_refresh(&cache, "u", 2_500_000_000));
    assert!(needs_refresh(&cache, "u", 3_000_000_000));
    assert!(needs_refresh(&cache, "v", 1_500_000_000));
}

#[test]
fn a_failed_refresh_keeps_the_cache() {
    let mut cache = LiveCache::new();
    refresh_live_roots(&mut cache, "u", 0, Some(vec!["/x".to_string()]), 5);
    let c = cache.current.as_ref().unwrap();
    assert_eq!((c.key.as_str(), c.at_ns, c.paths.clone()), ("u", 5, vec!["/x".to_string()]));
    refresh_live_roots(&mut cache, "v", 10_000_000_000, None, 11);
    let c = cache.current.as_ref().unwrap();
    assert_eq!((c.key.as_str(), c.at_ns), ("u", 5));
    refresh_live_roots(&mut cache, "debug", 10_000_000_000, Some(vec![]), 12);
    assert_eq!(cache.current.as_ref().unwrap().key, "u");
    refresh_live_roots(&mut cache, "u", 1_000_000_000, Some(vec![]), 13);
    assert_eq!(cache.current.as_ref().unwrap().at_ns, 5);
}

#[test]
fn root_candidates_split_and_trim() {
    let values = vec![
        Some(" /a : /b ".to_string()),
        None,
        Some(String::new()),
        Some("/c".to_string()),
    ];
    let c = root_candidates(&values, Some("/d\r\n\n /e \n".to_string()));
    assert_eq!(c, vec!["/a", "/b", "/c", "/d", "/e"]);
    assert!(root_candidates(&Vec::new(), None).is_empty());
}

#[test]
fn add_root_skips_the_same_path() {
    let mut seen = vec!["/a".to_string()];
    add_root(&mut seen, "/a/".to_string());
    add_root(&mut seen, "/b".to_string());
    assert_eq!(seen, vec!["/a", "/b"]);
}

#[test]
fn collect_roots_merges_granted_folders_of_the_user() {
    let resolved = vec!["/a".to_string(), "/a/".to_string(), "/b".to_string()];
    let cache = LiveCache {
        current: Some(LiveRoots {
            key: "u".to_string(),
            at_ns: 0,
            paths: vec!["/c".to_string(), "/a".to_string()],
        }),
    };
    assert_eq!(collect_roots(&resolved, &cache, "u"), vec!["/a", "/b", "/c"]);
    assert_eq!(collect_roots(&resolved, &cache, ""), vec!["/a", "/b"]);
    assert_eq!(collect_roots(&resolved, &cache, "v"), vec!["/a", "/b"]);
    let roots = collect_roots(&resolved, &cache, "u");
    for i in 0..roots.len() {
        for j in (i + 1)..roots.len() {
            assert!(!rustservice::pathsafe::same_path_exec(&roots[i], &roots[j]));
        }
    }
}
