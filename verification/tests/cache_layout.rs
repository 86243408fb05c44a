use rustservice::pdfdoc::doc_meta_json;
use rustservice::pdfdoc::{
    cache_key, cache_root, clear_doc_cache, doc_idle_secs, image_cache_path, join_str,
    meta_cache_path, reaper_interval, DocCache, RENDER_DPI,
};

fn roots() -> Vec<String> {
    vec!["/vol1/PDFLibrary".to_string()]
}

#[test]
fn cache_key_is_the_safe_relative_path_and_signature() {
    assert_eq!(
        cache_key("/vol1/PDFLibrary/技术/Rust.pdf", &roots(), Some((100, 2048))),
        "技术_Rust.pdf.100-2048"
    );
    assert_eq!(cache_key("/vol1/PDFLibrary/a.pdf", &roots(), None), "a.pdf.0-0");
    assert_eq!(cache_key("/other/a:b*?.pdf", &roots(), None), "a_b__.pdf.0-0");
    assert_eq!(cache_key("/vol1/PDFLibrary//x/./y.pdf", &roots(), Some((1, 2))), "x_._y.pdf.1-2");
}

#[test]
fn a_replaced_book_gets_a_new_cache_key() {
    let p = "/vol1/PDFLibrary/技术/Rust.pdf";
    assert_ne!(cache_key(p, &roots(), Some((100, 2048))), cache_key(p, &roots(), Some((101, 2048))));
    assert_ne!(cache_key(p, &roots(), Some((1, 23))), cache_key(p, &roots(), Some((12, 3))));
}

#[test]
fn cache_root_is_inside_the_library_root() {
    assert_eq!(cache_root("/vol1/PDFLibrary/a.pdf", &roots(), "/data"), "/vol1/PDFLibrary/.pdfreader-cache");
    assert_eq!(cache_root("/tmp/a.pdf", &roots(), "/data"), "/data/cache");
}

#[test]
fn cached_page_and_meta_paths() {
    let p = "/vol1/PDFLibrary/技术/Rust.pdf";
    assert_eq!(
        image_cache_path(p, 3, RENDER_DPI, &roots(), "/data", Some((1, 2))),
        "/vol1/PDFLibrary/.pdfreader-cache/技术_Rust.pdf.1-2/300/page-3.jpg"
    );
    assert_eq!(
        meta_cache_path(p, &roots(), "/data", Some((1, 2))),
        "/vol1/PDFLibrary/.pdfreader-cache/技术_Rust.pdf.1-2/meta.json"
    );
    assert_eq!(
        meta_cache_path("/tmp/z.pdf", &roots(), "/data", None),
        "/data/cache/z.pdf.0-0/meta.json"
    );
}

#[test]
fn joining_paths() {
    assert_eq!(join_str("/a/", "b"), "/a/b");
    assert_eq!(join_str("/a", "b"), "/a/b");
    assert_eq!(join_str("/a", "/b"), "/b");
    assert_eq!(join_str("", "b"), "b");
}

#[test]
fn the_open_document_is_reused_and_expires() {
    let mut c: DocCache<u32> = DocCache::new();
    assert!(!c.touch("/a", 5));
    assert!(c.doc().is_none());
    c.store("/a".to_string(), 7, 5);
    assert!(c.touch("/a/", 9_000_000_000));
    assert_eq!(c.doc(), Some(&7));
    assert!(!c.touch("/b", 10));
    assert_eq!(c.slot.as_ref().unwrap().last_used, 9_000_000_000);
    assert_eq!(c.expire(9_000_000_000 + 120_000_000_000, 120), None);
    assert_eq!(c.expire(9_000_000_000 + 121_000_000_000, 120), Some("/a".to_string()));
    assert!(c.doc().is_none());
    assert_eq!(c.expire(u64::MAX, 0), None);
}

#[test]
fn clearing_drops_the_document() {
    let mut c: DocCache<String> = DocCache::new();
    c.store("/x".to_string(), "doc".to_string(), 0);
    clear_doc_cache(&mut c);
    assert!(c.doc().is_none());
}

#[test]
fn idle_settings() {
    assert_eq!(doc_idle_secs(Some(" 30 ".to_string())), 30);
    assert_eq!(doc_idle_secs(Some("x".to_string())), 120);
    assert_eq!(doc_idle_secs(None), 120);
    assert_eq!(reaper_interval(120), 60);
    assert_eq!(reaper_interval(3), 2);
    assert_eq!(reaper_interval(0), 2);
    assert_eq!(reaper_interval(5), 2);
    assert_eq!(reaper_interval(7), 3);
}

#[test]
fn document_facts_json() {
    assert_eq!(doc_meta_json(12, "595.0", "842.0"), "{\"pageCount\":12,\"width\":595.0,\"height\":842.0}");
}
