use rustservice::pathsafe::{
    file_name_of, is_hidden, is_pdf, path_starts_with_exec, rel_segments, resolve_in_roots,
    root_of, same_path_exec,
};

fn lib_roots() -> Vec<String> {
    vec!["/vol1/PDF".to_string(), "/vol1/PDFLibrary".to_string()]
}

#[test]
fn rel_segments_of_documented_example() {
    let roots = vec!["/vol1/PDFLibrary".to_string()];
    let segs = rel_segments("/vol1/PDFLibrary/技术/Rust.pdf", &roots);
    assert_eq!(segs, vec!["技术".to_string(), "Rust.pdf".to_string()]);
}

#[test]
fn rel_segments_normalise_separators_and_dots() {
    let segs = rel_segments("/vol1/PDFLibrary//技术/./Rust.pdf", &lib_roots());
    assert_eq!(segs, vec!["技术".to_string(), "Rust.pdf".to_string()]);
}

#[test]
fn rel_segments_outside_every_root_are_empty() {
    assert!(rel_segments("/etc/passwd", &lib_roots()).is_empty());
    assert!(rel_segments("/vol1/PDFLibrary", &lib_roots()).is_empty());
}

#[test]
fn root_of_matches_whole_components() {
    let r = root_of("/vol1/PDFLibrary/技术/Rust.pdf", &lib_roots());
    assert_eq!(r, Some("/vol1/PDFLibrary".to_string()));
    assert_eq!(root_of("/vol1/PDFX/a.pdf", &lib_roots()), None);
    assert_eq!(root_of("/vol1/PDF", &lib_roots()), Some("/vol1/PDF".to_string()));
}

#[test]
fn root_of_takes_the_first_matching_root() {
    let roots = vec!["/vol1".to_string(), "/vol1/PDFLibrary".to_string()];
    assert_eq!(root_of("/vol1/PDFLibrary/a.pdf", &roots), Some("/vol1".to_string()));
}

#[test]
fn file_name_of_cases() {
    assert_eq!(file_name_of("/vol1/PDFLibrary/技术/Rust.pdf"), "Rust.pdf");
    assert_eq!(file_name_of("/a/b/"), "b");
    assert_eq!(file_name_of("/"), "");
    assert_eq!(file_name_of("/a/b/.."), "");
    assert_eq!(file_name_of(""), "");
    assert_eq!(file_name_of("plain"), "plain");
}

#[test]
fn pdf_names_ignore_case() {
    assert!(is_pdf("Book.PDF"));
    assert!(is_pdf("x.Pdf"));
    assert!(is_pdf(".pdf"));
    assert!(!is_pdf("notes.txt"));
    assert!(!is_pdf("a.pdf.txt"));
    assert!(!is_pdf("pdf"));
}

#[test]
fn hidden_names_start_with_a_dot() {
    assert!(is_hidden(".git"));
    assert!(is_hidden(".pdfreader-cache"));
    assert!(!is_hidden("a.b"));
    assert!(!is_hidden(""));
}

#[test]
fn resolve_in_roots_keeps_only_contained_paths() {
    let roots = lib_roots();
    let ok = resolve_in_roots(
        "/vol1/PDFLibrary/../PDFLibrary/a.pdf",
        Some("/vol1/PDFLibrary/a.pdf".to_string()),
        &roots,
    );
    assert_eq!(ok, Some("/vol1/PDFLibrary/a.pdf".to_string()));
    let escaped = resolve_in_roots(
        "/vol1/PDFLibrary/../../etc/passwd",
        Some("/etc/passwd".to_string()),
        &roots,
    );
    assert_eq!(escaped, None);
    assert_eq!(resolve_in_roots("", Some("/vol1/PDF".to_string()), &roots), None);
    assert_eq!(resolve_in_roots("/vol1/PDF/missing.pdf", None, &roots), None);
    assert_eq!(
        resolve_in_roots("/vol1/PDF", Some("/vol1/PDF".to_string()), &roots),
        Some("/vol1/PDF".to_string())
    );
}

#[test]
fn path_prefix_is_by_component() {
    assert!(path_starts_with_exec("/a/b/c", "/a/b"));
    assert!(path_starts_with_exec("/a/b", "/a/b/"));
    assert!(!path_starts_with_exec("/a/bc", "/a/b"));
    assert!(!path_starts_with_exec("a/b", "/a"));
}

#[test]
fn same_path_ignores_repeated_and_trailing_separators() {
    assert!(same_path_exec("/a//b/", "/a/b"));
    assert!(same_path_exec("/a/./b", "/a/b"));
    assert!(!same_path_exec("/a/b", "/a/b/c"));
    assert!(!same_path_exec("/a/../b", "/b"));
}
