use rustservice::library::refreshes_live_roots;
use rustservice::library::{
    breadcrumb, count_children, list_dir, list_target, listed_kind, resolve_dir,
    roots_as_entries, sort_entries_by_name, DirItem, Entry, ListTarget, RootInfo,
};

fn item(name: &str, is_dir: bool, is_file: bool, size: u64, mtime: u64, count: usize) -> DirItem {
    DirItem {
        name: name.to_string(),
        path: format!("/lib/{}", name),
        is_dir,
        is_file,
        size,
        mtime,
        count,
    }
}

fn sample() -> Vec<DirItem> {
    vec![
        item("b.pdf", false, true, 100, 1, 0),
        item("第10章", true, false, 0, 2, 7),
        item("notes.txt", false, true, 5, 3, 0),
        item(".hidden", true, false, 0, 4, 1),
        item("第2章", true, false, 0, 5, 3),
        item("A.PDF", false, true, 200, 6, 0),
        item("link.pdf", false, false, 0, 7, 0),
    ]
}

#[test]
fn list_dir_puts_folders_first_each_in_natural_order() {
    let out = list_dir(&sample());
    let names: Vec<&str> = out.iter().map(|e| e.name.as_str()).collect();
    assert_eq!(names, vec!["第2章", "第10章", "A.PDF", "b.pdf"]);
    let kinds: Vec<&str> = out.iter().map(|e| e.kind).collect();
    assert_eq!(kinds, vec!["folder", "folder", "file", "file"]);
}

#[test]
fn list_dir_entries_carry_the_item_facts() {
    let out = list_dir(&sample());
    assert_eq!(out[0].path, "/lib/第2章");
    assert_eq!((out[0].size, out[0].mtime, out[0].count), (0, 5, 3));
    assert_eq!((out[1].size, out[1].mtime, out[1].count), (0, 2, 7));
    assert_eq!((out[2].size, out[2].mtime, out[2].count), (200, 6, 0));
    assert_eq!(out[3].path, "/lib/b.pdf");
}

#[test]
fn list_dir_of_nothing_is_empty() {
    assert!(list_dir(&Vec::new()).is_empty());
}

#[test]
fn count_children_counts_listed_items_only() {
    assert_eq!(count_children(&sample()), 4);
    assert_eq!(count_children(&Vec::new()), 0);
}

#[test]
fn listed_kind_cases() {
    assert_eq!(listed_kind(".x", true, false), None);
    assert_eq!(listed_kind(".x.pdf", false, true), None);
    assert_eq!(listed_kind("d", true, false), Some(true));
    assert_eq!(listed_kind("a.pdf", false, true), Some(false));
    assert_eq!(listed_kind("a.pdf", false, false), None);
    assert_eq!(listed_kind("a.txt", false, true), None);
}

fn entry(name: &str, path: &str) -> Entry {
    Entry { name: name.to_string(), path: path.to_string(), kind: "file", size: 0, mtime: 0, count: 0 }
}

#[test]
fn sorting_by_name_is_stable() {
    let v = vec![entry("b", "/1"), entry("File", "/2"), entry("a", "/3"), entry("file", "/4")];
    let out = sort_entries_by_name(v);
    let paths: Vec<&str> = out.iter().map(|e| e.path.as_str()).collect();
    assert_eq!(paths, vec!["/3", "/1", "/2", "/4"]);
}

#[test]
fn sorted_names_are_in_order_and_a_permutation() {
    let names = ["卷20", "卷3", "Zeta", "alpha", "卷3", "10", "9"];
    let v: Vec<Entry> = names.iter().enumerate().map(|(i, n)| entry(n, &i.to_string())).collect();
    let out = sort_entries_by_name(v);
    for w in out.windows(2) {
        assert_ne!(
            rustservice::natural::natural_cmp(&w[0].name, &w[1].name),
            std::cmp::Ordering::Greater
        );
    }
    let mut a: Vec<String> = out.iter().map(|e| e.path.clone()).collect();
    a.sort();
    let mut b: Vec<String> = (0..names.len()).map(|i| i.to_string()).collect();
    b.sort();
    assert_eq!(a, b);
}

#[test]
fn roots_become_folder_entries() {
    let roots = vec![
        RootInfo { path: "/vol1/PDFLibrary".to_string(), mtime: 5, count: 3 },
        RootInfo { path: "/vol2/书库/".to_string(), mtime: 6, count: 0 },
    ];
    let out = roots_as_entries(&roots);
    assert_eq!(out.len(), 2);
    assert_eq!(out[0].name, "PDFLibrary");
    assert_eq!(out[0].path, "/vol1/PDFLibrary");
    assert_eq!(out[0].kind, "folder");
    assert_eq!((out[0].size, out[0].mtime, out[0].count), (0, 5, 3));
    assert_eq!(out[1].name, "书库");
}

#[test]
fn resolve_dir_cases() {
    let roots = vec!["/vol1/PDFLibrary".to_string()];
    assert_eq!(resolve_dir("", Some("/vol1/PDFLibrary".to_string()), true, &roots), None);
    assert_eq!(
        resolve_dir("/vol1/PDFLibrary/a/", Some("/vol1/PDFLibrary/a".to_string()), true, &roots),
        Some("/vol1/PDFLibrary/a".to_string())
    );
    assert_eq!(
        resolve_dir("/vol1/PDFLibrary/a.pdf", Some("/vol1/PDFLibrary/a.pdf".to_string()), false, &roots),
        None
    );
    assert_eq!(resolve_dir("/tmp", Some("/tmp".to_string()), true, &roots), None);
    assert_eq!(resolve_dir("/vol1/PDFLibrary/gone", None, true, &roots), None);
}

#[test]
fn breadcrumb_walks_down_from_the_root() {
    let roots = vec!["/vol1/PDFLibrary".to_string()];
    let b = breadcrumb("/vol1/PDFLibrary/技术/深入", &roots);
    let expect: Vec<(String, String)> = vec![
        ("PDFLibrary".to_string(), "/vol1/PDFLibrary".to_string()),
        ("技术".to_string(), "/vol1/PDFLibrary/技术".to_string()),
        ("深入".to_string(), "/vol1/PDFLibrary/技术/深入".to_string()),
    ];
    assert_eq!(b, expect);
    assert_eq!(breadcrumb("/vol1/PDFLibrary", &roots).len(), 1);
    assert!(breadcrumb("/elsewhere/x", &roots).is_empty());
}

#[test]
fn list_target_cases() {
    let one = vec!["/r".to_string()];
    let two = vec!["/r".to_string(), "/s".to_string()];
    assert!(matches!(list_target("", &one), ListTarget::OneRoot(ref r) if r == "/r"));
    assert!(matches!(list_target("", &two), ListTarget::AllRoots));
    assert!(matches!(list_target("", &Vec::new()), ListTarget::AllRoots));
    assert!(matches!(list_target("/r/x", &one), ListTarget::Named));
}

#[test]
fn the_last_crumb_is_the_directory_itself() {
    let roots = vec!["/vol1/PDFLibrary".to_string()];
    let p = "/vol1/PDFLibrary//技术/./深入/";
    let b = breadcrumb(p, &roots);
    assert_eq!(b.len(), 3);
    assert_eq!(b[1].0, "技术");
    assert_eq!(b[2].0, "深入");
    assert!(rustservice::pathsafe::same_path_exec(&b[2].1, p));
    assert!(rustservice::pathsafe::same_path_exec(&b[1].1, "/vol1/PDFLibrary/技术"));
}

#[test]
fn only_the_library_level_refreshes_granted_folders() {
    assert!(refreshes_live_roots(""));
    assert!(!refreshes_live_roots("/vol1/PDFLibrary"));
    assert!(!refreshes_live_roots(" "));
}
