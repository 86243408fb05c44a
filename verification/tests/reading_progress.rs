use rustservice::jsontext::{jstr, serialize_objects, split_top_objects};
use rustservice::progress::progress_json;
use rustservice::progress::{is_nonzero_bits, merge_progress, recent, Progress, ProgressMap};

fn rec(page: usize, frac: f64, name: &str, scale: f64, total: usize, percent: f64, at: u64) -> Progress {
    Progress {
        page,
        frac_bits: frac.to_bits(),
        name: name.to_string(),
        scale_bits: scale.to_bits(),
        total_pages: total,
        percent_bits: percent.to_bits(),
        updated_at: at,
    }
}

#[test]
fn merge_takes_given_fields_and_keeps_the_rest() {
    let cur = rec(5, 0.25, "Rust", 1.5, 300, 12.5, 10);
    let inc = rec(0, 0.75, "", 0.0, 0, 0.0, 99);
    let m = merge_progress(&cur, &inc, 1234);
    assert_eq!(m.page, 5);
    assert_eq!(f64::from_bits(m.frac_bits), 0.75);
    assert_eq!(m.name, "Rust");
    assert_eq!(f64::from_bits(m.scale_bits), 1.5);
    assert_eq!(m.total_pages, 300);
    assert_eq!(f64::from_bits(m.percent_bits), 12.5);
    assert_eq!(m.updated_at, 1234);
}

#[test]
fn merge_overwrites_with_nonzero_values() {
    let cur = rec(5, 0.25, "Rust", 1.5, 300, 12.5, 10);
    let inc = rec(7, 0.0, "Zig", 2.0, 310, 50.0, 0);
    let m = merge_progress(&cur, &inc, 20);
    assert_eq!(m.page, 7);
    assert_eq!(f64::from_bits(m.frac_bits), 0.25);
    assert_eq!(m.name, "Zig");
    assert_eq!(f64::from_bits(m.scale_bits), 2.0);
    assert_eq!(m.total_pages, 310);
    assert_eq!(f64::from_bits(m.percent_bits), 50.0);
}

#[test]
fn merge_page_zero_is_taken_only_when_nothing_is_stored() {
    let empty = Progress::empty();
    let m = merge_progress(&empty, &rec(0, 0.0, "", 0.0, 0, 0.0, 0), 1);
    assert_eq!(m.page, 0);
    let m = merge_progress(&empty, &rec(3, 0.0, "", 0.0, 0, 0.0, 0), 1);
    assert_eq!(m.page, 3);
}

#[test]
fn negative_zero_counts_as_zero() {
    assert!(!is_nonzero_bits(0.0f64.to_bits()));
    assert!(!is_nonzero_bits((-0.0f64).to_bits()));
    assert!(is_nonzero_bits(1.0f64.to_bits()));
    assert!(is_nonzero_bits(f64::NAN.to_bits()));
    let cur = rec(1, 0.0, "", 3.0, 0, 0.0, 0);
    let m = merge_progress(&cur, &rec(1, 0.0, "", -0.0, 0, 0.0, 0), 5);
    assert_eq!(f64::from_bits(m.scale_bits), 3.0);
}

#[test]
fn default_progress_is_empty() {
    let p = Progress::default();
    assert_eq!(p.page, 0);
    assert_eq!(p.name, "");
    assert_eq!(p.frac_bits, 0);
    assert_eq!(p.updated_at, 0);
}

#[test]
fn a_saved_record_reads_back() {
    let mut m = ProgressMap::new();
    let saved = m.save_one("/lib/b.pdf", &rec(4, 0.5, "B", 1.0, 10, 40.0, 0), 100);
    assert_eq!(saved.updated_at, 100);
    let got = m.get_one("/lib/b.pdf").expect("stored");
    assert_eq!(got.page, 4);
    assert_eq!(got.name, "B");
    assert_eq!(got.updated_at, 100);
    assert!(m.get_one("/lib/a.pdf").is_none());
}

#[test]
fn saving_merges_with_what_is_stored() {
    let mut m = ProgressMap::new();
    m.save_one("/k", &rec(4, 0.5, "B", 1.0, 10, 40.0, 0), 100);
    let second = m.save_one("/k", &rec(0, 0.25, "", 0.0, 0, 0.0, 0), 200);
    assert_eq!(second.page, 4);
    assert_eq!(second.name, "B");
    assert_eq!(f64::from_bits(second.frac_bits), 0.25);
    assert_eq!(second.updated_at, 200);
    assert_eq!(m.len(), 1);
}

#[test]
fn entries_come_in_key_order() {
    let mut m = ProgressMap::new();
    for (k, t) in [("/lib/c.pdf", 1u64), ("/lib/a.pdf", 2), ("/lib/b.pdf", 3), ("/lib/a.pdf", 4)] {
        m.save_one(k, &Progress::empty(), t);
    }
    let keys: Vec<String> = m.entries().into_iter().map(|(k, _)| k).collect();
    assert_eq!(keys, vec!["/lib/a.pdf", "/lib/b.pdf", "/lib/c.pdf"]);
    assert_eq!(m.len(), 3);
    let mut m2 = ProgressMap::new();
    m2.insert("b".to_string(), rec(1, 0.0, "", 0.0, 0, 0.0, 0));
    m2.insert("B".to_string(), rec(2, 0.0, "", 0.0, 0, 0.0, 0));
    m2.insert("技".to_string(), rec(3, 0.0, "", 0.0, 0, 0.0, 0));
    let keys: Vec<String> = m2.entries().into_iter().map(|(k, _)| k).collect();
    assert_eq!(keys, vec!["B", "b", "技"]);
}

#[test]
fn other_books_are_untouched_by_a_save() {
    let mut m = ProgressMap::new();
    m.save_one("/x", &rec(9, 0.0, "X", 0.0, 0, 0.0, 0), 1);
    m.save_one("/y", &rec(2, 0.0, "Y", 0.0, 0, 0.0, 0), 2);
    let x = m.get_one("/x").unwrap();
    assert_eq!((x.page, x.name.as_str(), x.updated_at), (9, "X", 1));
}

#[test]
fn recent_is_newest_first_and_limited() {
    let entries = vec![
        ("/a".to_string(), rec(1, 0.0, "", 0.0, 0, 0.0, 5)),
        ("/b".to_string(), rec(1, 0.0, "", 0.0, 0, 0.0, 9)),
        ("/c".to_string(), rec(1, 0.0, "", 0.0, 0, 0.0, 5)),
        ("/d".to_string(), rec(1, 0.0, "", 0.0, 0, 0.0, 7)),
    ];
    let all: Vec<String> = recent(entries, 12).into_iter().map(|(k, _)| k).collect();
    assert_eq!(all, vec!["/b", "/d", "/a", "/c"]);
    let entries = vec![
        ("/a".to_string(), rec(1, 0.0, "", 0.0, 0, 0.0, 5)),
        ("/b".to_string(), rec(1, 0.0, "", 0.0, 0, 0.0, 9)),
        ("/c".to_string(), rec(1, 0.0, "", 0.0, 0, 0.0, 5)),
    ];
    let two: Vec<String> = recent(entries, 2).into_iter().map(|(k, _)| k).collect();
    assert_eq!(two, vec!["/b", "/a"]);
    assert!(recent(Vec::new(), 12).is_empty());
    let one = vec![("/a".to_string(), Progress::empty())];
    assert!(recent(one, 0).is_empty());
}

#[test]
fn duplicate_copies_every_field() {
    let p = rec(3, 0.5, "N", 1.25, 30, 10.0, 77);
    let q = p.duplicate();
    assert_eq!((q.page, q.frac_bits, q.name.as_str(), q.scale_bits), (3, p.frac_bits, "N", p.scale_bits));
    assert_eq!((q.total_pages, q.percent_bits, q.updated_at), (30, p.percent_bits, 77));
}

#[test]
fn progress_json_writes_every_field_in_order() {
    let p = rec(3, 0.5, "R\"s", 1.0, 40, 7.5, 99);
    assert_eq!(
        progress_json(&p, "0.5000", "1.0000", "7.50"),
        "{\"page\":3,\"frac\":0.5000,\"name\":\"R\\\"s\",\"scale\":1.0000,\"totalPages\":40,\"percent\":7.50,\"updatedAt\":99}"
    );
}

#[test]
fn written_records_read_back_from_the_store_text() {
    let names = ["plain", "q\"uote", "{brace}", "back\\slash\n", "技术"];
    let pairs: Vec<(String, String)> = names
        .iter()
        .enumerate()
        .map(|(i, n)| {
            let p = rec(i + 1, 0.5, n, 1.0, 10, 5.0, 100 + i as u64);
            (format!("/lib/{}\"{{}}.pdf", n), progress_json(&p, "0.5000", "-1.0000", "5.00"))
        })
        .collect();
    let text = serialize_objects(&pairs);
    assert_eq!(split_top_objects(&text), pairs);
    for (i, (_, body)) in pairs.iter().enumerate() {
        assert_eq!(jstr(body, "name"), Some(names[i].to_string()));
    }
}

#[test]
fn a_save_without_a_position_keeps_the_stored_one() {
    let mut m = ProgressMap::new();
    m.save_one("/k", &rec(4, 0.5, "B", 1.0, 10, 40.0, 0), 100);
    let second = m.save_one("/k", &rec(5, -0.0, "", 0.0, 0, 0.0, 0), 200);
    assert_eq!(f64::from_bits(second.frac_bits), 0.5);
    assert_eq!(second.page, 5);
    let third = m.save_one("/k", &rec(0, 0.75, "", 0.0, 0, 0.0, 0), 300);
    assert_eq!(f64::from_bits(third.frac_bits), 0.75);
    assert_eq!(third.page, 5);
}
