use rustservice::natural::{comes_after, natural_cmp};
use std::cmp::Ordering;

#[test]
fn chapter_two_before_chapter_ten() {
    assert_eq!(natural_cmp("第2章", "第10章"), Ordering::Less);
    assert_eq!(natural_cmp("第10章", "第2章"), Ordering::Greater);
}

#[test]
fn digit_runs_compare_by_value() {
    assert_eq!(natural_cmp("a10", "a9"), Ordering::Greater);
    assert_eq!(natural_cmp("a01", "a1"), Ordering::Equal);
    assert_eq!(natural_cmp("v2.10", "v2.9"), Ordering::Greater);
}

#[test]
fn letters_compare_without_case() {
    assert_eq!(natural_cmp("abc", "ABD"), Ordering::Less);
    assert_eq!(natural_cmp("File", "file"), Ordering::Equal);
    assert_eq!(natural_cmp("Ärger", "ärger"), Ordering::Equal);
}

#[test]
fn shorter_prefix_comes_first() {
    assert_eq!(natural_cmp("", ""), Ordering::Equal);
    assert_eq!(natural_cmp("", "a"), Ordering::Less);
    assert_eq!(natural_cmp("ab", "a"), Ordering::Greater);
}

#[test]
fn comes_after_is_strictly_greater() {
    assert!(comes_after("b", "a"));
    assert!(!comes_after("a", "b"));
    assert!(!comes_after("A", "a"));
}

#[test]
fn natural_order_is_transitive_on_chapters() {
    let (a, b, c) = ("第2章", "第10章", "第11章");
    assert_eq!(natural_cmp(a, b), Ordering::Less);
    assert_eq!(natural_cmp(b, c), Ordering::Less);
    assert_eq!(natural_cmp(a, c), Ordering::Less);
}

#[test]
fn natural_order_is_antisymmetric_on_examples() {
    for (x, y) in [("x1", "x01"), ("B", "a"), ("卷3", "卷20")] {
        assert_eq!(natural_cmp(x, y), natural_cmp(y, x).reverse());
    }
}

#[test]
fn digit_runs_too_long_for_u64_count_as_zero() {
    assert_eq!(natural_cmp("a99999999999999999999", "a0"), Ordering::Equal);
    assert_eq!(natural_cmp("a99999999999999999999", "a1"), Ordering::Less);
}

#[test]
fn ascii_case_and_leading_zeros_are_ignored() {
    assert_eq!(natural_cmp("Ch01", "ch1"), Ordering::Equal);
    assert_eq!(natural_cmp("README.PDF", "readme.pdf"), Ordering::Equal);
    assert_eq!(natural_cmp("[a]", "[A]"), Ordering::Equal);
    assert_eq!(natural_cmp("B", "a"), Ordering::Greater);
}

#[test]
fn swapping_reverses_and_every_name_is_level_with_itself() {
    for (x, y) in [("第2章", "第10章"), ("a", "B"), ("x9", "x10"), ("same", "same")] {
        assert_eq!(natural_cmp(x, x), Ordering::Equal);
        assert_eq!(natural_cmp(x, y), natural_cmp(y, x).reverse());
    }
}

#[test]
fn leading_zeros_inside_and_after_a_common_prefix() {
    assert_eq!(natural_cmp("007", "7"), Ordering::Equal);
    assert_eq!(natural_cmp("0010b", "10a"), Ordering::Greater);
    assert_eq!(natural_cmp("卷03", "卷3"), Ordering::Equal);
    assert_eq!(natural_cmp("卷03", "卷12"), Ordering::Less);
}
