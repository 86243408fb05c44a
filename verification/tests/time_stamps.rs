use rustservice::stamp::{now_stamp, stamp_at};

#[test]
fn stamps_are_eight_hours_east_of_utc() {
    assert_eq!(stamp_at(0), "1970-01-01 08:00:00");
    assert_eq!(stamp_at(1700000000), "2023-11-15 06:13:20");
}

#[test]
fn leap_years_follow_the_gregorian_rules() {
    assert_eq!(stamp_at(951753600), "2000-02-29 00:00:00");
    assert_eq!(stamp_at(1709136000), "2024-02-29 00:00:00");
    assert_eq!(stamp_at(4107513600), "2100-03-01 00:00:00");
    assert_eq!(stamp_at(4102444799), "2100-01-01 07:59:59");
}

#[test]
fn now_stamp_has_the_stamp_shape() {
    let s: Vec<char> = now_stamp().chars().collect();
    assert_eq!(s.len(), 19);
    assert_eq!((s[4], s[7], s[10], s[13], s[16]), ('-', '-', ' ', ':', ':'));
    assert!(s.iter().enumerate().all(|(i, c)| [4, 7, 10, 13, 16].contains(&i) || c.is_ascii_digit()));
    assert!(now_stamp().as_str() >= "2024-01-01 00:00:00");
}
