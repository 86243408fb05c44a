use rustservice::text::{is_whitespace, split_chars, to_ascii_lower, trim_string};

#[test]
fn trimming_follows_unicode_white_space() {
    assert_eq!(trim_string("\u{3000} a b \n"), "a b");
    assert_eq!(trim_string("\u{85}x\u{a0}"), "x");
    assert_eq!(trim_string("   "), "");
    assert!(is_whitespace('\u{2028}'));
    assert!(!is_whitespace('\u{200b}'));
}

#[test]
fn ascii_lowering_leaves_other_letters() {
    assert_eq!(to_ascii_lower('A'), 'a');
    assert_eq!(to_ascii_lower('Ä'), 'Ä');
    assert_eq!(to_ascii_lower('1'), '1');
}

#[test]
fn splitting_keeps_empty_pieces() {
    let v: Vec<char> = "a::b".chars().collect();
    let parts: Vec<String> = split_chars(&v, ':').into_iter().map(|p| p.into_iter().collect()).collect();
    assert_eq!(parts, vec!["a", "", "b"]);
}
