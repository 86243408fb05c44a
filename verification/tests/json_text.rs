use rustservice::jsontext::{number_text, plain_number_text};
use rustservice::jsontext::{esc, jstr, serialize_objects, split_top_objects, unesc};

#[test]
fn esc_escapes_quotes_backslashes_and_controls() {
    assert_eq!(esc("a\"b\\c\nd\re\tf\u{1}g"), "a\\\"b\\\\c\\nd\\re\\tf\\u0001g");
    assert_eq!(esc("\u{1f}"), "\\u001f");
    assert_eq!(esc("技术 /x"), "技术 /x");
    assert_eq!(esc(""), "");
}

#[test]
fn unesc_reads_escapes() {
    assert_eq!(unesc("a\\u0041\\/\\q"), "aA/q");
    assert_eq!(unesc("x\\n\\r\\t\\\"\\\\"), "x\n\r\t\"\\");
    assert_eq!(unesc("\\u6280"), "技");
}

#[test]
fn unesc_edge_cases() {
    assert_eq!(unesc("abc\\"), "abc");
    assert_eq!(unesc("\\uZZZZrest"), "rest");
    assert_eq!(unesc("\\u41"), "A");
    assert_eq!(unesc("\\u+041"), "A");
    assert_eq!(unesc("\\ud800x"), "x");
    assert_eq!(unesc("\\u"), "");
}

#[test]
fn unesc_undoes_esc() {
    for s in ["", "plain", "q\"uote", "back\\slash", "ctl\u{0}\u{7}\u{1b}", "lines\n\r\t", "技术/Rust.pdf"] {
        assert_eq!(unesc(&esc(s)), s);
    }
}

#[test]
fn split_top_objects_reads_each_entry() {
    let s = "{\"a\":{\"page\":1},\"b\\\"c\":{\"x\":{\"y\":\"}\"}}}";
    let out = split_top_objects(s);
    assert_eq!(
        out,
        vec![
            ("a".to_string(), "{\"page\":1}".to_string()),
            ("b\"c".to_string(), "{\"x\":{\"y\":\"}\"}}".to_string()),
        ]
    );
}

#[test]
fn split_top_objects_of_broken_text() {
    assert!(split_top_objects("").is_empty());
    assert!(split_top_objects("no braces").is_empty());
    assert!(split_top_objects("{}").is_empty());
    assert_eq!(
        split_top_objects("{\"a\":{\"p\":1},\"b\":{\"p\":"),
        vec![("a".to_string(), "{\"p\":1}".to_string())]
    );
}

#[test]
fn serialize_objects_writes_a_map() {
    let pairs = vec![
        ("a".to_string(), "{}".to_string()),
        ("b\"q".to_string(), "{\"p\":1}".to_string()),
    ];
    assert_eq!(serialize_objects(&pairs), "{\"a\":{},\"b\\\"q\":{\"p\":1}}");
    assert_eq!(serialize_objects(&Vec::new()), "{}");
}

#[test]
fn split_reads_back_what_serialize_wrote() {
    let pairs = vec![
        ("/vol1/技术/Rust.pdf".to_string(), "{\"page\":3,\"name\":\"x\\\"}y\"}".to_string()),
        ("k\\2".to_string(), "{\"a\":{\"b\":{}}}".to_string()),
        ("".to_string(), "{}".to_string()),
    ];
    assert_eq!(split_top_objects(&serialize_objects(&pairs)), pairs);
}

#[test]
fn jstr_reads_string_fields() {
    assert_eq!(jstr("{\"name\":\"x\\\"y\"}", "name"), Some("x\"y".to_string()));
    assert_eq!(jstr("{\"name\":  \"v\"}", "name"), Some("v".to_string()));
    assert_eq!(jstr("{\"page\":3}", "name"), None);
    assert_eq!(jstr("{\"name\":3}", "name"), None);
    assert_eq!(jstr("{\"name\":\"open", "name"), Some("open".to_string()));
}

#[test]
fn number_text_reads_the_number_characters() {
    let s = "{\"page\": 12,\"frac\":-1.5e+3x,\"name\":\"p\"}";
    assert_eq!(number_text(s, "page"), Some("12".to_string()));
    assert_eq!(number_text(s, "frac"), Some("-1.5e+3".to_string()));
    assert_eq!(number_text(s, "name"), Some(String::new()));
    assert_eq!(number_text(s, "missing"), None);
    assert_eq!(plain_number_text(s, "page"), Some(String::new()));
    assert_eq!(plain_number_text("{\"width\":595.5e2}", "width"), Some("595.5".to_string()));
}
