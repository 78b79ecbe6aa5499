use metrics_exporter_influx::text::{
    chars_of, compare_text, push_int_text, push_nat_text, strip_prefix, TextOrder,
};

#[test]
fn texts_compare_by_code_point() {
    assert_eq!(compare_text("a", "b"), TextOrder::Less);
    assert_eq!(compare_text("ab", "a"), TextOrder::Greater);
    assert_eq!(compare_text("", ""), TextOrder::Equal);
    assert_eq!(compare_text("Z", "a"), TextOrder::Less);
    assert_eq!(compare_text("é", "z"), TextOrder::Greater);
}

#[test]
fn prefixes_are_stripped() {
    assert_eq!(strip_prefix("field:x", "field:"), Some("x".to_string()));
    assert_eq!(strip_prefix("fiel", "field:"), None);
    assert_eq!(strip_prefix("tag:ü", "tag:"), Some("ü".to_string()));
    assert_eq!(strip_prefix("x", ""), Some("x".to_string()));
}

#[test]
fn integers_render_in_decimal() {
    let mut s = String::new();
    push_nat_text(&mut s, 0);
    s.push(' ');
    push_nat_text(&mut s, u64::MAX);
    s.push(' ');
    push_int_text(&mut s, i64::MIN);
    s.push(' ');
    push_int_text(&mut s, 305);
    assert_eq!(s, format!("0 {} {} 305", u64::MAX, i64::MIN));
}

#[test]
fn chars_are_listed_in_order() {
    assert_eq!(chars_of("aé"), vec!['a', 'é']);
}
