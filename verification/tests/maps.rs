use metrics_exporter_influx::labels::parse_labels;
use metrics_exporter_influx::recorder::CounterRegistrations;
use metrics_exporter_influx::{MetricData, MetricKey, StrMap};

fn labels(pairs: &[(&str, &str)]) -> Vec<(String, String)> {
    pairs.iter().map(|(k, v)| (k.to_string(), v.to_string())).collect()
}

#[test]
fn insert_then_get_gives_the_value() {
    let mut m: StrMap<String> = StrMap::new();
    m.insert("b".to_string(), "1".to_string());
    m.insert("a".to_string(), "2".to_string());
    m.insert("b".to_string(), "3".to_string());
    assert_eq!(m.len(), 2);
    assert_eq!(m.get("a").map(|s| s.as_str()), Some("2"));
    assert_eq!(m.get("b").map(|s| s.as_str()), Some("3"));
    assert!(m.get("c").is_none());
    let (k0, _) = m.entry(0);
    let (k1, _) = m.entry(1);
    assert_eq!((k0.as_str(), k1.as_str()), ("a", "b"));
}

#[test]
fn field_tag_and_plain_labels_are_placed() {
    let (tags, fields) = parse_labels(
        StrMap::new(),
        StrMap::new(),
        &labels(&[("field:f", "x"), ("tag:t", "y"), ("plain", "z"), ("tag:", "empty")]),
    );
    assert_eq!(tags.len(), 3);
    assert_eq!(tags.get("t").map(|s| s.as_str()), Some("y"));
    assert_eq!(tags.get("plain").map(|s| s.as_str()), Some("z"));
    assert_eq!(tags.get("").map(|s| s.as_str()), Some("empty"));
    assert!(tags.get("field:f").is_none());
    assert_eq!(fields.len(), 1);
    assert!(matches!(fields.get("f"), Some(MetricData::String(s)) if s == "x"));
}

#[test]
fn later_labels_win() {
    let mut globals = StrMap::new();
    globals.insert("env".to_string(), "prod".to_string());
    let (tags, _) = parse_labels(
        globals,
        StrMap::new(),
        &labels(&[("env", "dev"), ("tag:env", "test")]),
    );
    assert_eq!(tags.get("env").map(|s| s.as_str()), Some("test"));
}

fn key(name: &str) -> MetricKey {
    MetricKey { name: name.to_string(), labels: labels(&[("a", "1")]) }
}

#[test]
fn counter_registrations_are_noted_once_and_drained() {
    let mut r = CounterRegistrations::new();
    r.note_counter(&key("c"), false);
    r.note_counter(&key("c"), false);
    r.note_counter(&key("d"), true);
    r.note_counter(&key("e"), false);
    let drained = r.drain();
    let names: Vec<&str> = drained.iter().map(|k| k.name.as_str()).collect();
    assert_eq!(names, vec!["c", "e"]);
    assert!(r.drain().is_empty());
}

#[test]
fn keys_with_other_labels_are_other_metrics() {
    let a = key("c");
    let mut b = key("c");
    assert!(a.same_as(&b));
    b.labels.push(("x".to_string(), "y".to_string()));
    assert!(!a.same_as(&b));
}

fn key_with(name: &str, pairs: &[(&str, &str)]) -> MetricKey {
    MetricKey { name: name.to_string(), labels: labels(pairs) }
}

#[test]
fn label_order_does_not_change_the_metric() {
    let a = key_with("m", &[("x", "1"), ("y", "2")]);
    let b = key_with("m", &[("y", "2"), ("x", "1")]);
    assert!(a.same_as(&b));
    let a = key_with("m", &[("x", "1"), ("y", "2"), ("z", "3")]);
    let b = key_with("m", &[("z", "3"), ("x", "1"), ("y", "2")]);
    assert!(a.same_as(&b));
    let c = key_with("m", &[("z", "3"), ("x", "1"), ("y", "9")]);
    assert!(!a.same_as(&c));
    // with three labels, labels of one key keep their order, as in `metrics::Key`
    let d = key_with("m", &[("a", "1"), ("a", "2"), ("b", "0")]);
    let e = key_with("m", &[("a", "2"), ("a", "1"), ("b", "0")]);
    assert!(!d.same_as(&e));
    let f = key_with("m", &[("a", "1"), ("a", "2")]);
    let g = key_with("m", &[("a", "2"), ("a", "1")]);
    assert!(f.same_as(&g));
}

#[test]
fn a_counter_is_noted_once_whatever_its_label_order() {
    let mut r = CounterRegistrations::new();
    r.note_counter(&key_with("c", &[("x", "1"), ("y", "2")]), false);
    r.note_counter(&key_with("c", &[("y", "2"), ("x", "1")]), false);
    assert_eq!(r.drain().len(), 1);
}
