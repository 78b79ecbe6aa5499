use metrics_exporter_influx::render::{reading_of_clock, render_at, render_now};
use metrics_exporter_influx::data::{Number, Token};
use metrics_exporter_influx::{
    render_snapshot, InfluxMetric, MetricData, MetricKey, Snapshot, StrMap,
};

fn token(text: &str) -> Token {
    Token::new(text.to_string()).unwrap()
}

const NOW: i64 = 1_700_000_000_000_000_000;

fn key(name: &str, labels: &[(&str, &str)]) -> MetricKey {
    MetricKey {
        name: name.to_string(),
        labels: labels.iter().map(|(k, v)| (k.to_string(), v.to_string())).collect(),
    }
}

fn counter_key() -> MetricKey {
    key(
        "counter",
        &[("tag1", "value1"), ("tag2", "value2"), ("tag:tag3", "value3"), ("field:field1", "0")],
    )
}

fn histogram_fields() -> Vec<(Token, Number)> {
    vec![
        (token("sum"), Number::Float(token("4950"))),
        (token("count"), Number::Count(100)),
        (token("min"), Number::Float(token("0"))),
        (token("p50"), Number::Float(token("49.00390593892515"))),
        (token("p90"), Number::Float(token("89.00566416071958"))),
        (token("p95"), Number::Float(token("94.00049142147152"))),
        (token("p99"), Number::Float(token("97.99338832106014"))),
        (token("p999"), Number::Float(token("97.99338832106014"))),
        (token("max"), Number::Float(token("99"))),
    ]
}

fn snapshot() -> Snapshot {
    Snapshot {
        gauges: vec![(key("gauge", &[]), token("-1000"))],
        registrations: vec![counter_key()],
        counters: vec![(counter_key(), 2)],
        histograms: vec![(key("histogram", &[]), Some(histogram_fields()))],
    }
}

#[test]
fn renders_points_of_counters_gauges_and_histograms() {
    let (count, text) = render_snapshot(&StrMap::new(), &StrMap::new(), &snapshot(), NOW);
    let expected = [
        "counter,tag1=value1,tag2=value2,tag3=value3 field1=\"0\",value=0i 1699999999999000000",
        "counter,tag1=value1,tag2=value2,tag3=value3 field1=\"0\",value=2i 1700000000000000000",
        "gauge value=-1000 1700000000000000000",
        "histogram count=100i,max=99,min=0,p50=49.00390593892515,p90=89.00566416071958,p95=94.00049142147152,p99=97.99338832106014,p999=97.99338832106014,sum=4950 1700000000000000000",
    ];
    assert_eq!(count, 4);
    assert_eq!(text, expected.join("\n"));
}

#[test]
fn global_tags_and_fields_go_on_every_point() {
    let mut tags = StrMap::new();
    tags.insert("tag0".to_string(), "value0".to_string());
    let mut fields = StrMap::new();
    fields.insert("field0".to_string(), MetricData::Boolean(false));
    let (count, text) = render_snapshot(&tags, &fields, &snapshot(), NOW);
    let lines: Vec<&str> = text.lines().collect();
    assert_eq!(count, 4);
    assert_eq!(lines.len(), 4);
    assert!(lines[0].starts_with(
        "counter,tag0=value0,tag1=value1,tag2=value2,tag3=value3 field0=false,field1=\"0\",value=0i"
    ));
    assert!(lines[1].starts_with(
        "counter,tag0=value0,tag1=value1,tag2=value2,tag3=value3 field0=false,field1=\"0\",value=2i"
    ));
    assert!(lines[2].starts_with("gauge,tag0=value0 field0=false,value=-1000"));
    assert!(lines[3].starts_with(
        "histogram,tag0=value0 count=100i,field0=false,max=99,min=0,p50=49.00390593892515"
    ));
}

#[test]
fn repeated_points_of_one_key_step_back_one_millisecond() {
    let k = key("requests", &[("host", "a")]);
    let s = Snapshot {
        gauges: vec![(k.duplicate(), token("1.5"))],
        registrations: vec![k.duplicate()],
        counters: vec![(k.duplicate(), 7)],
        histograms: vec![],
    };
    let (count, text) = render_snapshot(&StrMap::new(), &StrMap::new(), &s, NOW);
    assert_eq!(count, 3);
    assert_eq!(
        text,
        [
            "requests,host=a value=0i 1699999999999000000",
            "requests,host=a value=1.5 1699999999998000000",
            "requests,host=a value=7i 1700000000000000000",
        ]
        .join("\n")
    );
}

#[test]
fn histogram_without_data_writes_no_line() {
    let s = Snapshot {
        gauges: vec![],
        registrations: vec![],
        counters: vec![],
        histograms: vec![(key("latency", &[]), None)],
    };
    let (count, text) = render_snapshot(&StrMap::new(), &StrMap::new(), &s, NOW);
    assert_eq!(count, 0);
    assert_eq!(text, "");
}

#[test]
fn label_values_override_global_ones() {
    let mut tags = StrMap::new();
    tags.insert("region".to_string(), "eu".to_string());
    let mut fields = StrMap::new();
    fields.insert("note".to_string(), MetricData::String("global".to_string()));
    let s = Snapshot {
        gauges: vec![],
        registrations: vec![],
        counters: vec![(key("c", &[("region", "us"), ("field:note", "local")]), 1)],
        histograms: vec![],
    };
    let (_, text) = render_snapshot(&tags, &fields, &s, 5);
    assert_eq!(text, "c,region=us note=\"local\",value=1i 5");
}

#[test]
fn negative_timestamps_and_integers_render_with_sign() {
    let mut fields = StrMap::new();
    fields.insert("delta".to_string(), MetricData::Integer(-42));
    let m = InfluxMetric {
        name: "m".to_string(),
        timestamp: -7,
        tags: StrMap::new(),
        fields,
    };
    assert_eq!(m.to_line(), "m delta=-42i -7");
}

#[test]
fn single_metric_line_sorts_tags_and_fields() {
    let mut tags = StrMap::new();
    tags.insert("b".to_string(), "2".to_string());
    tags.insert("a".to_string(), "1".to_string());
    let mut fields = StrMap::new();
    fields.insert("y".to_string(), MetricData::Boolean(true));
    fields.insert("x".to_string(), MetricData::Unsigned(0));
    let m = InfluxMetric { name: "m".to_string(), timestamp: 0, tags, fields };
    assert_eq!(m.to_line(), "m,a=1,b=2 x=0i,y=true 0");
}

#[test]
fn rendering_now_stamps_points_with_the_clock() {
    let s = Snapshot {
        gauges: vec![(key("g", &[]), token("1"))],
        registrations: vec![],
        counters: vec![],
        histograms: vec![],
    };
    let (count, text) = render_now(&StrMap::new(), &StrMap::new(), &s).unwrap();
    assert_eq!(count, 1);
    let ts: i64 = text.strip_prefix("g value=1 ").unwrap().parse().unwrap();
    // after 2020-01-01
    assert!(ts > 1_577_836_800_000_000_000);
}

#[test]
fn points_of_one_metric_group_whatever_the_label_order() {
    let s = Snapshot {
        gauges: vec![(key("m", &[("a", "1"), ("b", "2")]), token("5"))],
        registrations: vec![],
        counters: vec![(key("m", &[("b", "2"), ("a", "1")]), 3)],
        histograms: vec![],
    };
    let (_, text) = render_snapshot(&StrMap::new(), &StrMap::new(), &s, 10_000_000);
    assert_eq!(text, "m,a=1,b=2 value=3i 10000000\nm,a=1,b=2 value=5 9000000");
}

#[test]
fn rendering_at_a_reading_out_of_range_gives_nothing() {
    let s = Snapshot {
        gauges: vec![(key("g", &[]), token("1"))],
        registrations: vec![],
        counters: vec![],
        histograms: vec![],
    };
    assert!(render_at(&StrMap::new(), &StrMap::new(), &s, None).is_none());
    assert!(render_at(&StrMap::new(), &StrMap::new(), &s, Some(i64::MIN)).is_none());
    let (n, text) = render_at(&StrMap::new(), &StrMap::new(), &s, Some(-5)).unwrap();
    assert_eq!((n, text.as_str()), (1, "g value=1 -5"));
}

#[test]
fn clock_readings_before_the_epoch_are_negative() {
    assert_eq!(reading_of_clock(Ok(7)), Some(7));
    assert_eq!(reading_of_clock(Err(7)), Some(-7));
    assert_eq!(reading_of_clock(Err(1u128 << 63)), Some(i64::MIN));
    assert_eq!(reading_of_clock(Err((1u128 << 63) + 1)), None);
    assert_eq!(reading_of_clock(Ok(1u128 << 63)), None);
}

#[test]
fn rendered_text_has_one_line_per_point_and_no_trailing_break() {
    let (count, text) = render_snapshot(&StrMap::new(), &StrMap::new(), &snapshot(), NOW);
    assert_eq!(text.lines().count(), count);
    assert!(!text.ends_with('\n'));
    assert!(text.lines().all(|l| !l.is_empty()));
    let empty = Snapshot { gauges: vec![], registrations: vec![], counters: vec![], histograms: vec![] };
    let (count, text) = render_snapshot(&StrMap::new(), &StrMap::new(), &empty, NOW);
    assert_eq!(count, 0);
    assert_eq!(text, "");
}

#[test]
fn text_with_a_line_break_is_no_token() {
    assert!(Token::new("1.5\n".to_string()).is_none());
    assert_eq!(token("1.5").as_str(), "1.5");
}

#[test]
fn rendering_again_drops_only_the_registration_points() {
    let first = snapshot();
    let (count, text) = render_snapshot(&StrMap::new(), &StrMap::new(), &first, NOW);
    let again = Snapshot {
        gauges: vec![(key("gauge", &[]), token("-1000"))],
        registrations: vec![],
        counters: vec![(counter_key(), 2)],
        histograms: vec![(key("histogram", &[]), Some(histogram_fields()))],
    };
    let (count2, text2) = render_snapshot(&StrMap::new(), &StrMap::new(), &again, NOW + 5);
    assert_eq!(count2 + 1, count);
    let strip = |l: &str| l.rsplit_once(' ').unwrap().0.to_string();
    let lines: Vec<String> = text.lines().map(strip).filter(|l| !l.ends_with("value=0i")).collect();
    let lines2: Vec<String> = text2.lines().map(strip).collect();
    assert_eq!(lines, lines2);
}
