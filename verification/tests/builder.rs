use metrics_exporter_influx::matcher::Matcher;
use metrics_exporter_influx::builder::{default_quantiles_bits, DistributionKind};
use metrics_exporter_influx::recorder::{APIVersion, ExporterConfig};
use metrics_exporter_influx::{AtomicStorage, BuildError, InfluxBuilder, MetricData};
use std::time::Duration;

#[test]
fn new_builder_writes_to_a_file_with_default_quantiles() {
    let b = InfluxBuilder::new();
    assert!(matches!(b.exporter_config, ExporterConfig::File));
    assert_eq!(b.exporter_config.as_type_str(), "file");
    let expected: Vec<u64> =
        [0.0f64, 0.5, 0.9, 0.95, 0.99, 0.999, 1.0].iter().map(|q| q.to_bits()).collect();
    assert_eq!(b.quantiles, expected);
    assert_eq!(default_quantiles_bits(), expected);
    assert!(b.buckets.is_none());
    assert!(b.duration.is_none());
}

#[test]
fn empty_quantiles_or_buckets_are_refused() {
    assert!(matches!(
        InfluxBuilder::new().with_quantiles(&[]),
        Err(BuildError::EmptyBucketsOrQuantiles)
    ));
    assert!(matches!(
        InfluxBuilder::new().with_buckets(&[]),
        Err(BuildError::EmptyBucketsOrQuantiles)
    ));
    let bits = [1.0f64.to_bits(), 2.5f64.to_bits()];
    let b = InfluxBuilder::new().with_buckets(&bits).ok().unwrap();
    assert_eq!(b.buckets, Some(bits.to_vec()));
    let b = b.with_quantiles(&bits[..1]).ok().unwrap();
    assert_eq!(b.quantiles, vec![1.0f64.to_bits()]);
}

#[test]
fn grafana_endpoint_is_parsed_and_normalised() {
    let b = InfluxBuilder::new()
        .with_grafana_cloud_api("http://localhost:8086", Some("u".into()), Some("p".into()))
        .ok()
        .unwrap();
    match &b.exporter_config {
        ExporterConfig::Http(h) => {
            assert_eq!(h.endpoint, "http://localhost:8086/");
            assert!(h.gzip);
            assert!(matches!(h.api_version, APIVersion::GrafanaCloud));
            assert_eq!(h.username.as_deref(), Some("u"));
        }
        ExporterConfig::File => panic!("expected http output"),
    }
    assert_eq!(b.exporter_config.as_type_str(), "http");
    let b = b.with_gzip(false);
    match &b.exporter_config {
        ExporterConfig::Http(h) => assert!(!h.gzip),
        ExporterConfig::File => panic!("expected http output"),
    }
}

#[test]
fn influx_endpoint_sets_bucket_and_precision() {
    let b = InfluxBuilder::new()
        .with_influx_api(
            "https://influx.example.com/api",
            "db/rp".into(),
            None,
            None,
            None,
            Some("ns".to_string()),
        )
        .ok()
        .unwrap();
    match &b.exporter_config {
        ExporterConfig::Http(h) => match &h.api_version {
            APIVersion::Influx { bucket, precision, org } => {
                assert_eq!(bucket, "db/rp");
                assert_eq!(precision.as_deref(), Some("ns"));
                assert!(org.is_none());
            }
            APIVersion::GrafanaCloud => panic!("expected the influx api"),
        },
        ExporterConfig::File => panic!("expected http output"),
    }
}

#[test]
fn invalid_endpoint_is_refused_with_its_reason() {
    match InfluxBuilder::new().with_grafana_cloud_api("not a url", None, None) {
        Err(BuildError::InvalidEndpoint(m)) => assert_eq!(m, "relative URL without a base"),
        _ => panic!("expected an invalid endpoint"),
    }
}

#[test]
fn gzip_leaves_file_output_alone() {
    let b = InfluxBuilder::new().with_gzip(true);
    assert!(matches!(b.exporter_config, ExporterConfig::File));
}

#[test]
fn global_tags_and_fields_accumulate() {
    let b = InfluxBuilder::new()
        .add_global_tag("a".into(), "1".into())
        .add_global_tag("b".into(), "2".into())
        .add_global_tag("a".into(), "3".into())
        .add_global_field("f".into(), MetricData::Boolean(false))
        .with_duration(Duration::from_secs(60));
    let (tags, fields) = b.recorder_globals();
    assert_eq!(tags.len(), 2);
    assert_eq!(tags.get("a").map(|s| s.as_str()), Some("3"));
    assert!(matches!(fields.get("f"), Some(MetricData::Boolean(false))));
    assert_eq!(b.duration, Some(Duration::from_secs(60)));
    let (t, f) = InfluxBuilder::new().recorder_globals();
    assert_eq!((t.len(), f.len()), (0, 0));
}

#[test]
fn storage_starts_at_zero() {
    let s = AtomicStorage;
    assert_eq!(s.counter_start(), 0);
    assert_eq!(f64::from_bits(s.gauge_start()), 0.0);
}

#[test]
fn bucket_overrides_keep_the_first_bounds_per_matcher() {
    let first = [1.0f64.to_bits(), 5.0f64.to_bits()];
    let second = [2.0f64.to_bits()];
    assert!(matches!(
        InfluxBuilder::new().add_buckets_for_metric(Matcher::Full("m".into()), &[]),
        Err(BuildError::EmptyBucketsOrQuantiles)
    ));
    let b = InfluxBuilder::new()
        .add_buckets_for_metric(Matcher::Full("m".into()), &first)
        .ok()
        .unwrap()
        .add_buckets_for_metric(Matcher::Full("m".into()), &second)
        .ok()
        .unwrap()
        .add_buckets_for_metric(Matcher::Prefix("m".into()), &second)
        .ok()
        .unwrap();
    let o = b.bucket_overrides.as_ref().unwrap();
    assert_eq!(o.len(), 2);
    let (m0, v0) = o.entry(0);
    assert!(m0.same_as(&Matcher::Full("m".into())));
    assert_eq!(v0, &first.to_vec());
    let (m1, v1) = o.entry(1);
    assert!(m1.same_as(&Matcher::Prefix("m".into())));
    assert_eq!(v1, &second.to_vec());
    assert_eq!(b.buckets, Some(second.to_vec()));
}

#[test]
fn thread_name_names_the_output() {
    let b = InfluxBuilder::new();
    assert_eq!(b.exporter_config.thread_name(), "metrics-exporter-influx-file");
}

#[test]
fn matchers_select_by_whole_name_prefix_or_suffix() {
    assert!(Matcher::Full("http_latency".into()).matches("http_latency"));
    assert!(!Matcher::Full("http".into()).matches("http_latency"));
    assert!(Matcher::Prefix("http".into()).matches("http_latency"));
    assert!(!Matcher::Prefix("latency".into()).matches("http_latency"));
    assert!(Matcher::Suffix("latency".into()).matches("http_latency"));
    assert!(!Matcher::Suffix("http".into()).matches("http_latency"));
}

#[test]
fn histograms_use_an_override_then_global_buckets_then_quantiles() {
    let b = InfluxBuilder::new();
    match b.distribution_for("h") {
        DistributionKind::Quantiles(q) => assert_eq!(q, default_quantiles_bits()),
        DistributionKind::Buckets(_) => panic!("expected quantiles"),
    }
    let low = [1.0f64.to_bits()];
    let high = [9.0f64.to_bits()];
    let b = b
        .add_buckets_for_metric(Matcher::Suffix("_ms".into()), &low)
        .ok()
        .unwrap()
        .with_buckets(&high)
        .ok()
        .unwrap();
    match b.distribution_for("req_ms") {
        DistributionKind::Buckets(v) => assert_eq!(v, low.to_vec()),
        DistributionKind::Quantiles(_) => panic!("expected buckets"),
    }
    match b.distribution_for("size") {
        DistributionKind::Buckets(v) => assert_eq!(v, high.to_vec()),
        DistributionKind::Quantiles(_) => panic!("expected buckets"),
    }
}

#[test]
fn grafana_takes_a_bearer_header() {
    let b = InfluxBuilder::new()
        .with_grafana_cloud_api("http://localhost:8086", Some("user".into()), Some("password".into()))
        .ok()
        .unwrap();
    match &b.exporter_config {
        ExporterConfig::Http(h) => {
            assert_eq!(h.grafana_authorization().as_deref(), Some("Bearer user:password"))
        }
        ExporterConfig::File => panic!("expected http output"),
    }
    let b = InfluxBuilder::new()
        .with_grafana_cloud_api("http://localhost:8086", None, Some("password".into()))
        .ok()
        .unwrap();
    match &b.exporter_config {
        ExporterConfig::Http(h) => assert!(h.grafana_authorization().is_none()),
        ExporterConfig::File => panic!("expected http output"),
    }
}
