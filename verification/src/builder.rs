//! Configuration of the exporter, before anything is started.
use vstd::prelude::*;

use crate::data::{FieldValue, MetricData};
use crate::matcher::{bounds_for_name, override_added, BucketOverrides, Matcher, MatcherView};
use crate::recorder::{APIVersion, ExporterConfig, HttpConfig};
use crate::smap::{entries_insert, StrMap};

verus! {

/// `reqwest::Error`, carried opaquely.
#[verifier::external_type_specification]
#[verifier::external_body]
pub struct ExReqwestError(reqwest::Error);

/// Why building or installing the exporter failed.
#[derive(Debug)]
pub enum BuildError {
    /// An invalid URL was supplied.
    InvalidEndpoint(String),
    /// There was an error in HTTP communications.
    HttpError(reqwest::Error),
    /// The Tokio runtime for the exporter could not be created.
    FailedToCreateRuntime(String),
    /// Installing the recorder did not succeed.
    FailedToSetGlobalRecorder(String),
    /// Empty buckets or quantiles.
    EmptyBucketsOrQuantiles,
}

/// What `reqwest::Url::parse` makes of a text: the serialization of the parsed
/// URL, or the message of the parse error. It depends on the text alone.
pub uninterp spec fn url_parse(text: Seq<char>) -> Result<Seq<char>, Seq<char>>;

/// Parses an endpoint with `reqwest::Url::parse` (the `TryFrom<&str>` of
/// `Url`), giving the URL's serialization or the error's message; the
/// contract claims only that this is `url_parse` of the text.
#[verifier::external_body]
fn parse_endpoint(endpoint: &str) -> (r: Result<String, String>)
    ensures
        match r {
            Ok(u) => url_parse(endpoint@) == Ok::<Seq<char>, Seq<char>>(u@),
            Err(m) => url_parse(endpoint@) == Err::<Seq<char>, Seq<char>>(m@),
        },
{
    match reqwest::Url::parse(endpoint) {
        Ok(u) => Ok(u.to_string()),
        Err(e) => Err(e.to_string()),
    }
}

/// The quantiles reported by default: 0, 0.5, 0.9, 0.95, 0.99, 0.999 and 1,
/// as IEEE-754 double bit patterns.
pub open spec fn default_quantiles() -> Seq<u64> {
    seq![
        0x0u64,
        0x3fe0000000000000u64,
        0x3feccccccccccccdu64,
        0x3fee666666666666u64,
        0x3fefae147ae147aeu64,
        0x3feff7ced916872bu64,
        0x3ff0000000000000u64,
    ]
}

/// The default quantiles, as bit patterns.
pub fn default_quantiles_bits() -> (r: Vec<u64>)
    ensures
        r@ == default_quantiles(),
{
    let r: Vec<u64> = vec![
        0x0u64,
        0x3fe0000000000000u64,
        0x3feccccccccccccdu64,
        0x3fee666666666666u64,
        0x3fefae147ae147aeu64,
        0x3feff7ced916872bu64,
        0x3ff0000000000000u64,
    ];
    assert(r@ =~= default_quantiles());
    r
}

/// How a histogram's samples are summarised: counts per bucket bound, or
/// quantiles (bounds and quantiles as IEEE-754 bit patterns).
pub enum DistributionKind {
    Buckets(Vec<u64>),
    Quantiles(Vec<u64>),
}

/// The abstract content of a distribution choice.
pub enum DistributionView {
    Buckets(Seq<u64>),
    Quantiles(Seq<u64>),
}

impl View for DistributionKind {
    type V = DistributionView;

    open spec fn view(&self) -> DistributionView {
        match self {
            DistributionKind::Buckets(b) => DistributionView::Buckets(b@),
            DistributionKind::Quantiles(q) => DistributionView::Quantiles(q@),
        }
    }
}

/// The distribution of the histogram called `name`: the bounds of the first
/// override whose matcher selects it; else the global bucket bounds, if set;
/// else the quantiles.
pub open spec fn chosen_distribution(
    overrides: Seq<(MatcherView, Seq<u64>)>,
    buckets: Option<Seq<u64>>,
    quantiles: Seq<u64>,
    name: Seq<char>,
) -> DistributionView {
    match bounds_for_name(overrides, name) {
        Some(b) => DistributionView::Buckets(b),
        None => match buckets {
            Some(b) => DistributionView::Buckets(b),
            None => DistributionView::Quantiles(quantiles),
        },
    }
}

/// The bounds of optional global buckets.
pub open spec fn buckets_view(b: Option<Vec<u64>>) -> Option<Seq<u64>> {
    match b {
        Some(v) => Some(v@),
        None => None,
    }
}

/// The settings from which the recorder and exporter are built. Quantiles and
/// bucket bounds are floating-point numbers, held as their IEEE-754 bit patterns.
pub struct InfluxBuilder {
    pub exporter_config: ExporterConfig,
    pub duration: Option<core::time::Duration>,
    pub global_tags: Option<StrMap<String>>,
    pub global_fields: Option<StrMap<MetricData>>,
    pub quantiles: Vec<u64>,
    pub buckets: Option<Vec<u64>>,
    pub bucket_overrides: Option<BucketOverrides>,
}

/// The entries of an optional map, none when absent.
pub open spec fn tags_or_empty(m: Option<StrMap<String>>) -> Seq<(Seq<char>, Seq<char>)> {
    match m {
        Some(t) => t@,
        None => Seq::empty(),
    }
}

/// The entries of an optional map, none when absent.
pub open spec fn fields_or_empty(m: Option<StrMap<MetricData>>) -> Seq<(Seq<char>, FieldValue)> {
    match m {
        Some(f) => f@,
        None => Seq::empty(),
    }
}

/// The entries of optional overrides, none when absent.
pub open spec fn overrides_or_empty(o: Option<BucketOverrides>) -> Seq<(MatcherView, Seq<u64>)> {
    match o {
        Some(x) => x@,
        None => Seq::empty(),
    }
}

/// Copies a list of bit patterns.
fn copy_bits(values: &[u64]) -> (r: Vec<u64>)
    ensures
        r@ == values@,
{
    let mut r: Vec<u64> = Vec::new();
    let mut i: usize = 0;
    while i < values.len()
        invariant
            i <= values.len(),
            r@ == values@.take(i as int),
        decreases values.len() - i,
    {
        r.push(values[i]);
        assert(r@ =~= values@.take(i + 1));
        i = i + 1;
    }
    assert(values@.take(i as int) =~= values@);
    r
}

impl InfluxBuilder {
    /// Default settings: output to standard error, the default quantiles, no
    /// buckets, no global tags or fields, and no export interval set.
    pub fn new() -> (b: Self)
        ensures
            b.exporter_config is File,
            b.duration is None,
            b.global_tags is None,
            b.global_fields is None,
            b.quantiles@ == default_quantiles(),
            b.buckets is None,
            b.bucket_overrides is None,
    {
        let quantiles = default_quantiles_bits();
        InfluxBuilder {
            exporter_config: ExporterConfig::File,
            duration: None,
            global_tags: None,
            global_fields: None,
            quantiles,
            buckets: None,
            bucket_overrides: None,
        }
    }

    /// Replaces the quantiles; fails on an empty list.
    pub fn with_quantiles(self, quantiles: &[u64]) -> (r: Result<Self, BuildError>)
        ensures
            quantiles@.len() == 0 ==> r is Err && r->Err_0 is EmptyBucketsOrQuantiles,
            quantiles@.len() > 0 ==> r is Ok,
            r matches Ok(b) ==> {
                &&& b.quantiles@ == quantiles@
                &&& b.exporter_config == self.exporter_config
                &&& b.duration == self.duration
                &&& b.global_tags == self.global_tags
                &&& b.global_fields == self.global_fields
                &&& b.buckets == self.buckets
                &&& b.bucket_overrides == self.bucket_overrides
            },
    {
        if quantiles.len() == 0 {
            Err(BuildError::EmptyBucketsOrQuantiles)
        } else {
            let mut b = self;
            b.quantiles = copy_bits(quantiles);
            Ok(b)
        }
    }

    /// Sets the histogram bucket bounds; fails on an empty list.
    pub fn with_buckets(self, values: &[u64]) -> (r: Result<Self, BuildError>)
        ensures
            values@.len() == 0 ==> r is Err && r->Err_0 is EmptyBucketsOrQuantiles,
            values@.len() > 0 ==> r is Ok,
            r matches Ok(b) ==> {
                &&& b.buckets matches Some(v) && v@ == values@
                &&& b.exporter_config == self.exporter_config
                &&& b.duration == self.duration
                &&& b.global_tags == self.global_tags
                &&& b.global_fields == self.global_fields
                &&& b.quantiles == self.quantiles
                &&& b.bucket_overrides == self.bucket_overrides
            },
    {
        if values.len() == 0 {
            Err(BuildError::EmptyBucketsOrQuantiles)
        } else {
            let mut b = self;
            b.buckets = Some(copy_bits(values));
            Ok(b)
        }
    }

    /// Offers bucket bounds for the metrics that `matcher` selects (a matcher
    /// that already has bounds keeps them) and sets them as the default bounds
    /// too; fails on an empty list.
    pub fn add_buckets_for_metric(self, matcher: Matcher, values: &[u64]) -> (r: Result<
        Self,
        BuildError,
    >)
        ensures
            values@.len() == 0 ==> r is Err && r->Err_0 is EmptyBucketsOrQuantiles,
            values@.len() > 0 ==> r is Ok,
            r matches Ok(b) ==> {
                &&& b.bucket_overrides matches Some(o) && o@ == override_added(
                    overrides_or_empty(self.bucket_overrides),
                    matcher@,
                    values@,
                )
                &&& b.buckets matches Some(v) && v@ == values@
                &&& b.exporter_config == self.exporter_config
                &&& b.duration == self.duration
                &&& b.global_tags == self.global_tags
                &&& b.global_fields == self.global_fields
                &&& b.quantiles == self.quantiles
            },
    {
        if values.len() == 0 {
            Err(BuildError::EmptyBucketsOrQuantiles)
        } else {
            let mut b = self;
            let mut overrides = match b.bucket_overrides {
                Some(o) => o,
                None => BucketOverrides::new(),
            };
            overrides.add_if_absent(matcher, copy_bits(values));
            b.bucket_overrides = Some(overrides);
            b.buckets = Some(copy_bits(values));
            Ok(b)
        }
    }

    /// Adds (or replaces) a tag written with every metric.
    pub fn add_global_tag(self, key: String, value: String) -> (b: Self)
        ensures
            b.global_tags matches Some(t) && t@ == entries_insert(
                tags_or_empty(self.global_tags),
                key@,
                value@,
            ),
            b.exporter_config == self.exporter_config,
            b.duration == self.duration,
            b.global_fields == self.global_fields,
            b.quantiles == self.quantiles,
            b.buckets == self.buckets,
            b.bucket_overrides == self.bucket_overrides,
    {
        let mut b = self;
        let mut tags = match b.global_tags {
            Some(t) => t,
            None => StrMap::new(),
        };
        tags.insert(key, value);
        b.global_tags = Some(tags);
        b
    }

    /// Adds (or replaces) a field written with every metric.
    pub fn add_global_field(self, key: String, value: MetricData) -> (b: Self)
        ensures
            b.global_fields matches Some(f) && f@ == entries_insert(
                fields_or_empty(self.global_fields),
                key@,
                value@,
            ),
            b.exporter_config == self.exporter_config,
            b.duration == self.duration,
            b.global_tags == self.global_tags,
            b.quantiles == self.quantiles,
            b.buckets == self.buckets,
            b.bucket_overrides == self.bucket_overrides,
    {
        let mut b = self;
        let mut fields = match b.global_fields {
            Some(f) => f,
            None => StrMap::new(),
        };
        fields.insert(key, value);
        b.global_fields = Some(fields);
        b
    }

    /// Sets the interval between exports.
    pub fn with_duration(self, duration: core::time::Duration) -> (b: Self)
        ensures
            b.duration == Some(duration),
            b.exporter_config == self.exporter_config,
            b.global_tags == self.global_tags,
            b.global_fields == self.global_fields,
            b.quantiles == self.quantiles,
            b.buckets == self.buckets,
            b.bucket_overrides == self.bucket_overrides,
    {
        let mut b = self;
        b.duration = Some(duration);
        b
    }

    /// Writes to the InfluxDB API at `endpoint`, into `bucket`, with the given
    /// time precision (such as `ns`) and compression on; fails when the
    /// endpoint is not a valid URL.
    pub fn with_influx_api(
        self,
        endpoint: &str,
        bucket: String,
        username: Option<String>,
        password: Option<String>,
        org: Option<String>,
        precision: Option<String>,
    ) -> (r: Result<Self, BuildError>)
        ensures
            match url_parse(endpoint@) {
                Err(m) => r matches Err(BuildError::InvalidEndpoint(e)) && e@ == m,
                Ok(u) => r matches Ok(b) && {
                    &&& b.exporter_config matches ExporterConfig::Http(h) && {
                        &&& h.endpoint@ == u
                        &&& h.gzip
                        &&& h.username == username
                        &&& h.password == password
                        &&& h.api_version matches APIVersion::Influx { bucket: bk, precision: pr, org: o }
                        &&& bk == bucket
                        &&& o == org
                        &&& pr == precision
                    }
                    &&& b.duration == self.duration
                    &&& b.global_tags == self.global_tags
                    &&& b.global_fields == self.global_fields
                    &&& b.quantiles == self.quantiles
                    &&& b.buckets == self.buckets
                    &&& b.bucket_overrides == self.bucket_overrides
                },
            },
    {
        match parse_endpoint(endpoint) {
            Err(m) => Err(BuildError::InvalidEndpoint(m)),
            Ok(url) => {
                let mut b = self;
                b.exporter_config = ExporterConfig::Http(
                    HttpConfig {
                        api_version: APIVersion::Influx { bucket, precision, org },
                        gzip: true,
                        endpoint: url,
                        username,
                        password,
                    },
                );
                Ok(b)
            },
        }
    }

    /// Turns compression of HTTP requests on or off; other outputs are unchanged.
    pub fn with_gzip(self, gzip: bool) -> (b: Self)
        ensures
            match self.exporter_config {
                ExporterConfig::Http(h) => b.exporter_config matches ExporterConfig::Http(h2) && {
                    &&& h2.gzip == gzip
                    &&& h2.api_version == h.api_version
                    &&& h2.endpoint == h.endpoint
                    &&& h2.username == h.username
                    &&& h2.password == h.password
                },
                ExporterConfig::File => b.exporter_config is File,
            },
            b.duration == self.duration,
            b.global_tags == self.global_tags,
            b.global_fields == self.global_fields,
            b.quantiles == self.quantiles,
            b.buckets == self.buckets,
            b.bucket_overrides == self.bucket_overrides,
    {
        let mut b = self;
        b.exporter_config = match b.exporter_config {
            ExporterConfig::Http(h) => ExporterConfig::Http(HttpConfig { gzip, ..h }),
            ExporterConfig::File => ExporterConfig::File,
        };
        b
    }

    /// Writes to Grafana Cloud's Influx endpoint, with compression on; fails
    /// when the endpoint is not a valid URL.
    pub fn with_grafana_cloud_api(
        self,
        endpoint: &str,
        username: Option<String>,
        password: Option<String>,
    ) -> (r: Result<Self, BuildError>)
        ensures
            match url_parse(endpoint@) {
                Err(m) => r matches Err(BuildError::InvalidEndpoint(e)) && e@ == m,
                Ok(u) => r matches Ok(b) && {
                    &&& b.exporter_config matches ExporterConfig::Http(h) && {
                        &&& h.endpoint@ == u
                        &&& h.gzip
                        &&& h.username == username
                        &&& h.password == password
                        &&& h.api_version is GrafanaCloud
                    }
                    &&& b.duration == self.duration
                    &&& b.global_tags == self.global_tags
                    &&& b.global_fields == self.global_fields
                    &&& b.quantiles == self.quantiles
                    &&& b.buckets == self.buckets
                    &&& b.bucket_overrides == self.bucket_overrides
                },
            },
    {
        match parse_endpoint(endpoint) {
            Err(m) => Err(BuildError::InvalidEndpoint(m)),
            Ok(url) => {
                let mut b = self;
                b.exporter_config = ExporterConfig::Http(
                    HttpConfig {
                        api_version: APIVersion::GrafanaCloud,
                        gzip: true,
                        endpoint: url,
                        username,
                        password,
                    },
                );
                Ok(b)
            },
        }
    }

    /// Writes to a writer that the application supplies.
    pub fn with_file_output(self) -> (b: Self)
        ensures
            b.exporter_config is File,
            b.duration == self.duration,
            b.global_tags == self.global_tags,
            b.global_fields == self.global_fields,
            b.quantiles == self.quantiles,
            b.buckets == self.buckets,
            b.bucket_overrides == self.bucket_overrides,
    {
        let mut b = self;
        b.exporter_config = ExporterConfig::File;
        b
    }

    /// How the histogram called `name` is summarised.
    pub fn distribution_for(&self, name: &str) -> (r: DistributionKind)
        ensures
            r@ == chosen_distribution(
                overrides_or_empty(self.bucket_overrides),
                buckets_view(self.buckets),
                self.quantiles@,
                name@,
            ),
    {
        if let Some(o) = &self.bucket_overrides {
            if let Some(b) = o.bounds_for(name) {
                return DistributionKind::Buckets(copy_bits(b.as_slice()));
            }
        }
        match &self.buckets {
            Some(b) => DistributionKind::Buckets(copy_bits(b.as_slice())),
            None => DistributionKind::Quantiles(copy_bits(self.quantiles.as_slice())),
        }
    }

    /// The global tags and fields that the recorder starts from: the ones
    /// set, or none.
    pub fn recorder_globals(&self) -> (r: (StrMap<String>, StrMap<MetricData>))
        ensures
            r.0@ == tags_or_empty(self.global_tags),
            r.1@ == fields_or_empty(self.global_fields),
    {
        let tags = match &self.global_tags {
            Some(t) => t.duplicate(),
            None => StrMap::new(),
        };
        let fields = match &self.global_fields {
            Some(f) => f.duplicate(),
            None => StrMap::new(),
        };
        (tags, fields)
    }
}

} // verus!
