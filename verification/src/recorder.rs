//! Exporter settings and the bookkeeping of newly registered counters.
use vstd::prelude::*;

use crate::labels::{lemma_same_key_equivalence, same_key, KeyView, MetricKey};

verus! {

/// The HTTP API that metrics are written to.
pub enum APIVersion {
    /// The InfluxDB write API, with its bucket, time precision and organisation.
    Influx { bucket: String, precision: Option<String>, org: Option<String> },
    /// Grafana Cloud's Influx-compatible push endpoint.
    GrafanaCloud,
}

/// Settings for writing metrics over HTTP.
pub struct HttpConfig {
    pub api_version: APIVersion,
    pub gzip: bool,
    /// The endpoint URL, as its normalised serialization.
    pub endpoint: String,
    pub username: Option<String>,
    pub password: Option<String>,
}

/// Where metrics are written: an HTTP endpoint, or a writer that the
/// application supplies (standard error unless it is replaced).
pub enum ExporterConfig {
    Http(HttpConfig),
    File,
}

/// The short name of a kind of output.
pub open spec fn output_kind_name(c: &ExporterConfig) -> Seq<char> {
    match c {
        ExporterConfig::Http(_) => seq!['h', 't', 't', 'p'],
        ExporterConfig::File => seq!['f', 'i', 'l', 'e'],
    }
}

/// The `Authorization` header for Grafana Cloud: `Bearer user:password`
/// when both are set; no header otherwise, and none for the Influx API.
pub open spec fn grafana_authorization(c: &HttpConfig) -> Option<Seq<char>> {
    match (c.api_version, c.username, c.password) {
        (APIVersion::GrafanaCloud, Some(u), Some(p)) => Some(
            seq!['B', 'e', 'a', 'r', 'e', 'r', ' '] + u@ + seq![':'] + p@,
        ),
        _ => None,
    }
}

impl HttpConfig {
    /// The bearer `Authorization` header that Grafana Cloud takes.
    pub fn grafana_authorization(&self) -> (r: Option<String>)
        ensures
            match r {
                Some(h) => grafana_authorization(self) == Some(h@),
                None => grafana_authorization(self) is None,
            },
    {
        match (&self.api_version, &self.username, &self.password) {
            (APIVersion::GrafanaCloud, Some(u), Some(p)) => {
                let mut h = "Bearer ".to_owned();
                proof {
                    reveal_strlit("Bearer ");
                }
                h.append(u.as_str());
                h.push(':');
                h.append(p.as_str());
                Some(h)
            },
            _ => None,
        }
    }
}

impl ExporterConfig {
    /// A short name of the kind of output: `http` or `file`.
    pub fn as_type_str(&self) -> (r: &'static str)
        ensures
            r@ == output_kind_name(self),
    {
        match self {
            ExporterConfig::Http(_) => {
                proof {
                    reveal_strlit("http");
                }
                "http"
            },
            ExporterConfig::File => {
                proof {
                    reveal_strlit("file");
                }
                "file"
            },
        }
    }
}

impl ExporterConfig {
    /// The name of the thread that runs the exporter when no Tokio runtime is
    /// available: `metrics-exporter-influx-` followed by the kind of output.
    pub fn thread_name(&self) -> (r: String)
        ensures
            r@ == seq![
                'm', 'e', 't', 'r', 'i', 'c', 's', '-', 'e', 'x', 'p', 'o', 'r', 't', 'e', 'r',
                '-', 'i', 'n', 'f', 'l', 'u', 'x', '-',
            ] + output_kind_name(self),
    {
        let mut name = "metrics-exporter-influx-".to_owned();
        proof {
            reveal_strlit("metrics-exporter-influx-");
        }
        name.append(self.as_type_str());
        name
    }
}

/// Whether a key of the same metric as `k` is among `s`.
pub open spec fn has_key(s: Seq<KeyView>, k: KeyView) -> bool {
    exists|i: int| 0 <= i < s.len() && same_key(#[trigger] s[i], k)
}

/// No two keys of `s` identify the same metric.
pub open spec fn keys_distinct(s: Seq<KeyView>) -> bool {
    forall|i: int, j: int| 0 <= i < j < s.len() ==> !same_key(#[trigger] s[i], #[trigger] s[j])
}

/// The noted keys after a counter with key `k` is registered: unchanged when
/// the registry already knew the counter or a key of the same metric is
/// noted, else `k` added.
pub open spec fn noted(s: Seq<KeyView>, k: KeyView, known: bool) -> Seq<KeyView> {
    if known || has_key(s, k) {
        s
    } else {
        s.push(k)
    }
}

/// Registering the same counter again, under any order of its labels, notes
/// nothing new.
pub proof fn law_registration_noted_once(s: Seq<KeyView>, k: KeyView, k2: KeyView, known: bool)
    requires
        same_key(k, k2),
    ensures
        noted(noted(s, k, false), k2, known) == noted(s, k, false),
        has_key(noted(s, k, false), k2),
{
    lemma_same_key_equivalence(k, k2, k2);
    if !has_key(s, k) {
        assert(same_key(s.push(k)[s.len() as int], k2));
    } else {
        let i = choose|i: int| 0 <= i < s.len() && same_key(s[i], k);
        lemma_same_key_equivalence(s[i], k, k2);
        assert(same_key(s[i], k2));
    }
}

/// Counter keys registered since the last render, each at most once, in
/// order of registration.
pub struct CounterRegistrations {
    keys: Vec<MetricKey>,
}

impl View for CounterRegistrations {
    type V = Seq<KeyView>;

    closed spec fn view(&self) -> Seq<KeyView> {
        self.keys@.map_values(|k: MetricKey| k@)
    }
}

impl CounterRegistrations {
    /// No key occurs twice.
    #[verifier::type_invariant]
    closed spec fn unique(&self) -> bool {
        keys_distinct(self@)
    }

    /// No registrations.
    pub fn new() -> (r: Self)
        ensures
            r@ == Seq::<KeyView>::empty(),
    {
        let r = CounterRegistrations { keys: Vec::new() };
        assert(r@ =~= Seq::<KeyView>::empty());
        r
    }

    /// Notes that a counter with `key` was registered. A counter that the
    /// registry already held (`known`) or a key already noted is not noted again.
    pub fn note_counter(&mut self, key: &MetricKey, known: bool)
        ensures
            keys_distinct(final(self)@),
            final(self)@ == noted(old(self)@, key@, known),
    {
        proof {
            use_type_invariant(&*self);
        }
        if known {
            return;
        }
        let mut i: usize = 0;
        while i < self.keys.len()
            invariant
                i <= self.keys.len(),
                self@ == old(self)@,
                keys_distinct(self@),
                forall|j: int| 0 <= j < i ==> !same_key(#[trigger] self@[j], key@),
            decreases self.keys.len() - i,
        {
            if self.keys[i].same_as(key) {
                assert(same_key(self@[i as int], key@));
                return;
            }
            i = i + 1;
        }
        assert(!has_key(self@, key@));
        let ghost before = self@;
        let mut keys: Vec<MetricKey> = Vec::new();
        std::mem::swap(&mut keys, &mut self.keys);
        keys.push(key.duplicate());
        assert(keys@.map_values(|k: MetricKey| k@) =~= before.push(key@));
        self.keys = keys;
        assert(self@ =~= before.push(key@));
    }

    /// Takes all noted keys, in order, leaving none.
    pub fn drain(&mut self) -> (r: Vec<MetricKey>)
        ensures
            final(self)@ == Seq::<KeyView>::empty(),
            r@.map_values(|k: MetricKey| k@) == old(self)@,
    {
        let mut r: Vec<MetricKey> = Vec::new();
        std::mem::swap(&mut r, &mut self.keys);
        assert(self@ =~= Seq::<KeyView>::empty());
        r
    }
}

} // verus!
