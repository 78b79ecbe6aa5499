//! Verified core of an exporter that writes `metrics` to InfluxDB in line
//! protocol: the exporter settings, text-keyed maps, the split of labels into
//! tags and fields, the rendering of metric points and the line structure of
//! the rendered text, and the bookkeeping of newly registered counters.
pub mod builder;
pub mod data;
pub mod labels;
pub mod line_breaks;
pub mod lines;
pub mod matcher;
pub mod recorder;
pub mod registry;
pub mod render;
pub mod smap;
pub mod text;

pub use builder::{BuildError, InfluxBuilder};
pub use data::{InfluxMetric, MetricData};
pub use labels::{parse_labels, MetricKey};
pub use recorder::{APIVersion, CounterRegistrations, ExporterConfig, HttpConfig};
pub use registry::AtomicStorage;
pub use render::{render_snapshot, Snapshot};
pub use smap::{Duplicate, StrMap};
