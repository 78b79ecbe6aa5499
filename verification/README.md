# metrics-exporter-influx

An exporter for the `metrics` crate that writes metrics to InfluxDB (or any
endpoint that accepts the Influx line protocol, such as Grafana Cloud).

## Layout

- `src/` is the verified library (Verus):
  - `text.rs`: character-level text utilities (lexicographic order, prefixes,
    decimal integers);
  - `smap.rs`: `StrMap`, a text-keyed map kept sorted by key, with its map laws;
  - `data.rs`: field values and one metric point rendered as a line of line protocol;
  - `labels.rs`: metric keys, and the split of labels into tags (`tag:` or no
    prefix) and fields (`field:`);
  - `lines.rs`: sorting lines and joining them with line breaks;
  - `render.rs`: rendering a snapshot of all metrics, with the laws on
    timestamps, values and order;
  - `recorder.rs`: exporter settings and the bookkeeping of newly registered counters;
  - `matcher.rs`: per-metric bucket overrides;
  - `builder.rs`: `InfluxBuilder` and its settings;
  - `registry.rs`: the starting values of metric storage.
- `app/` is the runtime side: the `metrics::Recorder`, the atomic registry
  storage, and builder entry points that take floats, writers or generic endpoints.
- `tests/` runs the library on concrete values.
