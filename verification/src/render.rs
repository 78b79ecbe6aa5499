//! Turning a snapshot of all metrics into line-protocol text.
use vstd::prelude::*;

use crate::data::{fields_text, line_text, tags_text, FieldValue, InfluxMetric, MetricData, MetricView, Number, Token};
use crate::labels::{
    labels_applied, labels_set_field, labels_set_tag, law_globals_kept_unless_labelled,
    lemma_labels_applied_sorted, lemma_same_key_equivalence, parse_labels, same_key, KeyView,
    MetricKey,
};
use crate::line_breaks::{
    fields_unbroken, keys_unbroken, law_rendered_text_splits_into_its_lines, lemma_snapshot_unbroken,
    rendered_as_lines, tags_unbroken,
};
use crate::lines::{join_lines, join_texts, lemma_sorted_lines, sort_texts, sorted_lines, texts_view};
use crate::smap::{
    entries_insert, entries_lookup, keys_sorted, lemma_entries_insert_other, lemma_entries_insert_same,
    lemma_entries_insert_sorted, Duplicate, StrMap,
};
use crate::text::{chars_of, int_text, lex_le};
use vstd::relations::sorted_by;

verus! {

/// The field and value of one entry of a distribution.
pub open spec fn dist_view(d: Seq<(Token, Number)>) -> Seq<(Seq<char>, FieldValue)> {
    d.map_values(|e: (Token, Number)| (e.0@, e.1@))
}

/// The current values of all metrics.
pub struct Snapshot {
    /// Every gauge with the decimal text of its current (floating-point) value.
    pub gauges: Vec<(MetricKey, Token)>,
    /// Counters registered since the previous render, each reported once at zero.
    pub registrations: Vec<MetricKey>,
    /// Every counter with its current count.
    pub counters: Vec<(MetricKey, u64)>,
    /// Every histogram with the fields of its distribution (such as sum, count,
    /// buckets or quantiles), or `None` when it has nothing to report.
    pub histograms: Vec<(MetricKey, Option<Vec<(Token, Number)>>)>,
}

/// The abstract content of a snapshot.
pub struct SnapshotView {
    pub gauges: Seq<(KeyView, FieldValue)>,
    pub registrations: Seq<KeyView>,
    pub counters: Seq<(KeyView, int)>,
    pub histograms: Seq<(KeyView, Option<Seq<(Seq<char>, FieldValue)>>)>,
}

impl View for Snapshot {
    type V = SnapshotView;

    open spec fn view(&self) -> SnapshotView {
        SnapshotView {
            gauges: self.gauges@.map_values(|g: (MetricKey, Token)| (g.0@, FieldValue::Float(g.1@))),
            registrations: self.registrations@.map_values(|k: MetricKey| k@),
            counters: self.counters@.map_values(|c: (MetricKey, u64)| (c.0@, c.1 as int)),
            histograms: self.histograms@.map_values(
                |h: (MetricKey, Option<Vec<(Token, Number)>>)|
                    (
                        h.0@,
                        match h.1 {
                            Some(d) => Some(dist_view(d@)),
                            None => None,
                        },
                    ),
            ),
        }
    }
}

/// The single-value points: gauges, then registrations at integer zero, then
/// counters, in that order.
pub open spec fn point_entries(s: SnapshotView) -> Seq<(KeyView, FieldValue)> {
    s.gauges + s.registrations.map_values(|k: KeyView| (k, FieldValue::Integer(0)))
        + s.counters.map_values(|c: (KeyView, int)| (c.0, FieldValue::Integer(c.1)))
}

/// How many entries of `s` have a key of the same metric as `k`.
pub open spec fn count_key<W>(s: Seq<(KeyView, W)>, k: KeyView) -> nat
    decreases s.len(),
{
    if s.len() == 0 {
        0
    } else {
        count_key(s.drop_last(), k) + if same_key(s.last().0, k) {
            1nat
        } else {
            0nat
        }
    }
}

/// How many entries after position `p` are of the same metric as entry `p`.
pub open spec fn later_same_key<W>(e: Seq<(KeyView, W)>, p: int) -> nat {
    count_key(e.subrange(p + 1, e.len() as int), e[p].0)
}

/// Nanoseconds in a millisecond.
pub open spec fn nanos_per_milli() -> int {
    1_000_000
}

/// The field that holds the value of a single-value point.
pub open spec fn value_field() -> Seq<char> {
    seq!['v', 'a', 'l', 'u', 'e']
}

/// Point `p`: its key's name, tags and fields from the labels, the value in
/// field `value`, and a timestamp one millisecond earlier for every later
/// point of the same key, so that points of one key never share a timestamp
/// and the newest keeps `now`.
pub open spec fn point_metric(
    tags: Seq<(Seq<char>, Seq<char>)>,
    fields: Seq<(Seq<char>, FieldValue)>,
    e: Seq<(KeyView, FieldValue)>,
    p: int,
    now: int,
) -> MetricView {
    let k = e[p].0;
    let tf = labels_applied(tags, fields, k.labels);
    MetricView {
        name: k.name,
        timestamp: now - later_same_key(e, p) * nanos_per_milli(),
        tags: tf.0,
        fields: entries_insert(tf.1, value_field(), e[p].1),
    }
}

/// `fields` after setting each entry of `d` in order.
pub open spec fn fields_with(
    fields: Seq<(Seq<char>, FieldValue)>,
    d: Seq<(Seq<char>, FieldValue)>,
) -> Seq<(Seq<char>, FieldValue)>
    decreases d.len(),
{
    if d.len() == 0 {
        fields
    } else {
        entries_insert(fields_with(fields, d.drop_last()), d.last().0, d.last().1)
    }
}

/// A histogram's point: tags and fields from its labels, then the fields of
/// its distribution, at time `now`.
pub open spec fn histogram_metric(
    tags: Seq<(Seq<char>, Seq<char>)>,
    fields: Seq<(Seq<char>, FieldValue)>,
    k: KeyView,
    d: Seq<(Seq<char>, FieldValue)>,
    now: int,
) -> MetricView {
    let tf = labels_applied(tags, fields, k.labels);
    MetricView { name: k.name, timestamp: now, tags: tf.0, fields: fields_with(tf.1, d) }
}

/// The lines of the single-value points, in entry order.
pub open spec fn point_lines(
    tags: Seq<(Seq<char>, Seq<char>)>,
    fields: Seq<(Seq<char>, FieldValue)>,
    e: Seq<(KeyView, FieldValue)>,
    now: int,
) -> Seq<Seq<char>> {
    Seq::new(e.len(), |p: int| line_text(point_metric(tags, fields, e, p, now)))
}

/// The lines of the histograms that have something to report, in order.
pub open spec fn histogram_lines(
    tags: Seq<(Seq<char>, Seq<char>)>,
    fields: Seq<(Seq<char>, FieldValue)>,
    hs: Seq<(KeyView, Option<Seq<(Seq<char>, FieldValue)>>)>,
    now: int,
) -> Seq<Seq<char>>
    decreases hs.len(),
{
    if hs.len() == 0 {
        seq![]
    } else {
        let rest = histogram_lines(tags, fields, hs.drop_last(), now);
        match hs.last().1 {
            Some(d) => rest.push(line_text(histogram_metric(tags, fields, hs.last().0, d, now))),
            None => rest,
        }
    }
}

/// All lines of a snapshot, before sorting.
pub open spec fn snapshot_lines(
    tags: Seq<(Seq<char>, Seq<char>)>,
    fields: Seq<(Seq<char>, FieldValue)>,
    s: SnapshotView,
    now: int,
) -> Seq<Seq<char>> {
    point_lines(tags, fields, point_entries(s), now) + histogram_lines(
        tags,
        fields,
        s.histograms,
        now,
    )
}

/// The rendered text of a snapshot: its lines sorted and joined by `\n`.
pub open spec fn snapshot_text(
    tags: Seq<(Seq<char>, Seq<char>)>,
    fields: Seq<(Seq<char>, FieldValue)>,
    s: SnapshotView,
    now: int,
) -> Seq<char> {
    join_lines(sorted_lines(snapshot_lines(tags, fields, s, now)))
}

/// The contents of a list of points.
pub open spec fn points_view(e: Seq<(MetricKey, MetricData)>) -> Seq<(KeyView, FieldValue)> {
    e.map_values(|x: (MetricKey, MetricData)| (x.0@, x.1@))
}

/// The single-value points of a snapshot, in order.
fn collect_points(s: &Snapshot) -> (e: Vec<(MetricKey, MetricData)>)
    ensures
        points_view(e@) == point_entries(s@),
{
    let ghost target = point_entries(s@);
    let mut e: Vec<(MetricKey, MetricData)> = Vec::new();
    let mut i: usize = 0;
    while i < s.gauges.len()
        invariant
            i <= s.gauges.len(),
            points_view(e@) == s@.gauges.take(i as int),
        decreases s.gauges.len() - i,
    {
        let g = &s.gauges[i];
        let ghost old_e = e@;
        e.push((g.0.duplicate(), MetricData::Float(g.1.duplicate())));
        proof {
            assert(points_view(e@) =~= points_view(old_e).push(s@.gauges[i as int]));
        }
        assert(points_view(e@) =~= s@.gauges.take(i + 1));
        i = i + 1;
    }
    assert(s@.gauges.take(i as int) =~= s@.gauges);
    let ghost regs = s@.registrations.map_values(|k: KeyView| (k, FieldValue::Integer(0)));
    let mut i: usize = 0;
    while i < s.registrations.len()
        invariant
            i <= s.registrations.len(),
            regs == s@.registrations.map_values(|k: KeyView| (k, FieldValue::Integer(0))),
            points_view(e@) == s@.gauges + regs.take(i as int),
        decreases s.registrations.len() - i,
    {
        let k = &s.registrations[i];
        let ghost old_e = e@;
        e.push((k.duplicate(), MetricData::Integer(0)));
        proof {
            assert(points_view(e@) =~= points_view(old_e).push(regs[i as int]));
        }
        assert(points_view(e@) =~= s@.gauges + regs.take(i + 1));
        i = i + 1;
    }
    assert(regs.take(i as int) =~= regs);
    let ghost cs = s@.counters.map_values(|c: (KeyView, int)| (c.0, FieldValue::Integer(c.1)));
    let mut i: usize = 0;
    while i < s.counters.len()
        invariant
            i <= s.counters.len(),
            regs == s@.registrations.map_values(|k: KeyView| (k, FieldValue::Integer(0))),
            cs == s@.counters.map_values(|c: (KeyView, int)| (c.0, FieldValue::Integer(c.1))),
            points_view(e@) == s@.gauges + regs + cs.take(i as int),
        decreases s.counters.len() - i,
    {
        let c = &s.counters[i];
        let ghost old_e = e@;
        e.push((c.0.duplicate(), MetricData::Unsigned(c.1)));
        proof {
            assert(points_view(e@) =~= points_view(old_e).push(cs[i as int]));
        }
        assert(points_view(e@) =~= s@.gauges + regs + cs.take(i + 1));
        i = i + 1;
    }
    assert(cs.take(i as int) =~= cs);
    e
}

/// How many points after position `p` have the same key as point `p`.
fn count_later(e: &Vec<(MetricKey, MetricData)>, p: usize) -> (n: usize)
    requires
        p < e.len(),
    ensures
        n == later_same_key(points_view(e@), p as int),
        n < e.len(),
{
    let ghost ev = points_view(e@);
    let mut n: usize = 0;
    let mut q: usize = p + 1;
    assert(ev.subrange(p + 1, q as int) =~= Seq::<(KeyView, FieldValue)>::empty());
    while q < e.len()
        invariant
            p < q <= e.len(),
            ev == points_view(e@),
            n == count_key(ev.subrange(p + 1, q as int), ev[p as int].0),
            n <= q - p - 1,
        decreases e.len() - q,
    {
        let ghost sub = ev.subrange(p + 1, q + 1);
        assert(sub.drop_last() =~= ev.subrange(p + 1, q as int));
        assert(sub.last() == ev[q as int]);
        if e[q].0.same_as(&e[p].0) {
            n = n + 1;
        }
        q = q + 1;
    }
    n
}

/// The line of point `p`.
fn point_line(
    tags: &StrMap<String>,
    fields: &StrMap<MetricData>,
    e: &Vec<(MetricKey, MetricData)>,
    p: usize,
    now: i64,
) -> (r: String)
    requires
        p < e.len(),
        now - e.len() * nanos_per_milli() >= i64::MIN,
    ensures
        r@ == line_text(point_metric(tags@, fields@, points_view(e@), p as int, now as int)),
{
    let later = count_later(e, p);
    let ts: i64 = ((now as i128) - (later as i128) * 1_000_000i128) as i64;
    let (key, value) = (&e[p].0, &e[p].1);
    let (t, mut f) = parse_labels(tags.duplicate(), fields.duplicate(), &key.labels);
    let field_name = "value".to_owned();
    proof {
        reveal_strlit("value");
        assert(field_name@ =~= value_field());
    }
    f.insert(field_name, value.duplicate());
    let m = InfluxMetric { name: key.name.clone(), timestamp: ts, tags: t, fields: f };
    assert(m@ == point_metric(tags@, fields@, points_view(e@), p as int, now as int));
    m.to_line()
}

/// The line of a histogram with the given distribution fields.
fn histogram_line(
    tags: &StrMap<String>,
    fields: &StrMap<MetricData>,
    key: &MetricKey,
    d: &Vec<(Token, Number)>,
    now: i64,
) -> (r: String)
    ensures
        r@ == line_text(histogram_metric(tags@, fields@, key@, dist_view(d@), now as int)),
{
    let (t, mut f) = parse_labels(tags.duplicate(), fields.duplicate(), &key.labels);
    let ghost base = f@;
    let mut i: usize = 0;
    while i < d.len()
        invariant
            i <= d.len(),
            f@ == fields_with(base, dist_view(d@).take(i as int)),
        decreases d.len() - i,
    {
        let (k, v) = &d[i];
        proof {
            let t = dist_view(d@).take(i + 1);
            assert(t.drop_last() =~= dist_view(d@).take(i as int));
        }
        f.insert(k.as_str().to_owned(), v.to_data());
        i = i + 1;
    }
    assert(dist_view(d@).take(i as int) =~= dist_view(d@));
    let m = InfluxMetric { name: key.name.clone(), timestamp: now, tags: t, fields: f };
    m.to_line()
}

/// Renders a snapshot: one line per metric point, sorted, joined by `\n`;
/// also returns the number of points.
pub fn render_snapshot(
    tags: &StrMap<String>,
    fields: &StrMap<MetricData>,
    s: &Snapshot,
    now: i64,
) -> (r: (usize, String))
    requires
        now - point_entries(s@).len() * nanos_per_milli() >= i64::MIN,
    ensures
        r.0 == snapshot_lines(tags@, fields@, s@, now as int).len(),
        r.1@ == snapshot_text(tags@, fields@, s@, now as int),
        tags_unbroken(tags@) && fields_unbroken(fields@) && keys_unbroken(s@) ==> rendered_as_lines(
            r.0 as int,
            r.1@,
        ),
{
    let e = collect_points(s);
    let ghost ev = points_view(e@);
    let ghost pl = point_lines(tags@, fields@, ev, now as int);
    let mut lines: Vec<Vec<char>> = Vec::new();
    let mut p: usize = 0;
    while p < e.len()
        invariant
            p <= e.len(),
            ev == points_view(e@),
            ev.len() == e.len(),
            now - e.len() * nanos_per_milli() >= i64::MIN,
            pl == point_lines(tags@, fields@, ev, now as int),
            texts_view(lines@) == pl.take(p as int),
        decreases e.len() - p,
    {
        let line = point_line(tags, fields, &e, p, now);
        let ghost old_lines = lines@;
        lines.push(chars_of(line.as_str()));
        proof {
            assert(pl[p as int] == line@);
            assert(texts_view(lines@) =~= texts_view(old_lines).push(line@));
        }
        assert(texts_view(lines@) =~= pl.take(p + 1));
        p = p + 1;
    }
    assert(pl.take(p as int) =~= pl);
    let ghost hs = s@.histograms;
    let mut h: usize = 0;
    while h < s.histograms.len()
        invariant
            h <= s.histograms.len(),
            hs == s@.histograms,
            texts_view(lines@) == pl + histogram_lines(tags@, fields@, hs.take(h as int), now as int),
        decreases s.histograms.len() - h,
    {
        let entry = &s.histograms[h];
        proof {
            assert(hs.take(h + 1).drop_last() =~= hs.take(h as int));
            assert(hs.take(h + 1).last() == hs[h as int]);
        }
        match &entry.1 {
            Some(d) => {
                let line = histogram_line(tags, fields, &entry.0, d, now);
                let ghost old_lines = lines@;
                lines.push(chars_of(line.as_str()));
                proof {
                    assert(texts_view(lines@) =~= texts_view(old_lines).push(line@));
                    assert(hs[h as int].1 == Some(dist_view(d@)));
                }
                assert(texts_view(lines@) =~= pl + histogram_lines(
                    tags@,
                    fields@,
                    hs.take(h + 1),
                    now as int,
                ));
            },
            None => {},
        }
        h = h + 1;
    }
    assert(hs.take(h as int) =~= hs);
    let count = lines.len();
    let sorted = sort_texts(lines);
    let text = join_texts(&sorted);
    proof {
        if tags_unbroken(tags@) && fields_unbroken(fields@) && keys_unbroken(s@) {
            lemma_snapshot_unbroken(*s);
            law_rendered_text_splits_into_its_lines(tags@, fields@, s@, now as int);
        }
    }
    (count, text)
}

/// The system clock's time, `std::time::SystemTime`.
#[verifier::external_type_specification]
#[verifier::external_body]
pub struct ExSystemTime(std::time::SystemTime);

/// How far a time lies before the one it was measured from,
/// `std::time::SystemTimeError`.
#[verifier::external_type_specification]
#[verifier::external_body]
pub struct ExSystemTimeError(std::time::SystemTimeError);

/// `std::time::SystemTime::now`: the current time of the system clock.
/// Nothing is claimed of it: it is the time.
#[verifier::external_body]
fn system_time_now() -> std::time::SystemTime {
    std::time::SystemTime::now()
}

/// `SystemTime::duration_since(UNIX_EPOCH)`: how long after the Unix epoch
/// `t` lies, or an error that holds how long before it. Nothing is claimed of
/// the durations, which `Duration` keeps opaque here.
#[verifier::external_body]
fn since_unix_epoch(t: &std::time::SystemTime) -> Result<
    core::time::Duration,
    std::time::SystemTimeError,
> {
    t.duration_since(std::time::UNIX_EPOCH)
}

/// `SystemTimeError::duration`: how far before the epoch the time lay.
/// Nothing is claimed of it.
#[verifier::external_body]
fn time_error_duration(e: &std::time::SystemTimeError) -> core::time::Duration {
    e.duration()
}

/// `Duration::as_nanos`: the whole nanoseconds of a duration. Nothing is
/// claimed of the number, as `Duration` has no view here.
#[verifier::external_body]
fn duration_nanos(d: &core::time::Duration) -> u128 {
    d.as_nanos()
}

/// Reads the system clock as its offset from the Unix epoch in whole
/// nanoseconds: `Ok` of the nanoseconds since the epoch, or `Err` of the
/// nanoseconds before it. Whatever the clock reads, this returns.
fn system_clock_nanos() -> Result<u128, u128> {
    let t = system_time_now();
    match since_unix_epoch(&t) {
        Ok(d) => Ok(duration_nanos(&d)),
        Err(e) => Err(duration_nanos(&time_error_duration(&e))),
    }
}

/// A clock reading as signed nanoseconds since the epoch, where it fits an `i64`.
pub open spec fn clock_reading(c: Result<u128, u128>) -> Option<i64> {
    match c {
        Ok(after) => if after <= i64::MAX {
            Some(after as i64)
        } else {
            None
        },
        Err(before) => if before <= -(i64::MIN as int) {
            Some((-before) as i64)
        } else {
            None
        },
    }
}

/// Converts a clock reading to signed nanoseconds since the epoch.
pub fn reading_of_clock(c: Result<u128, u128>) -> (r: Option<i64>)
    ensures
        r == clock_reading(c),
{
    match c {
        Ok(after) => if after <= i64::MAX as u128 {
            Some(after as i64)
        } else {
            None
        },
        Err(before) => if before <= 9_223_372_036_854_775_808u128 {
            Some((0i128 - before as i128) as i64)
        } else {
            None
        },
    }
}

/// What rendering at a clock reading gives: nothing when there is no
/// reading in the nanosecond range, or when stepping back one millisecond per
/// point would leave that range; otherwise the count and text of the snapshot
/// at that time.
pub open spec fn render_outcome(
    tags: Seq<(Seq<char>, Seq<char>)>,
    fields: Seq<(Seq<char>, FieldValue)>,
    s: SnapshotView,
    reading: Option<i64>,
) -> Option<(int, Seq<char>)> {
    match reading {
        None => None,
        Some(now) => if now - point_entries(s).len() * nanos_per_milli() < i64::MIN {
            None
        } else {
            Some(
                (
                    snapshot_lines(tags, fields, s, now as int).len() as int,
                    snapshot_text(tags, fields, s, now as int),
                ),
            )
        },
    }
}

/// The count and text of an optional rendering, as plain values.
pub open spec fn outcome_view(r: Option<(usize, String)>) -> Option<(int, Seq<char>)> {
    match r {
        Some(x) => Some((x.0 as int, x.1@)),
        None => None,
    }
}

/// Renders a snapshot at a clock reading: `render_outcome` of that reading.
pub fn render_at(
    tags: &StrMap<String>,
    fields: &StrMap<MetricData>,
    s: &Snapshot,
    reading: Option<i64>,
) -> (r: Option<(usize, String)>)
    ensures
        outcome_view(r) == render_outcome(tags@, fields@, s@, reading),
        r is Some && tags_unbroken(tags@) && fields_unbroken(fields@) && keys_unbroken(s@)
            ==> rendered_as_lines(r.unwrap().0 as int, r.unwrap().1@),
{
    let points = s.gauges.len() as u128 + s.registrations.len() as u128 + s.counters.len() as u128;
    assert(point_entries(s@).len() == points);
    match reading {
        None => None,
        Some(now) => {
            if (now as i128) - (points as i128) * 1_000_000i128 < i64::MIN as i128 {
                None
            } else {
                Some(render_snapshot(tags, fields, s, now))
            }
        },
    }
}

/// Renders a snapshot at the time the system clock reads: `render_at` of
/// that reading. The reading decides: it gives `None` exactly when the clock
/// is outside the `i64` nanosecond range, or so early that stepping back one
/// millisecond per point would leave it.
pub fn render_now(tags: &StrMap<String>, fields: &StrMap<MetricData>, s: &Snapshot) -> (r: Option<
    (usize, String),
>)
    ensures
        exists|c: Result<u128, u128>|
            #![trigger clock_reading(c)]
            outcome_view(r) == render_outcome(tags@, fields@, s@, clock_reading(c)),
        r is Some && tags_unbroken(tags@) && fields_unbroken(fields@) && keys_unbroken(s@)
            ==> rendered_as_lines(r.unwrap().0 as int, r.unwrap().1@),
{
    let c = system_clock_nanos();
    let r = render_at(tags, fields, s, reading_of_clock(c));
    assert(outcome_view(r) == render_outcome(tags@, fields@, s@, clock_reading(c)));
    r
}

/// Counting over a concatenation adds up.
proof fn lemma_count_key_append<W>(a: Seq<(KeyView, W)>, b: Seq<(KeyView, W)>, k: KeyView)
    ensures
        count_key(a + b, k) == count_key(a, k) + count_key(b, k),
    decreases b.len(),
{
    if b.len() == 0 {
        assert(a + b =~= a);
    } else {
        assert((a + b).drop_last() =~= a + b.drop_last());
        lemma_count_key_append(a, b.drop_last(), k);
    }
}

/// Splits the count after `p` at a later entry `q` of the same key.
proof fn lemma_later_split<W>(e: Seq<(KeyView, W)>, p: int, q: int)
    requires
        0 <= p < q < e.len(),
        same_key(e[q].0, e[p].0),
    ensures
        later_same_key(e, p) == later_same_key(e, q) + 1 + count_key(
            e.subrange(p + 1, q),
            e[p].0,
        ),
{
    let k = e[p].0;
    let n = e.len() as int;
    assert(e.subrange(p + 1, n) =~= e.subrange(p + 1, q) + (seq![e[q]] + e.subrange(q + 1, n)));
    lemma_count_key_append(e.subrange(p + 1, q), seq![e[q]] + e.subrange(q + 1, n), k);
    lemma_count_key_append(seq![e[q]], e.subrange(q + 1, n), k);
    let one = seq![e[q]];
    assert(one.drop_last() =~= Seq::<(KeyView, W)>::empty());
    assert(one.last() == e[q]);
    assert(count_key(one.drop_last(), k) == 0);
    assert(count_key(one, k) == 1);
    lemma_count_key_same(e.subrange(q + 1, n), e[q].0, k);
}

/// Counting keys of the same metric as `k1` or as `k2` is the same when `k1`
/// and `k2` are of the same metric.
proof fn lemma_count_key_same<W>(s: Seq<(KeyView, W)>, k1: KeyView, k2: KeyView)
    requires
        same_key(k1, k2),
    ensures
        count_key(s, k1) == count_key(s, k2),
    decreases s.len(),
{
    if s.len() > 0 {
        lemma_count_key_same(s.drop_last(), k1, k2);
        lemma_same_key_equivalence(s.last().0, k1, k2);
        lemma_same_key_equivalence(s.last().0, k2, k1);
        lemma_same_key_equivalence(k1, k2, k1);
    }
}

/// No entry with key `k` means a count of zero.
proof fn lemma_count_key_absent<W>(s: Seq<(KeyView, W)>, k: KeyView)
    requires
        forall|i: int| 0 <= i < s.len() ==> !same_key((#[trigger] s[i]).0, k),
    ensures
        count_key(s, k) == 0,
    decreases s.len(),
{
    if s.len() > 0 {
        lemma_count_key_absent(s.drop_last(), k);
    }
}

/// Two points of the same metric never share a timestamp: the earlier one in
/// the snapshot is stamped strictly earlier.
pub proof fn law_points_of_one_key_have_distinct_timestamps(
    tags: Seq<(Seq<char>, Seq<char>)>,
    fields: Seq<(Seq<char>, FieldValue)>,
    s: SnapshotView,
    now: int,
    p: int,
    q: int,
)
    requires
        0 <= p < q < point_entries(s).len(),
        same_key(point_entries(s)[q].0, point_entries(s)[p].0),
    ensures
        point_metric(tags, fields, point_entries(s), p, now).timestamp < point_metric(
            tags,
            fields,
            point_entries(s),
            q,
            now,
        ).timestamp,
{
    lemma_later_split(point_entries(s), p, q);
}

/// Two points of the same metric with none of it between them are stamped
/// exactly one millisecond apart, the later point the later time.
pub proof fn law_consecutive_points_one_milli_apart(
    tags: Seq<(Seq<char>, Seq<char>)>,
    fields: Seq<(Seq<char>, FieldValue)>,
    s: SnapshotView,
    now: int,
    p: int,
    q: int,
)
    requires
        0 <= p < q < point_entries(s).len(),
        same_key(point_entries(s)[q].0, point_entries(s)[p].0),
        forall|r: int|
            p < r < q ==> !same_key((#[trigger] point_entries(s)[r]).0, point_entries(s)[p].0),
    ensures
        point_metric(tags, fields, point_entries(s), q, now).timestamp - point_metric(
            tags,
            fields,
            point_entries(s),
            p,
            now,
        ).timestamp == nanos_per_milli(),
{
    let e = point_entries(s);
    let between = e.subrange(p + 1, q);
    assert forall|i: int| 0 <= i < between.len() implies !same_key(
        (#[trigger] between[i]).0,
        e[p].0,
    ) by {
        assert(between[i] == e[p + 1 + i]);
    }
    lemma_count_key_absent(between, e[p].0);
    lemma_later_split(e, p, q);
}

/// The last point of a key in the snapshot (its newest value) is stamped `now`.
pub proof fn law_newest_point_is_stamped_now(
    tags: Seq<(Seq<char>, Seq<char>)>,
    fields: Seq<(Seq<char>, FieldValue)>,
    s: SnapshotView,
    now: int,
    p: int,
)
    requires
        0 <= p < point_entries(s).len(),
        forall|q: int|
            p < q < point_entries(s).len() ==> !same_key(
                (#[trigger] point_entries(s)[q]).0,
                point_entries(s)[p].0,
            ),
    ensures
        point_metric(tags, fields, point_entries(s), p, now).timestamp == now,
{
    let e = point_entries(s);
    let sub = e.subrange(p + 1, e.len() as int);
    assert forall|i: int| 0 <= i < sub.len() implies !same_key((#[trigger] sub[i]).0, e[p].0) by {
        assert(sub[i] == e[p + 1 + i]);
    }
    lemma_count_key_absent(sub, e[p].0);
}

/// Every single-value point carries its value in the field `value`, and its
/// tags are those its labels give.
pub proof fn law_point_carries_its_value(
    tags: Seq<(Seq<char>, Seq<char>)>,
    fields: Seq<(Seq<char>, FieldValue)>,
    s: SnapshotView,
    now: int,
    p: int,
)
    requires
        keys_sorted(tags),
        keys_sorted(fields),
        0 <= p < point_entries(s).len(),
    ensures
        entries_lookup(point_metric(tags, fields, point_entries(s), p, now).fields, value_field())
            == Some(point_entries(s)[p].1),
        point_metric(tags, fields, point_entries(s), p, now).tags == labels_applied(
            tags,
            fields,
            point_entries(s)[p].0.labels,
        ).0,
{
    let e = point_entries(s);
    lemma_labels_applied_sorted(tags, fields, e[p].0.labels);
    lemma_entries_insert_same(
        labels_applied(tags, fields, e[p].0.labels).1,
        value_field(),
        e[p].1,
    );
}

/// Every single-value point's line begins with its metric name; the point
/// carries each global tag whose key none of its labels sets, and each global
/// field other than `value` (which holds the point's own value) whose key
/// none of its labels sets, with the global value; its tags and its fields
/// stand in ascending key order.
pub proof fn law_point_keeps_globals(
    tags: Seq<(Seq<char>, Seq<char>)>,
    fields: Seq<(Seq<char>, FieldValue)>,
    s: SnapshotView,
    now: int,
    p: int,
    t: Seq<char>,
    f: Seq<char>,
)
    requires
        keys_sorted(tags),
        keys_sorted(fields),
        0 <= p < point_entries(s).len(),
    ensures
        point_entries(s)[p].0.name.is_prefix_of(
            line_text(point_metric(tags, fields, point_entries(s), p, now)),
        ),
        keys_sorted(point_metric(tags, fields, point_entries(s), p, now).tags),
        keys_sorted(point_metric(tags, fields, point_entries(s), p, now).fields),
        !labels_set_tag(point_entries(s)[p].0.labels, t) ==> entries_lookup(
            point_metric(tags, fields, point_entries(s), p, now).tags,
            t,
        ) == entries_lookup(tags, t),
        !labels_set_field(point_entries(s)[p].0.labels, f) && f != value_field() ==> entries_lookup(
            point_metric(tags, fields, point_entries(s), p, now).fields,
            f,
        ) == entries_lookup(fields, f),
{
    let e = point_entries(s);
    let tf = labels_applied(tags, fields, e[p].0.labels);
    lemma_labels_applied_sorted(tags, fields, e[p].0.labels);
    law_globals_kept_unless_labelled(tags, fields, e[p].0.labels, t, f);
    lemma_entries_insert_sorted(tf.1, value_field(), e[p].1);
    lemma_line_starts_with_name(point_metric(tags, fields, e, p, now));
    if f != value_field() {
        lemma_entries_insert_other(tf.1, value_field(), e[p].1, f);
    }
}

/// Whether a distribution has a field named `f`.
pub open spec fn dist_sets_field(d: Seq<(Seq<char>, FieldValue)>, f: Seq<char>) -> bool {
    exists|j: int| 0 <= j < d.len() && (#[trigger] d[j]).0 == f
}

/// Setting the fields of a distribution keeps the fields sorted and leaves
/// every field that the distribution does not name as it was.
proof fn lemma_fields_with_other(
    fields: Seq<(Seq<char>, FieldValue)>,
    d: Seq<(Seq<char>, FieldValue)>,
    f: Seq<char>,
)
    requires
        keys_sorted(fields),
    ensures
        keys_sorted(fields_with(fields, d)),
        !dist_sets_field(d, f) ==> entries_lookup(fields_with(fields, d), f) == entries_lookup(
            fields,
            f,
        ),
    decreases d.len(),
{
    if d.len() > 0 {
        let init = d.drop_last();
        if !dist_sets_field(d, f) {
            assert forall|j: int| 0 <= j < init.len() implies (#[trigger] init[j]).0 != f by {
                assert(init[j] == d[j]);
            }
            assert(d[d.len() - 1].0 != f);
        }
        lemma_fields_with_other(fields, init, f);
        lemma_entries_insert_sorted(fields_with(fields, init), d.last().0, d.last().1);
        if !dist_sets_field(d, f) {
            lemma_entries_insert_other(fields_with(fields, init), d.last().0, d.last().1, f);
        }
    }
}

/// A line of line protocol begins with the metric's name.
proof fn lemma_line_starts_with_name(m: MetricView)
    ensures
        m.name.is_prefix_of(line_text(m)),
{
    let rest = line_text(m).subrange(m.name.len() as int, line_text(m).len() as int);
    assert(line_text(m) =~= m.name + (tags_text(m.tags) + seq![' '] + fields_text(m.fields)
        + seq![' '] + int_text(m.timestamp)));
    assert(line_text(m).subrange(0, m.name.len() as int) =~= m.name);
}

/// Every histogram line begins with its metric name and carries each global
/// tag whose key none of its labels sets, and each global field whose key
/// neither its labels nor its distribution sets, with the global value; its
/// tags and its fields stand in ascending key order.
pub proof fn law_histogram_keeps_globals(
    tags: Seq<(Seq<char>, Seq<char>)>,
    fields: Seq<(Seq<char>, FieldValue)>,
    k: KeyView,
    d: Seq<(Seq<char>, FieldValue)>,
    now: int,
    t: Seq<char>,
    f: Seq<char>,
)
    requires
        keys_sorted(tags),
        keys_sorted(fields),
    ensures
        k.name.is_prefix_of(line_text(histogram_metric(tags, fields, k, d, now))),
        keys_sorted(histogram_metric(tags, fields, k, d, now).tags),
        keys_sorted(histogram_metric(tags, fields, k, d, now).fields),
        !labels_set_tag(k.labels, t) ==> entries_lookup(
            histogram_metric(tags, fields, k, d, now).tags,
            t,
        ) == entries_lookup(tags, t),
        !labels_set_field(k.labels, f) && !dist_sets_field(d, f) ==> entries_lookup(
            histogram_metric(tags, fields, k, d, now).fields,
            f,
        ) == entries_lookup(fields, f),
{
    let tf = labels_applied(tags, fields, k.labels);
    lemma_labels_applied_sorted(tags, fields, k.labels);
    law_globals_kept_unless_labelled(tags, fields, k.labels, t, f);
    lemma_fields_with_other(tf.1, d, f);
    lemma_line_starts_with_name(histogram_metric(tags, fields, k, d, now));
}

/// A counter registered since the last render, whose metric nothing else in
/// the snapshot reports, gives exactly two points: its registration at
/// integer zero, one millisecond before its current count, which is stamped
/// `now`.
pub proof fn law_new_counter_gives_two_points(
    tags: Seq<(Seq<char>, Seq<char>)>,
    fields: Seq<(Seq<char>, FieldValue)>,
    s: SnapshotView,
    now: int,
    i: int,
    j: int,
)
    requires
        keys_sorted(tags),
        keys_sorted(fields),
        0 <= i < s.registrations.len(),
        0 <= j < s.counters.len(),
        same_key(s.counters[j].0, s.registrations[i]),
        forall|g: int|
            0 <= g < s.gauges.len() ==> !same_key((#[trigger] s.gauges[g]).0, s.registrations[i]),
        forall|r: int|
            0 <= r < s.registrations.len() && r != i ==> !same_key(
                #[trigger] s.registrations[r],
                s.registrations[i],
            ),
        forall|c: int|
            0 <= c < s.counters.len() && c != j ==> !same_key(
                (#[trigger] s.counters[c]).0,
                s.registrations[i],
            ),
    ensures
        ({
            let e = point_entries(s);
            let zero = s.gauges.len() + i;
            let current = s.gauges.len() + s.registrations.len() + j;
            &&& count_key(e, s.registrations[i]) == 2
            &&& entries_lookup(point_metric(tags, fields, e, zero, now).fields, value_field())
                == Some(FieldValue::Integer(0))
            &&& entries_lookup(point_metric(tags, fields, e, current, now).fields, value_field())
                == Some(FieldValue::Integer(s.counters[j].1))
            &&& point_metric(tags, fields, e, current, now).timestamp == now
            &&& point_metric(tags, fields, e, zero, now).timestamp == now - nanos_per_milli()
        }),
{
    let e = point_entries(s);
    let k = s.registrations[i];
    let ng = s.gauges.len() as int;
    let nr = s.registrations.len() as int;
    let n = e.len() as int;
    let p = ng + i;
    let q = ng + nr + j;
    assert(e[p] == (k, FieldValue::Integer(0)));
    assert(e[q] == (s.counters[j].0, FieldValue::Integer(s.counters[j].1)));
    lemma_same_key_equivalence(s.counters[j].0, k, k);
    // no point of the metric other than `p` and `q`
    assert forall|x: int| 0 <= x < n && x != p && x != q implies !same_key(
        (#[trigger] e[x]).0,
        k,
    ) by {
        if x < ng {
            assert(e[x] == s.gauges[x]);
        } else if x < ng + nr {
            assert(e[x].0 == s.registrations[x - ng]);
        } else {
            assert(e[x].0 == s.counters[x - ng - nr].0);
        }
    }
    assert forall|x: int| p < x < q implies !same_key((#[trigger] e[x]).0, e[p].0) by {}
    law_consecutive_points_one_milli_apart(tags, fields, s, now, p, q);
    assert forall|x: int| q < x < n implies !same_key((#[trigger] e[x]).0, e[q].0) by {
        assert(!same_key(e[x].0, k));
        lemma_same_key_equivalence(e[x].0, e[q].0, k);
    }
    law_newest_point_is_stamped_now(tags, fields, s, now, q);
    law_point_carries_its_value(tags, fields, s, now, p);
    law_point_carries_its_value(tags, fields, s, now, q);
    // counting: none before `p`, `p` itself, and one after it
    let before = e.subrange(0, p);
    assert forall|x: int| 0 <= x < before.len() implies !same_key((#[trigger] before[x]).0, k) by {
        assert(before[x] == e[x]);
    }
    lemma_count_key_absent(before, k);
    let upto = e.subrange(0, p + 1);
    assert(upto.drop_last() =~= before);
    assert(upto.last() == e[p]);
    let after_p = e.subrange(p + 1, n);
    let between = e.subrange(p + 1, q);
    assert forall|x: int| 0 <= x < between.len() implies !same_key(
        (#[trigger] between[x]).0,
        e[p].0,
    ) by {
        assert(between[x] == e[p + 1 + x]);
    }
    lemma_count_key_absent(between, e[p].0);
    lemma_later_split(e, p, q);
    let after_q = e.subrange(q + 1, n);
    assert forall|x: int| 0 <= x < after_q.len() implies !same_key(
        (#[trigger] after_q[x]).0,
        e[q].0,
    ) by {
        assert(after_q[x] == e[q + 1 + x]);
    }
    lemma_count_key_absent(after_q, e[q].0);
    assert(e =~= upto + after_p);
    lemma_count_key_append(upto, after_p, k);
}

/// The snapshot of the next render when nothing changed in between: the same
/// gauges, counters and histograms, and no registrations (rendering drains
/// them).
pub open spec fn next_snapshot(s: SnapshotView) -> SnapshotView {
    SnapshotView { registrations: Seq::empty(), ..s }
}

/// Rendering again with nothing changed gives the same counter and gauge
/// points (name, tags and fields; timestamps aside), minus the registration
/// points at zero: rendering resets no value and drops only the
/// registrations.
pub proof fn law_rerender_drops_only_registrations(
    tags: Seq<(Seq<char>, Seq<char>)>,
    fields: Seq<(Seq<char>, FieldValue)>,
    s: SnapshotView,
    now: int,
    later: int,
    x: int,
)
    requires
        0 <= x < point_entries(next_snapshot(s)).len(),
    ensures
        snapshot_lines(tags, fields, next_snapshot(s), later).len() + s.registrations.len()
            == snapshot_lines(tags, fields, s, now).len(),
        ({
            let y = if x < s.gauges.len() {
                x
            } else {
                x + s.registrations.len()
            };
            let a = point_metric(tags, fields, point_entries(next_snapshot(s)), x, later);
            let b = point_metric(tags, fields, point_entries(s), y, now);
            &&& point_entries(next_snapshot(s))[x] == point_entries(s)[y]
            &&& a.name == b.name
            &&& a.tags == b.tags
            &&& a.fields == b.fields
        }),
{
    let n = next_snapshot(s);
    law_line_count(tags, fields, s, now);
    law_line_count(tags, fields, n, later);
    let ng = s.gauges.len() as int;
    let nr = s.registrations.len() as int;
    if x < ng {
        assert(point_entries(n)[x] == s.gauges[x]);
        assert(point_entries(s)[x] == s.gauges[x]);
    } else {
        assert(point_entries(n)[x] == (s.counters[x - ng].0, FieldValue::Integer(s.counters[x - ng].1)));
        assert(point_entries(s)[x + nr] == (s.counters[x - ng].0, FieldValue::Integer(s.counters[x - ng].1)));
    }
}

/// A counter registered since the last render is reported as a point with
/// integer value zero.
pub proof fn law_registration_reports_zero(s: SnapshotView, i: int)
    requires
        0 <= i < s.registrations.len(),
    ensures
        point_entries(s)[s.gauges.len() + i] == (s.registrations[i], FieldValue::Integer(0)),
{
}

/// The number of lines: one per single-value point, plus one per histogram
/// that has something to report.
pub proof fn law_line_count(
    tags: Seq<(Seq<char>, Seq<char>)>,
    fields: Seq<(Seq<char>, FieldValue)>,
    s: SnapshotView,
    now: int,
)
    ensures
        snapshot_lines(tags, fields, s, now).len() == point_entries(s).len()
            + histograms_reporting(s.histograms),
{
    lemma_histogram_lines_len(tags, fields, s.histograms, now);
}

/// How many histograms have something to report.
pub open spec fn histograms_reporting(hs: Seq<(KeyView, Option<Seq<(Seq<char>, FieldValue)>>)>) -> nat
    decreases hs.len(),
{
    if hs.len() == 0 {
        0
    } else {
        histograms_reporting(hs.drop_last()) + if hs.last().1 is Some {
            1nat
        } else {
            0nat
        }
    }
}

proof fn lemma_histogram_lines_len(
    tags: Seq<(Seq<char>, Seq<char>)>,
    fields: Seq<(Seq<char>, FieldValue)>,
    hs: Seq<(KeyView, Option<Seq<(Seq<char>, FieldValue)>>)>,
    now: int,
)
    ensures
        histogram_lines(tags, fields, hs, now).len() == histograms_reporting(hs),
    decreases hs.len(),
{
    if hs.len() > 0 {
        lemma_histogram_lines_len(tags, fields, hs.drop_last(), now);
    }
}

/// The rendered text holds the lines of the snapshot in lexicographic order,
/// each line exactly as often as the snapshot produces it.
pub proof fn law_rendered_lines_are_sorted(
    tags: Seq<(Seq<char>, Seq<char>)>,
    fields: Seq<(Seq<char>, FieldValue)>,
    s: SnapshotView,
    now: int,
)
    ensures
        sorted_by(
            sorted_lines(snapshot_lines(tags, fields, s, now)),
            |a: Seq<char>, b: Seq<char>| lex_le(a, b),
        ),
        sorted_lines(snapshot_lines(tags, fields, s, now)).to_multiset() == snapshot_lines(
            tags,
            fields,
            s,
            now,
        ).to_multiset(),
{
    lemma_sorted_lines(snapshot_lines(tags, fields, s, now));
}

} // verus!
