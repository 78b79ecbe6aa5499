//! Where line breaks stand in rendered text: one between lines and none
//! inside a line, so that splitting the text at its line breaks gives the
//! lines back.
use vstd::prelude::*;

use crate::data::{
    field_text, fields_text, lemma_token_unbroken, line_text, tags_text, value_text, FieldValue,
    MetricView, Number,
};
use crate::labels::{apply_label, field_prefix, labels_applied, tag_prefix, KeyView};
use crate::lines::{join_lines, lemma_sorted_lines, sorted_lines};
use crate::render::{
    fields_with, histogram_lines, histogram_metric, point_entries, point_lines, point_metric,
    dist_view, snapshot_lines, snapshot_text, value_field, Snapshot, SnapshotView,
};
use crate::smap::{entries_insert, lower_bound};
use crate::text::{digit_char, int_text, lex_le, nat_text, unbroken};
use vstd::relations::sorted_by;

verus! {

/// The pieces of `t` between its line breaks (one more piece than breaks).
pub open spec fn split_on_newline(t: Seq<char>) -> Seq<Seq<char>>
    decreases t.len(),
{
    if t.len() == 0 {
        seq![seq![]]
    } else {
        let r = split_on_newline(t.drop_last());
        if t.last() == '\n' {
            r.push(seq![])
        } else {
            r.update(r.len() - 1, r.last().push(t.last()))
        }
    }
}

proof fn lemma_split_len(t: Seq<char>)
    ensures
        split_on_newline(t).len() >= 1,
    decreases t.len(),
{
    if t.len() > 0 {
        lemma_split_len(t.drop_last());
    }
}

/// Text without a line break is a single piece.
proof fn lemma_split_unbroken(b: Seq<char>)
    requires
        unbroken(b),
    ensures
        split_on_newline(b) == seq![b],
    decreases b.len(),
{
    if b.len() == 0 {
        assert(b =~= seq![]);
    } else {
        let d = b.drop_last();
        assert(unbroken(d));
        lemma_split_unbroken(d);
        assert(b.last() == b[b.len() - 1]);
        assert(d.push(b.last()) =~= b);
        assert(seq![d].update(0, d.push(b.last())) =~= seq![b]);
    }
}

/// A line break followed by unbroken text adds that text as the last piece.
proof fn lemma_split_after_break(a: Seq<char>, b: Seq<char>)
    requires
        unbroken(b),
    ensures
        split_on_newline(a + seq!['\n'] + b) == split_on_newline(a).push(b),
    decreases b.len(),
{
    let t = a + seq!['\n'] + b;
    if b.len() == 0 {
        assert(t.drop_last() =~= a);
        assert(b =~= seq![]);
    } else {
        let d = b.drop_last();
        assert(unbroken(d));
        lemma_split_after_break(a, d);
        assert(t.drop_last() =~= a + seq!['\n'] + d);
        assert(t.last() == b[b.len() - 1]);
        assert(d.push(b.last()) =~= b);
        let r = split_on_newline(a).push(d);
        assert(r.update(r.len() - 1, d.push(b.last())) =~= split_on_newline(a).push(b));
    }
}

/// Splitting joined unbroken lines at their line breaks gives the lines back.
pub proof fn lemma_split_join(lines: Seq<Seq<char>>)
    requires
        lines.len() > 0,
        forall|i: int| 0 <= i < lines.len() ==> unbroken(#[trigger] lines[i]),
    ensures
        split_on_newline(join_lines(lines)) == lines,
    decreases lines.len(),
{
    if lines.len() == 1 {
        lemma_split_unbroken(lines[0]);
        assert(lines =~= seq![lines[0]]);
    } else {
        let init = lines.drop_last();
        assert forall|i: int| 0 <= i < init.len() implies unbroken(#[trigger] init[i]) by {
            assert(init[i] == lines[i]);
        }
        lemma_split_join(init);
        assert(unbroken(lines[lines.len() - 1]));
        lemma_split_after_break(join_lines(init), lines.last());
        assert(init.push(lines.last()) =~= lines);
    }
}

/// Joined lines that are all nonempty and unbroken end in no line break.
pub proof fn lemma_join_last(lines: Seq<Seq<char>>)
    requires
        lines.len() > 0,
        lines.last().len() > 0,
        unbroken(lines.last()),
    ensures
        join_lines(lines).len() > 0,
        join_lines(lines).last() != '\n',
{
    let l = lines.last();
    assert(l[l.len() - 1] != '\n');
    if lines.len() > 1 {
        let t = join_lines(lines.drop_last()) + seq!['\n'] + l;
        assert(t[t.len() - 1] == l[l.len() - 1]);
    }
}

/// A field value whose text has no line break.
pub open spec fn value_unbroken(v: FieldValue) -> bool {
    match v {
        FieldValue::Float(t) => unbroken(t),
        FieldValue::Text(t) => unbroken(t),
        _ => true,
    }
}

/// Tags (or labels) whose keys and values have no line break.
pub open spec fn tags_unbroken(tags: Seq<(Seq<char>, Seq<char>)>) -> bool {
    forall|i: int| 0 <= i < tags.len() ==> unbroken(#[trigger] tags[i].0) && unbroken(tags[i].1)
}

/// Fields whose keys and values have no line break.
pub open spec fn fields_unbroken(fields: Seq<(Seq<char>, FieldValue)>) -> bool {
    forall|i: int|
        0 <= i < fields.len() ==> unbroken(#[trigger] fields[i].0) && value_unbroken(fields[i].1)
}

proof fn lemma_concat_unbroken(a: Seq<char>, b: Seq<char>)
    requires
        unbroken(a),
        unbroken(b),
    ensures
        unbroken(a + b),
{
    assert forall|i: int| 0 <= i < (a + b).len() implies (a + b)[i] != '\n' by {
        if i >= a.len() {
            assert((a + b)[i] == b[i - a.len()]);
        }
    }
}

proof fn lemma_nat_text_unbroken(n: nat)
    ensures
        unbroken(nat_text(n)),
    decreases n,
{
    assert(digit_char(n % 10) != '\n');
    if n >= 10 {
        lemma_nat_text_unbroken(n / 10);
        let d = nat_text(n / 10);
        let t = d.push(digit_char(n % 10));
        assert forall|i: int| 0 <= i < t.len() implies #[trigger] t[i] != '\n' by {
            if i < d.len() {
                assert(t[i] == d[i]);
            }
        }
    }
}

proof fn lemma_int_text_unbroken(i: int)
    ensures
        unbroken(int_text(i)),
{
    if i < 0 {
        lemma_nat_text_unbroken((-i) as nat);
        lemma_concat_unbroken(seq!['-'], nat_text((-i) as nat));
    } else {
        lemma_nat_text_unbroken(i as nat);
    }
}

proof fn lemma_value_text_unbroken(v: FieldValue)
    requires
        value_unbroken(v),
    ensures
        unbroken(value_text(v)),
{
    match v {
        FieldValue::Integer(i) => {
            lemma_int_text_unbroken(i);
            lemma_concat_unbroken(int_text(i), seq!['i']);
            assert(int_text(i).push('i') =~= int_text(i) + seq!['i']);
        },
        FieldValue::Text(t) => {
            lemma_concat_unbroken(seq!['"'], t);
            lemma_concat_unbroken(seq!['"'] + t, seq!['"']);
        },
        _ => {},
    }
}

proof fn lemma_tags_text_unbroken(tags: Seq<(Seq<char>, Seq<char>)>)
    requires
        tags_unbroken(tags),
    ensures
        unbroken(tags_text(tags)),
    decreases tags.len(),
{
    if tags.len() > 0 {
        let init = tags.drop_last();
        assert forall|i: int| 0 <= i < init.len() implies unbroken(#[trigger] init[i].0) && unbroken(
            init[i].1,
        ) by {
            assert(init[i] == tags[i]);
        }
        lemma_tags_text_unbroken(init);
        let l = tags.last();
        assert(unbroken(tags[tags.len() - 1].0));
        assert(unbroken(l.0) && unbroken(l.1));
        lemma_concat_unbroken(tags_text(init), seq![',']);
        lemma_concat_unbroken(tags_text(init) + seq![','], l.0);
        lemma_concat_unbroken(tags_text(init) + seq![','] + l.0, seq!['=']);
        lemma_concat_unbroken(tags_text(init) + seq![','] + l.0 + seq!['='], l.1);
    }
}

proof fn lemma_field_text_unbroken(f: (Seq<char>, FieldValue))
    requires
        unbroken(f.0),
        value_unbroken(f.1),
    ensures
        unbroken(field_text(f)),
{
    lemma_value_text_unbroken(f.1);
    lemma_concat_unbroken(f.0, seq!['=']);
    lemma_concat_unbroken(f.0 + seq!['='], value_text(f.1));
}

proof fn lemma_fields_text_unbroken(fields: Seq<(Seq<char>, FieldValue)>)
    requires
        fields_unbroken(fields),
    ensures
        unbroken(fields_text(fields)),
    decreases fields.len(),
{
    if fields.len() == 1 {
        assert(unbroken(fields[0].0) && value_unbroken(fields[0].1));
        lemma_field_text_unbroken(fields[0]);
    } else if fields.len() > 1 {
        let init = fields.drop_last();
        assert forall|i: int| 0 <= i < init.len() implies unbroken(#[trigger] init[i].0)
            && value_unbroken(init[i].1) by {
            assert(init[i] == fields[i]);
        }
        lemma_fields_text_unbroken(init);
        let l = fields[fields.len() - 1];
        assert(unbroken(l.0) && value_unbroken(l.1));
        lemma_field_text_unbroken(l);
        lemma_concat_unbroken(fields_text(init), seq![',']);
        lemma_concat_unbroken(fields_text(init) + seq![','], field_text(l));
    }
}

/// A line of line protocol has no line break when its name, tags and fields
/// have none, and it is never empty.
pub proof fn lemma_line_text_unbroken(m: MetricView)
    requires
        unbroken(m.name),
        tags_unbroken(m.tags),
        fields_unbroken(m.fields),
    ensures
        unbroken(line_text(m)),
        line_text(m).len() > 0,
{
    lemma_tags_text_unbroken(m.tags);
    lemma_fields_text_unbroken(m.fields);
    lemma_int_text_unbroken(m.timestamp);
    let a = m.name + tags_text(m.tags);
    lemma_concat_unbroken(m.name, tags_text(m.tags));
    lemma_concat_unbroken(a, seq![' ']);
    lemma_concat_unbroken(a + seq![' '], fields_text(m.fields));
    lemma_concat_unbroken(a + seq![' '] + fields_text(m.fields), seq![' ']);
    lemma_concat_unbroken(a + seq![' '] + fields_text(m.fields) + seq![' '], int_text(m.timestamp));
}

proof fn lemma_lower_bound_le<W>(s: Seq<(Seq<char>, W)>, k: Seq<char>)
    ensures
        lower_bound(s, k) <= s.len(),
    decreases s.len(),
{
    if s.len() > 0 {
        lemma_lower_bound_le(s.drop_first(), k);
    }
}

/// Setting a key keeps a property that every entry and the new entry have.
proof fn lemma_entries_insert_all<W>(
    s: Seq<(Seq<char>, W)>,
    k: Seq<char>,
    v: W,
    good: spec_fn((Seq<char>, W)) -> bool,
)
    requires
        forall|i: int| 0 <= i < s.len() ==> good(#[trigger] s[i]),
        good((k, v)),
    ensures
        forall|j: int|
            0 <= j < entries_insert(s, k, v).len() ==> good(#[trigger] entries_insert(s, k, v)[j]),
{
    lemma_lower_bound_le(s, k);
    let i = lower_bound(s, k) as int;
    let r = entries_insert(s, k, v);
    if !(i < s.len() && s[i].0 == k) {
        s.insert_ensures(i, (k, v));
        assert forall|j: int| 0 <= j < r.len() implies good(#[trigger] r[j]) by {
            if j > i {
                assert(r[(j - 1) + 1] == s[j - 1]);
            }
        }
    }
}

proof fn lemma_skip_unbroken(t: Seq<char>, n: int)
    requires
        unbroken(t),
        0 <= n <= t.len(),
    ensures
        unbroken(t.skip(n)),
{
    assert forall|i: int| 0 <= i < t.skip(n).len() implies t.skip(n)[i] != '\n' by {
        assert(t.skip(n)[i] == t[i + n]);
    }
}

/// Applying labels without line breaks to tags and fields without line
/// breaks leaves none.
proof fn lemma_labels_applied_unbroken(
    tags: Seq<(Seq<char>, Seq<char>)>,
    fields: Seq<(Seq<char>, FieldValue)>,
    labels: Seq<(Seq<char>, Seq<char>)>,
)
    requires
        tags_unbroken(tags),
        fields_unbroken(fields),
        tags_unbroken(labels),
    ensures
        tags_unbroken(labels_applied(tags, fields, labels).0),
        fields_unbroken(labels_applied(tags, fields, labels).1),
    decreases labels.len(),
{
    if labels.len() > 0 {
        let init = labels.drop_last();
        assert forall|i: int| 0 <= i < init.len() implies unbroken(#[trigger] init[i].0) && unbroken(
            init[i].1,
        ) by {
            assert(init[i] == labels[i]);
        }
        lemma_labels_applied_unbroken(tags, fields, init);
        let acc = labels_applied(tags, fields, init);
        let l = labels.last();
        assert(unbroken(labels[labels.len() - 1].0));
        assert(unbroken(l.0) && unbroken(l.1));
        let tag_ok = |e: (Seq<char>, Seq<char>)| unbroken(e.0) && unbroken(e.1);
        let field_ok = |e: (Seq<char>, FieldValue)| unbroken(e.0) && value_unbroken(e.1);
        assert forall|i: int| 0 <= i < acc.0.len() implies tag_ok(#[trigger] acc.0[i]) by {
            assert(unbroken(acc.0[i].0));
        }
        assert forall|i: int| 0 <= i < acc.1.len() implies field_ok(#[trigger] acc.1[i]) by {
            assert(unbroken(acc.1[i].0));
        }
        if field_prefix().is_prefix_of(l.0) {
            let f = l.0.skip(field_prefix().len() as int);
            lemma_skip_unbroken(l.0, field_prefix().len() as int);
            lemma_entries_insert_all(acc.1, f, FieldValue::Text(l.1), field_ok);
        } else if tag_prefix().is_prefix_of(l.0) {
            let t = l.0.skip(tag_prefix().len() as int);
            lemma_skip_unbroken(l.0, tag_prefix().len() as int);
            lemma_entries_insert_all(acc.0, t, l.1, tag_ok);
        } else {
            lemma_entries_insert_all(acc.0, l.0, l.1, tag_ok);
        }
    }
}

proof fn lemma_fields_with_unbroken(
    fields: Seq<(Seq<char>, FieldValue)>,
    d: Seq<(Seq<char>, FieldValue)>,
)
    requires
        fields_unbroken(fields),
        fields_unbroken(d),
    ensures
        fields_unbroken(fields_with(fields, d)),
    decreases d.len(),
{
    if d.len() > 0 {
        let init = d.drop_last();
        assert forall|i: int| 0 <= i < init.len() implies unbroken(#[trigger] init[i].0)
            && value_unbroken(init[i].1) by {
            assert(init[i] == d[i]);
        }
        lemma_fields_with_unbroken(fields, init);
        assert(unbroken(d[d.len() - 1].0));
        let field_ok = |e: (Seq<char>, FieldValue)| unbroken(e.0) && value_unbroken(e.1);
        lemma_entries_insert_all(fields_with(fields, init), d.last().0, d.last().1, field_ok);
    }
}

/// A metric key whose name and labels have no line break.
pub open spec fn key_unbroken(k: KeyView) -> bool {
    unbroken(k.name) && tags_unbroken(k.labels)
}

/// A snapshot whose metric names, labels, text and float values and
/// distribution fields have no line break.
pub open spec fn snapshot_unbroken(s: SnapshotView) -> bool {
    &&& forall|i: int|
        0 <= i < s.gauges.len() ==> key_unbroken(#[trigger] s.gauges[i].0) && value_unbroken(
            s.gauges[i].1,
        )
    &&& forall|i: int|
        0 <= i < s.registrations.len() ==> key_unbroken(#[trigger] s.registrations[i])
    &&& forall|i: int| 0 <= i < s.counters.len() ==> key_unbroken(#[trigger] s.counters[i].0)
    &&& forall|i: int|
        0 <= i < s.histograms.len() ==> key_unbroken(#[trigger] s.histograms[i].0) && (
        s.histograms[i].1 matches Some(d) ==> fields_unbroken(d))
}

/// Text that is a line: nonempty and without a line break.
pub open spec fn is_line(t: Seq<char>) -> bool {
    t.len() > 0 && unbroken(t)
}

proof fn lemma_point_lines_unbroken(
    tags: Seq<(Seq<char>, Seq<char>)>,
    fields: Seq<(Seq<char>, FieldValue)>,
    s: SnapshotView,
    now: int,
)
    requires
        tags_unbroken(tags),
        fields_unbroken(fields),
        snapshot_unbroken(s),
    ensures
        forall|p: int|
            0 <= p < point_lines(tags, fields, point_entries(s), now).len() ==> is_line(
                #[trigger] point_lines(tags, fields, point_entries(s), now)[p],
            ),
{
    let e = point_entries(s);
    let ng = s.gauges.len() as int;
    let nr = s.registrations.len() as int;
    assert forall|p: int| 0 <= p < e.len() implies key_unbroken(#[trigger] e[p].0) && value_unbroken(
        e[p].1,
    ) by {
        if p < ng {
            assert(e[p] == s.gauges[p]);
        } else if p < ng + nr {
            assert(e[p].0 == s.registrations[p - ng]);
        } else {
            assert(e[p].0 == s.counters[p - ng - nr].0);
        }
    }
    assert forall|p: int| 0 <= p < e.len() implies is_line(
        #[trigger] point_lines(tags, fields, e, now)[p],
    ) by {
        let k = e[p].0;
        assert(key_unbroken(k) && value_unbroken(e[p].1));
        lemma_labels_applied_unbroken(tags, fields, k.labels);
        let tf = labels_applied(tags, fields, k.labels);
        let field_ok = |x: (Seq<char>, FieldValue)| unbroken(x.0) && value_unbroken(x.1);
        assert(unbroken(value_field()));
        lemma_entries_insert_all(tf.1, value_field(), e[p].1, field_ok);
        lemma_line_text_unbroken(point_metric(tags, fields, e, p, now));
    }
}

proof fn lemma_histogram_lines_unbroken(
    tags: Seq<(Seq<char>, Seq<char>)>,
    fields: Seq<(Seq<char>, FieldValue)>,
    hs: Seq<(KeyView, Option<Seq<(Seq<char>, FieldValue)>>)>,
    now: int,
)
    requires
        tags_unbroken(tags),
        fields_unbroken(fields),
        forall|i: int|
            0 <= i < hs.len() ==> key_unbroken(#[trigger] hs[i].0) && (hs[i].1 matches Some(d)
                ==> fields_unbroken(d)),
    ensures
        forall|p: int|
            0 <= p < histogram_lines(tags, fields, hs, now).len() ==> is_line(
                #[trigger] histogram_lines(tags, fields, hs, now)[p],
            ),
    decreases hs.len(),
{
    if hs.len() > 0 {
        let init = hs.drop_last();
        assert forall|i: int| 0 <= i < init.len() implies key_unbroken(#[trigger] init[i].0) && (
        init[i].1 matches Some(d) ==> fields_unbroken(d)) by {
            assert(init[i] == hs[i]);
        }
        lemma_histogram_lines_unbroken(tags, fields, init, now);
        let h = hs.last();
        assert(key_unbroken(hs[hs.len() - 1].0));
        if let Some(d) = h.1 {
            lemma_labels_applied_unbroken(tags, fields, h.0.labels);
            lemma_fields_with_unbroken(labels_applied(tags, fields, h.0.labels).1, d);
            lemma_line_text_unbroken(histogram_metric(tags, fields, h.0, d, now));
            let rest = histogram_lines(tags, fields, init, now);
            let all = histogram_lines(tags, fields, hs, now);
            assert(all == rest.push(line_text(histogram_metric(tags, fields, h.0, d, now))));
            assert forall|p: int| 0 <= p < all.len() implies is_line(#[trigger] all[p]) by {
                if p < rest.len() {
                    assert(all[p] == rest[p]);
                }
            }
        }
    }
}

/// Text of `n` lines: empty when `n` is zero; otherwise splitting it at its
/// line breaks gives `n` nonempty lines in lexicographic order, and it does
/// not end in a line break.
pub open spec fn rendered_as_lines(n: int, text: Seq<char>) -> bool {
    if n == 0 {
        text.len() == 0
    } else {
        &&& split_on_newline(text).len() == n
        &&& forall|i: int|
            0 <= i < split_on_newline(text).len() ==> is_line(#[trigger] split_on_newline(text)[i])
        &&& sorted_by(split_on_newline(text), |a: Seq<char>, b: Seq<char>| lex_le(a, b))
        &&& text.len() > 0
        &&& text.last() != '\n'
    }
}

/// When no name, label, global tag or field, text or float value, or
/// distribution field has a line break, the rendered text is its sorted
/// lines, one per point and per reporting histogram, separated by single
/// line breaks: splitting it at its line breaks gives exactly those lines,
/// none of them empty, and it does not end in a line break. With no lines the
/// text is empty.
pub proof fn law_rendered_text_splits_into_its_lines(
    tags: Seq<(Seq<char>, Seq<char>)>,
    fields: Seq<(Seq<char>, FieldValue)>,
    s: SnapshotView,
    now: int,
)
    requires
        tags_unbroken(tags),
        fields_unbroken(fields),
        snapshot_unbroken(s),
    ensures
        rendered_as_lines(
            snapshot_lines(tags, fields, s, now).len() as int,
            snapshot_text(tags, fields, s, now),
        ),
        snapshot_lines(tags, fields, s, now).len() > 0 ==> split_on_newline(
            snapshot_text(tags, fields, s, now),
        ) == sorted_lines(snapshot_lines(tags, fields, s, now)),
{
    let all = snapshot_lines(tags, fields, s, now);
    let lines = sorted_lines(all);
    let pl = point_lines(tags, fields, point_entries(s), now);
    let hl = histogram_lines(tags, fields, s.histograms, now);
    lemma_point_lines_unbroken(tags, fields, s, now);
    lemma_histogram_lines_unbroken(tags, fields, s.histograms, now);
    assert forall|i: int| 0 <= i < all.len() implies is_line(#[trigger] all[i]) by {
        if i < pl.len() {
            assert(all[i] == pl[i]);
        } else {
            assert(all[i] == hl[i - pl.len()]);
        }
    }
    lemma_sorted_lines(all);
    assert forall|i: int| 0 <= i < lines.len() implies is_line(#[trigger] lines[i]) by {
        broadcast use vstd::seq_lib::group_to_multiset_ensures;

        assert(lines.contains(lines[i]));
        assert(lines.to_multiset().count(lines[i]) > 0);
        assert(all.contains(lines[i]));
        let j = choose|j: int| 0 <= j < all.len() && all[j] == lines[i];
        assert(is_line(all[j]));
    }
    if lines.len() > 0 {
        lemma_split_join(lines);
        assert(is_line(lines[lines.len() - 1]));
        lemma_join_last(lines);
    }
}

/// Metric keys throughout a snapshot whose names and labels have no line
/// break.
pub open spec fn keys_unbroken(s: SnapshotView) -> bool {
    &&& forall|i: int| 0 <= i < s.gauges.len() ==> key_unbroken(#[trigger] s.gauges[i].0)
    &&& forall|i: int|
        0 <= i < s.registrations.len() ==> key_unbroken(#[trigger] s.registrations[i])
    &&& forall|i: int| 0 <= i < s.counters.len() ==> key_unbroken(#[trigger] s.counters[i].0)
    &&& forall|i: int| 0 <= i < s.histograms.len() ==> key_unbroken(#[trigger] s.histograms[i].0)
}

/// In a snapshot, only names and labels can hold a line break: gauge values
/// and distribution fields are tokens.
pub proof fn lemma_snapshot_unbroken(s: Snapshot)
    requires
        keys_unbroken(s@),
    ensures
        snapshot_unbroken(s@),
{
    let v = s@;
    assert forall|i: int| 0 <= i < v.gauges.len() implies key_unbroken(#[trigger] v.gauges[i].0)
        && value_unbroken(v.gauges[i].1) by {
        assert(v.gauges[i].1 == FieldValue::Float(s.gauges@[i].1@));
        lemma_token_unbroken(s.gauges@[i].1);
    }
    assert forall|i: int| 0 <= i < v.histograms.len() implies key_unbroken(
        #[trigger] v.histograms[i].0,
    ) && (v.histograms[i].1 matches Some(d) ==> fields_unbroken(d)) by {
        if let Some(dd) = s.histograms@[i].1 {
            let d = dist_view(dd@);
            assert(v.histograms[i].1 == Some(d));
            assert forall|j: int| 0 <= j < d.len() implies unbroken(#[trigger] d[j].0)
                && value_unbroken(d[j].1) by {
                assert(d[j] == (dd@[j].0@, dd@[j].1@));
                lemma_token_unbroken(dd@[j].0);
                if let Number::Float(t) = dd@[j].1 {
                    lemma_token_unbroken(t);
                }
            }
        }
    }
}
} // verus!
