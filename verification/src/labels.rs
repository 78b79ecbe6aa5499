//! Metric keys and the split of their labels into tags and fields.
use vstd::prelude::*;

use crate::data::{FieldValue, MetricData};
use crate::smap::{
    entries_insert, entries_lookup, keys_sorted, lemma_entries_insert_other, lemma_entries_insert_same,
    lemma_entries_insert_sorted, StrMap,
};
use crate::text::{compare_text, lex_lt, strip_prefix, TextOrder};

verus! {

/// A label as plain text: key and value.
pub open spec fn label_view(l: (String, String)) -> (Seq<char>, Seq<char>) {
    (l.0@, l.1@)
}

/// The identity of a metric: its name and its labels, in order.
pub struct MetricKey {
    pub name: String,
    pub labels: Vec<(String, String)>,
}

/// The abstract content of a metric key.
pub struct KeyView {
    pub name: Seq<char>,
    pub labels: Seq<(Seq<char>, Seq<char>)>,
}

impl View for MetricKey {
    type V = KeyView;

    open spec fn view(&self) -> KeyView {
        KeyView { name: self.name@, labels: self.labels@.map_values(|l: (String, String)| label_view(l)) }
    }
}

/// The labels with `x` placed after every leading label whose key is not above
/// `x`'s key: one step of a stable sort by label key.
pub open spec fn insert_by_key(
    s: Seq<(Seq<char>, Seq<char>)>,
    x: (Seq<char>, Seq<char>),
) -> Seq<(Seq<char>, Seq<char>)>
    decreases s.len(),
{
    if s.len() == 0 {
        seq![x]
    } else if lex_lt(x.0, s[0].0) {
        seq![x] + s
    } else {
        seq![s[0]] + insert_by_key(s.drop_first(), x)
    }
}

/// The labels stably sorted by key (labels with equal keys keep their order).
pub open spec fn sort_by_label_key(s: Seq<(Seq<char>, Seq<char>)>) -> Seq<(Seq<char>, Seq<char>)>
    decreases s.len(),
{
    if s.len() == 0 {
        s
    } else {
        insert_by_key(sort_by_label_key(s.drop_last()), s.last())
    }
}

proof fn lemma_insert_by_key_len(s: Seq<(Seq<char>, Seq<char>)>, x: (Seq<char>, Seq<char>))
    ensures
        insert_by_key(s, x).len() == s.len() + 1,
    decreases s.len(),
{
    if s.len() > 0 && !lex_lt(x.0, s[0].0) {
        lemma_insert_by_key_len(s.drop_first(), x);
    }
}

/// Sorting by key keeps the number of labels.
proof fn lemma_sort_by_label_key_len(s: Seq<(Seq<char>, Seq<char>)>)
    ensures
        sort_by_label_key(s).len() == s.len(),
    decreases s.len(),
{
    if s.len() > 0 {
        lemma_sort_by_label_key_len(s.drop_last());
        lemma_insert_by_key_len(sort_by_label_key(s.drop_last()), s.last());
    }
}

/// When two label lists denote the same labels, as `metrics::Key` compares
/// them: equal lengths, and then equal for one label, equal or swapped for
/// two, and equal after a stable sort by label key for three or more.
pub open spec fn labels_match(a: Seq<(Seq<char>, Seq<char>)>, b: Seq<(Seq<char>, Seq<char>)>) -> bool {
    &&& a.len() == b.len()
    &&& if a.len() == 0 {
        true
    } else if a.len() == 1 {
        a[0] == b[0]
    } else if a.len() == 2 {
        (a[0] == b[0] && a[1] == b[1]) || (a[0] == b[1] && a[1] == b[0])
    } else {
        sort_by_label_key(a) == sort_by_label_key(b)
    }
}

/// Two keys identify the same metric: equal names and matching labels.
pub open spec fn same_key(a: KeyView, b: KeyView) -> bool {
    a.name == b.name && labels_match(a.labels, b.labels)
}

/// `same_key` is an equivalence.
pub proof fn lemma_same_key_equivalence(a: KeyView, b: KeyView, c: KeyView)
    ensures
        same_key(a, a),
        same_key(a, b) ==> same_key(b, a),
        same_key(a, b) && same_key(b, c) ==> same_key(a, c),
{
}

/// Inserting by key where the scan stops is inserting at that position.
proof fn lemma_insert_by_key_at(
    s: Seq<(Seq<char>, Seq<char>)>,
    x: (Seq<char>, Seq<char>),
    pos: int,
)
    requires
        0 <= pos <= s.len(),
        forall|j: int| 0 <= j < pos ==> !lex_lt(x.0, #[trigger] s[j].0),
        pos < s.len() ==> lex_lt(x.0, s[pos].0),
    ensures
        insert_by_key(s, x) == s.insert(pos, x),
    decreases s.len(),
{
    if s.len() == 0 {
        assert(s.insert(pos, x) =~= seq![x]);
    } else if pos == 0 {
        assert(s.insert(pos, x) =~= seq![x] + s);
    } else {
        let t = s.drop_first();
        assert forall|j: int| 0 <= j < pos - 1 implies !lex_lt(x.0, #[trigger] t[j].0) by {
            assert(t[j] == s[j + 1]);
        }
        assert(!lex_lt(x.0, s[0].0));
        lemma_insert_by_key_at(t, x, pos - 1);
        assert(s.insert(pos, x) =~= seq![s[0]] + t.insert(pos - 1, x));
    }
}

/// The labels stably sorted by key.
fn labels_by_key(labels: &Vec<(String, String)>) -> (r: Vec<(String, String)>)
    ensures
        r@.map_values(|l: (String, String)| label_view(l)) == sort_by_label_key(
            labels@.map_values(|l: (String, String)| label_view(l)),
        ),
{
    let ghost lv = labels@.map_values(|l: (String, String)| label_view(l));
    let mut out: Vec<(String, String)> = Vec::new();
    let mut i: usize = 0;
    assert(lv.take(0) =~= Seq::<(Seq<char>, Seq<char>)>::empty());
    while i < labels.len()
        invariant
            i <= labels.len(),
            lv == labels@.map_values(|l: (String, String)| label_view(l)),
            out@.map_values(|l: (String, String)| label_view(l)) == sort_by_label_key(
                lv.take(i as int),
            ),
        decreases labels.len() - i,
    {
        let x = &labels[i];
        let ghost ov = out@.map_values(|l: (String, String)| label_view(l));
        let mut pos: usize = 0;
        while pos < out.len() && compare_text(x.0.as_str(), out[pos].0.as_str())
            != TextOrder::Less
            invariant
                pos <= out.len(),
                ov == out@.map_values(|l: (String, String)| label_view(l)),
                forall|j: int| 0 <= j < pos ==> !lex_lt(x.0@, #[trigger] ov[j].0),
            decreases out.len() - pos,
        {
            pos = pos + 1;
        }
        proof {
            lemma_insert_by_key_at(ov, label_view(*x), pos as int);
            let t = lv.take(i + 1);
            assert(t.drop_last() =~= lv.take(i as int));
            assert(t.last() == label_view(*x));
        }
        out.insert(pos, (x.0.clone(), x.1.clone()));
        assert(out@.map_values(|l: (String, String)| label_view(l)) =~= ov.insert(
            pos as int,
            label_view(*x),
        ));
        i = i + 1;
    }
    assert(lv.take(i as int) =~= lv);
    out
}

/// Whether two labels are equal.
fn label_eq(a: &(String, String), b: &(String, String)) -> (r: bool)
    ensures
        r == (label_view(*a) == label_view(*b)),
{
    a.0 == b.0 && a.1 == b.1
}

impl MetricKey {
    /// Whether two keys identify the same metric, as `metrics::Key`'s `==`
    /// decides: equal names, and labels that match regardless of order.
    pub fn same_as(&self, other: &MetricKey) -> (r: bool)
        ensures
            r == same_key(self@, other@),
    {
        if self.name != other.name || self.labels.len() != other.labels.len() {
            assert(self.labels.len() != other.labels.len() ==> self@.labels.len()
                != other@.labels.len());
            return false;
        }
        let n = self.labels.len();
        if n == 0 {
            return true;
        } else if n == 1 {
            return label_eq(&self.labels[0], &other.labels[0]);
        } else if n == 2 {
            return (label_eq(&self.labels[0], &other.labels[0]) && label_eq(
                &self.labels[1],
                &other.labels[1],
            )) || (label_eq(&self.labels[0], &other.labels[1]) && label_eq(
                &self.labels[1],
                &other.labels[0],
            ));
        }
        let a = labels_by_key(&self.labels);
        let b = labels_by_key(&other.labels);
        let ghost av = a@.map_values(|l: (String, String)| label_view(l));
        let ghost bv = b@.map_values(|l: (String, String)| label_view(l));
        proof {
            lemma_sort_by_label_key_len(self@.labels);
            lemma_sort_by_label_key_len(other@.labels);
        }
        let mut i: usize = 0;
        while i < a.len()
            invariant
                a.len() == b.len(),
                i <= a.len(),
                av == a@.map_values(|l: (String, String)| label_view(l)),
                bv == b@.map_values(|l: (String, String)| label_view(l)),
                av == sort_by_label_key(self@.labels),
                bv == sort_by_label_key(other@.labels),
                self@.labels.len() == other@.labels.len(),
                self@.labels.len() >= 3,
                forall|j: int| 0 <= j < i ==> av[j] == bv[j],
            decreases a.len() - i,
        {
            if !label_eq(&a[i], &b[i]) {
                assert(av[i as int] != bv[i as int]);
                return false;
            }
            i = i + 1;
        }
        assert(av =~= bv);
        true
    }

    /// A copy of the key.
    pub fn duplicate(&self) -> (r: MetricKey)
        ensures
            r@ == self@,
    {
        let mut labels: Vec<(String, String)> = Vec::new();
        let mut i: usize = 0;
        while i < self.labels.len()
            invariant
                i <= self.labels.len(),
                labels@.len() == i,
                forall|j: int| 0 <= j < i ==> label_view(#[trigger] labels@[j]) == label_view(
                    self.labels@[j],
                ),
            decreases self.labels.len() - i,
        {
            let l = &self.labels[i];
            labels.push((l.0.clone(), l.1.clone()));
            i = i + 1;
        }
        let r = MetricKey { name: self.name.clone(), labels };
        assert(r@.labels =~= self@.labels);
        r
    }
}

/// The prefix that turns a label into a field.
pub open spec fn field_prefix() -> Seq<char> {
    seq!['f', 'i', 'e', 'l', 'd', ':']
}

/// The prefix that marks a label explicitly as a tag.
pub open spec fn tag_prefix() -> Seq<char> {
    seq!['t', 'a', 'g', ':']
}

/// Tags and fields after one more label: `field:name` sets text field `name`,
/// `tag:name` sets tag `name`, any other key sets the tag of that key.
pub open spec fn apply_label(
    acc: (Seq<(Seq<char>, Seq<char>)>, Seq<(Seq<char>, FieldValue)>),
    label: (Seq<char>, Seq<char>),
) -> (Seq<(Seq<char>, Seq<char>)>, Seq<(Seq<char>, FieldValue)>) {
    let k = label.0;
    let v = label.1;
    if field_prefix().is_prefix_of(k) {
        (acc.0, entries_insert(acc.1, k.skip(field_prefix().len() as int), FieldValue::Text(v)))
    } else if tag_prefix().is_prefix_of(k) {
        (entries_insert(acc.0, k.skip(tag_prefix().len() as int), v), acc.1)
    } else {
        (entries_insert(acc.0, k, v), acc.1)
    }
}

/// Tags and fields after applying the labels in order to the given ones.
pub open spec fn labels_applied(
    tags: Seq<(Seq<char>, Seq<char>)>,
    fields: Seq<(Seq<char>, FieldValue)>,
    labels: Seq<(Seq<char>, Seq<char>)>,
) -> (Seq<(Seq<char>, Seq<char>)>, Seq<(Seq<char>, FieldValue)>)
    decreases labels.len(),
{
    if labels.len() == 0 {
        (tags, fields)
    } else {
        apply_label(labels_applied(tags, fields, labels.drop_last()), labels.last())
    }
}

/// Applying labels to sorted tags and fields keeps them sorted.
pub proof fn lemma_labels_applied_sorted(
    tags: Seq<(Seq<char>, Seq<char>)>,
    fields: Seq<(Seq<char>, FieldValue)>,
    labels: Seq<(Seq<char>, Seq<char>)>,
)
    requires
        keys_sorted(tags),
        keys_sorted(fields),
    ensures
        keys_sorted(labels_applied(tags, fields, labels).0),
        keys_sorted(labels_applied(tags, fields, labels).1),
    decreases labels.len(),
{
    if labels.len() > 0 {
        lemma_labels_applied_sorted(tags, fields, labels.drop_last());
        let acc = labels_applied(tags, fields, labels.drop_last());
        let k = labels.last().0;
        let v = labels.last().1;
        lemma_entries_insert_sorted(acc.1, k.skip(field_prefix().len() as int), FieldValue::Text(v));
        lemma_entries_insert_sorted(acc.0, k.skip(tag_prefix().len() as int), v);
        lemma_entries_insert_sorted(acc.0, k, v);
    }
}

/// Where the last label lands: `field:name=v` sets text field `name` to `v`
/// and leaves the tags; `tag:name=v` sets tag `name`; any other `key=v` sets
/// tag `key`; the last two leave the fields.
pub proof fn law_label_placement(
    tags: Seq<(Seq<char>, Seq<char>)>,
    fields: Seq<(Seq<char>, FieldValue)>,
    labels: Seq<(Seq<char>, Seq<char>)>,
    k: Seq<char>,
    v: Seq<char>,
)
    requires
        keys_sorted(tags),
        keys_sorted(fields),
    ensures
        ({
            let before = labels_applied(tags, fields, labels);
            let after = labels_applied(tags, fields, labels.push((k, v)));
            if field_prefix().is_prefix_of(k) {
                &&& entries_lookup(after.1, k.skip(field_prefix().len() as int)) == Some(
                    FieldValue::Text(v),
                )
                &&& after.0 == before.0
            } else if tag_prefix().is_prefix_of(k) {
                &&& entries_lookup(after.0, k.skip(tag_prefix().len() as int)) == Some(v)
                &&& after.1 == before.1
            } else {
                &&& entries_lookup(after.0, k) == Some(v)
                &&& after.1 == before.1
            }
        }),
{
    lemma_labels_applied_sorted(tags, fields, labels);
    let before = labels_applied(tags, fields, labels);
    assert(labels.push((k, v)).drop_last() =~= labels);
    lemma_entries_insert_same(before.1, k.skip(field_prefix().len() as int), FieldValue::Text(v));
    lemma_entries_insert_same(before.0, k.skip(tag_prefix().len() as int), v);
    lemma_entries_insert_same(before.0, k, v);
}

/// Whether label `l` sets tag `t`: a `tag:t` label, or a plain `t` label.
pub open spec fn sets_tag(l: (Seq<char>, Seq<char>), t: Seq<char>) -> bool {
    if field_prefix().is_prefix_of(l.0) {
        false
    } else if tag_prefix().is_prefix_of(l.0) {
        l.0.skip(tag_prefix().len() as int) == t
    } else {
        l.0 == t
    }
}

/// Whether label `l` sets field `f`: a `field:f` label.
pub open spec fn sets_field(l: (Seq<char>, Seq<char>), f: Seq<char>) -> bool {
    field_prefix().is_prefix_of(l.0) && l.0.skip(field_prefix().len() as int) == f
}

/// Whether some label of the list sets tag `t`.
pub open spec fn labels_set_tag(labels: Seq<(Seq<char>, Seq<char>)>, t: Seq<char>) -> bool {
    exists|i: int| 0 <= i < labels.len() && sets_tag(#[trigger] labels[i], t)
}

/// Whether some label of the list sets field `f`.
pub open spec fn labels_set_field(labels: Seq<(Seq<char>, Seq<char>)>, f: Seq<char>) -> bool {
    exists|i: int| 0 <= i < labels.len() && sets_field(#[trigger] labels[i], f)
}

/// A global tag or field keeps its value on a metric unless one of the
/// metric's labels sets that key, in which case the label wins.
pub proof fn law_globals_kept_unless_labelled(
    tags: Seq<(Seq<char>, Seq<char>)>,
    fields: Seq<(Seq<char>, FieldValue)>,
    labels: Seq<(Seq<char>, Seq<char>)>,
    t: Seq<char>,
    f: Seq<char>,
)
    requires
        keys_sorted(tags),
        keys_sorted(fields),
    ensures
        !labels_set_tag(labels, t) ==> entries_lookup(labels_applied(tags, fields, labels).0, t)
            == entries_lookup(tags, t),
        !labels_set_field(labels, f) ==> entries_lookup(labels_applied(tags, fields, labels).1, f)
            == entries_lookup(fields, f),
    decreases labels.len(),
{
    if labels.len() > 0 {
        let init = labels.drop_last();
        let l = labels.last();
        assert(l == labels[labels.len() - 1]);
        if !labels_set_tag(labels, t) {
            assert forall|i: int| 0 <= i < init.len() implies !sets_tag(#[trigger] init[i], t) by {
                assert(init[i] == labels[i]);
            }
        }
        if !labels_set_field(labels, f) {
            assert forall|i: int| 0 <= i < init.len() implies !sets_field(#[trigger] init[i], f) by {
                assert(init[i] == labels[i]);
            }
        }
        law_globals_kept_unless_labelled(tags, fields, init, t, f);
        lemma_labels_applied_sorted(tags, fields, init);
        let acc = labels_applied(tags, fields, init);
        if field_prefix().is_prefix_of(l.0) {
            if l.0.skip(field_prefix().len() as int) != f {
                lemma_entries_insert_other(acc.1, l.0.skip(field_prefix().len() as int), FieldValue::Text(l.1), f);
            }
        } else if tag_prefix().is_prefix_of(l.0) {
            if l.0.skip(tag_prefix().len() as int) != t {
                lemma_entries_insert_other(acc.0, l.0.skip(tag_prefix().len() as int), l.1, t);
            }
        } else {
            if l.0 != t {
                lemma_entries_insert_other(acc.0, l.0, l.1, t);
            }
        }
    }
}

/// Splits the labels of a metric into tags and fields, starting from the
/// global tags and fields; later labels override earlier values.
pub fn parse_labels(
    global_tags: StrMap<String>,
    global_fields: StrMap<MetricData>,
    labels: &Vec<(String, String)>,
) -> (r: (StrMap<String>, StrMap<MetricData>))
    ensures
        (r.0@, r.1@) == labels_applied(
            global_tags@,
            global_fields@,
            labels@.map_values(|l: (String, String)| label_view(l)),
        ),
{
    let ghost lv = labels@.map_values(|l: (String, String)| label_view(l));
    let mut tags = global_tags;
    let mut fields = global_fields;
    let mut i: usize = 0;
    while i < labels.len()
        invariant
            i <= labels.len(),
            lv == labels@.map_values(|l: (String, String)| label_view(l)),
            (tags@, fields@) == labels_applied(global_tags@, global_fields@, lv.take(i as int)),
        decreases labels.len() - i,
    {
        let (k, v) = &labels[i];
        let ghost before = (tags@, fields@);
        proof {
            reveal_strlit("field:");
            reveal_strlit("tag:");
            assert(lv.take(i + 1).drop_last() =~= lv.take(i as int));
            assert(lv.take(i + 1).last() == (k@, v@));
        }
        match strip_prefix(k.as_str(), "field:") {
            Some(stripped) => {
                assert("field:"@ =~= field_prefix());
                fields.insert(stripped, MetricData::String(v.clone()));
            },
            None => {
                assert("field:"@ =~= field_prefix());
                match strip_prefix(k.as_str(), "tag:") {
                    Some(stripped) => {
                        assert("tag:"@ =~= tag_prefix());
                        tags.insert(stripped, v.clone());
                    },
                    None => {
                        assert("tag:"@ =~= tag_prefix());
                        tags.insert(k.clone(), v.clone());
                    },
                }
            },
        }
        i = i + 1;
    }
    assert(lv.take(i as int) =~= lv);
    (tags, fields)
}

} // verus!
