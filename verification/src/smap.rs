//! A finite map from text keys to values, kept as a key-sorted list of entries.
use vstd::prelude::*;

use crate::text::{compare_text, lemma_lex_lt_connected, lemma_lex_lt_irreflexive, lemma_lex_lt_transitive, lex_lt, TextOrder};

verus! {

/// Values that can be duplicated with the same view.
pub trait Duplicate: View + Sized {
    fn duplicate(&self) -> (r: Self)
        ensures
            r@ == self@,
    ;
}

impl Duplicate for String {
    fn duplicate(&self) -> (r: String) {
        self.clone()
    }
}

/// Keys strictly increase along the entries (so no key occurs twice).
pub open spec fn keys_sorted<W>(s: Seq<(Seq<char>, W)>) -> bool {
    forall|i: int, j: int| 0 <= i < j < s.len() ==> lex_lt(#[trigger] s[i].0, #[trigger] s[j].0)
}

/// The number of leading entries whose key is below `k`.
pub open spec fn lower_bound<W>(s: Seq<(Seq<char>, W)>, k: Seq<char>) -> nat
    decreases s.len(),
{
    if s.len() == 0 {
        0
    } else if lex_lt(s[0].0, k) {
        1 + lower_bound(s.drop_first(), k)
    } else {
        0
    }
}

/// The entries after setting key `k` to `v`: an existing entry for `k` is
/// replaced in place, otherwise a new entry goes where `k` sorts.
pub open spec fn entries_insert<W>(s: Seq<(Seq<char>, W)>, k: Seq<char>, v: W) -> Seq<
    (Seq<char>, W),
> {
    let i = lower_bound(s, k) as int;
    if i < s.len() && s[i].0 == k {
        s.update(i, (k, v))
    } else {
        s.insert(i, (k, v))
    }
}

/// The value stored for key `k`, if any.
pub open spec fn entries_lookup<W>(s: Seq<(Seq<char>, W)>, k: Seq<char>) -> Option<W>
    decreases s.len(),
{
    if s.len() == 0 {
        None
    } else if s[0].0 == k {
        Some(s[0].1)
    } else {
        entries_lookup(s.drop_first(), k)
    }
}

/// Where `lower_bound` stands in a sorted list.
pub proof fn lemma_lower_bound<W>(s: Seq<(Seq<char>, W)>, k: Seq<char>)
    requires
        keys_sorted(s),
    ensures
        lower_bound(s, k) <= s.len(),
        forall|j: int| 0 <= j < lower_bound(s, k) ==> lex_lt(#[trigger] s[j].0, k),
        lower_bound(s, k) < s.len() ==> !lex_lt(s[lower_bound(s, k) as int].0, k),
    decreases s.len(),
{
    if s.len() > 0 && lex_lt(s[0].0, k) {
        let t = s.drop_first();
        assert(keys_sorted(t)) by {
            assert forall|i: int, j: int| 0 <= i < j < t.len() implies lex_lt(
                #[trigger] t[i].0,
                #[trigger] t[j].0,
            ) by {
                assert(t[i] == s[i + 1] && t[j] == s[j + 1]);
            }
        }
        lemma_lower_bound(t, k);
        assert forall|j: int| 0 <= j < lower_bound(s, k) implies lex_lt(#[trigger] s[j].0, k) by {
            if j > 0 {
                assert(s[j] == t[j - 1]);
            }
        }
    }
}

/// Dropping the first entry keeps the keys sorted.
proof fn lemma_sorted_drop_first<W>(s: Seq<(Seq<char>, W)>)
    requires
        keys_sorted(s),
        s.len() > 0,
    ensures
        keys_sorted(s.drop_first()),
{
    let t = s.drop_first();
    assert forall|i: int, j: int| 0 <= i < j < t.len() implies lex_lt(
        #[trigger] t[i].0,
        #[trigger] t[j].0,
    ) by {
        assert(t[i] == s[i + 1] && t[j] == s[j + 1]);
    }
}

/// In a sorted list, lookup finds the value of the entry whose key matches.
pub proof fn lemma_lookup_at<W>(s: Seq<(Seq<char>, W)>, k: Seq<char>, i: int)
    requires
        keys_sorted(s),
        0 <= i < s.len(),
        s[i].0 == k,
    ensures
        entries_lookup(s, k) == Some(s[i].1),
    decreases s.len(),
{
    if i > 0 {
        if s[0].0 == k {
            assert(lex_lt(s[0].0, s[i].0));
            lemma_lex_lt_irreflexive(k);
        }
        lemma_sorted_drop_first(s);
        assert(s.drop_first()[i - 1] == s[i]);
        lemma_lookup_at(s.drop_first(), k, i - 1);
    }
}

/// Lookup of a key that no entry has gives nothing.
pub proof fn lemma_lookup_absent<W>(s: Seq<(Seq<char>, W)>, k: Seq<char>)
    requires
        forall|i: int| 0 <= i < s.len() ==> (#[trigger] s[i]).0 != k,
    ensures
        entries_lookup(s, k) is None,
    decreases s.len(),
{
    if s.len() > 0 {
        let t = s.drop_first();
        assert forall|i: int| 0 <= i < t.len() implies (#[trigger] t[i]).0 != k by {
            assert(t[i] == s[i + 1]);
        }
        lemma_lookup_absent(t, k);
    }
}

/// Setting a key keeps the keys sorted.
pub proof fn lemma_entries_insert_sorted<W>(s: Seq<(Seq<char>, W)>, k: Seq<char>, v: W)
    requires
        keys_sorted(s),
    ensures
        keys_sorted(entries_insert(s, k, v)),
{
    lemma_lower_bound(s, k);
    let i = lower_bound(s, k) as int;
    let r = entries_insert(s, k, v);
    if i < s.len() && s[i].0 == k {
        assert forall|a: int, b: int| 0 <= a < b < r.len() implies lex_lt(
            #[trigger] r[a].0,
            #[trigger] r[b].0,
        ) by {
            assert(r[a].0 == s[a].0 && r[b].0 == s[b].0);
        }
    } else {
        if i < s.len() {
            lemma_lex_lt_connected(s[i].0, k);
        }
        assert forall|a: int, b: int| 0 <= a < b < r.len() implies lex_lt(
            #[trigger] r[a].0,
            #[trigger] r[b].0,
        ) by {
            if b < i {
            } else if b == i {
            } else if a < i {
                assert(r[b] == s[b - 1]);
                if b - 1 > i {
                    assert(lex_lt(s[i].0, s[b - 1].0));
                    lemma_lex_lt_transitive(k, s[i].0, s[b - 1].0);
                }
                lemma_lex_lt_transitive(s[a].0, k, s[b - 1].0);
            } else if a == i {
                assert(r[b] == s[b - 1]);
                if b - 1 > i {
                    assert(lex_lt(s[i].0, s[b - 1].0));
                    lemma_lex_lt_transitive(k, s[i].0, s[b - 1].0);
                }
            } else {
                assert(r[a] == s[a - 1] && r[b] == s[b - 1]);
            }
        }
    }
}

/// After setting a key, it maps to the new value.
pub proof fn lemma_entries_insert_same<W>(s: Seq<(Seq<char>, W)>, k: Seq<char>, v: W)
    requires
        keys_sorted(s),
    ensures
        entries_lookup(entries_insert(s, k, v), k) == Some(v),
{
    lemma_lower_bound(s, k);
    lemma_entries_insert_sorted(s, k, v);
    let i = lower_bound(s, k) as int;
    lemma_lookup_at(entries_insert(s, k, v), k, i);
}

/// Setting a key leaves every other key's value as it was.
pub proof fn lemma_entries_insert_other<W>(
    s: Seq<(Seq<char>, W)>,
    k: Seq<char>,
    v: W,
    k2: Seq<char>,
)
    requires
        keys_sorted(s),
        k2 != k,
    ensures
        entries_lookup(entries_insert(s, k, v), k2) == entries_lookup(s, k2),
{
    lemma_lower_bound(s, k);
    lemma_entries_insert_sorted(s, k, v);
    let i = lower_bound(s, k) as int;
    let r = entries_insert(s, k, v);
    let replaced = i < s.len() && s[i].0 == k;
    if exists|j: int| 0 <= j < s.len() && s[j].0 == k2 {
        let j = choose|j: int| 0 <= j < s.len() && s[j].0 == k2;
        let jr = if replaced || j < i {
            j
        } else {
            j + 1
        };
        assert(r[jr] == s[j]);
        lemma_lookup_at(s, k2, j);
        lemma_lookup_at(r, k2, jr);
    } else {
        assert forall|c: int| 0 <= c < r.len() implies (#[trigger] r[c]).0 != k2 by {
            if c != i {
                if replaced || c < i {
                    assert(r[c] == s[c]);
                } else {
                    assert(r[c] == s[c - 1]);
                }
            }
        }
        lemma_lookup_absent(s, k2);
        lemma_lookup_absent(r, k2);
    }
}

/// `lower_bound` is the position before which every key is below `k` and at
/// which (if anywhere) a key not below `k` stands.
proof fn lemma_lower_bound_at<W>(s: Seq<(Seq<char>, W)>, k: Seq<char>, i: int)
    requires
        0 <= i <= s.len(),
        forall|j: int| 0 <= j < i ==> lex_lt(#[trigger] s[j].0, k),
        i < s.len() ==> !lex_lt(s[i].0, k),
    ensures
        lower_bound(s, k) == i,
    decreases s.len(),
{
    if s.len() > 0 && i > 0 {
        let t = s.drop_first();
        assert forall|j: int| 0 <= j < i - 1 implies lex_lt(#[trigger] t[j].0, k) by {
            assert(t[j] == s[j + 1]);
        }
        lemma_lower_bound_at(t, k, i - 1);
        assert(lex_lt(s[0].0, k));
    }
}

/// Setting a key twice keeps only the second value: the result is the same as
/// setting it once to that value.
pub proof fn law_second_insert_overwrites<W>(s: Seq<(Seq<char>, W)>, k: Seq<char>, v1: W, v2: W)
    requires
        keys_sorted(s),
    ensures
        entries_insert(entries_insert(s, k, v1), k, v2) == entries_insert(s, k, v2),
{
    lemma_lower_bound(s, k);
    let i = lower_bound(s, k) as int;
    let r1 = entries_insert(s, k, v1);
    assert forall|j: int| 0 <= j < i implies lex_lt(#[trigger] r1[j].0, k) by {
        assert(r1[j] == s[j]);
    }
    lemma_lex_lt_irreflexive(k);
    lemma_lower_bound_at(r1, k, i);
    assert(r1[i].0 == k);
    assert(entries_insert(r1, k, v2) =~= entries_insert(s, k, v2));
}

/// A map from text keys to values whose entries are kept sorted by key.
pub struct StrMap<V> {
    entries: Vec<(String, V)>,
}

impl<V: View> View for StrMap<V> {
    type V = Seq<(Seq<char>, V::V)>;

    closed spec fn view(&self) -> Self::V {
        self.entries@.map_values(|e: (String, V)| (e.0@, e.1@))
    }
}

impl<V> StrMap<V> {
    /// The keys strictly increase along the entries.
    #[verifier::type_invariant]
    closed spec fn keys_in_order(&self) -> bool {
        forall|i: int, j: int|
            0 <= i < j < self.entries@.len() ==> lex_lt(
                #[trigger] self.entries@[i].0@,
                #[trigger] self.entries@[j].0@,
            )
    }
}

impl<V: Duplicate> StrMap<V> {
    /// The entries of every map are sorted by key.
    proof fn lemma_sorted(&self)
        requires
            self.keys_in_order(),
        ensures
            keys_sorted(self@),
    {
        assert forall|i: int, j: int| 0 <= i < j < self@.len() implies lex_lt(
            #[trigger] self@[i].0,
            #[trigger] self@[j].0,
        ) by {
            assert(self@[i].0 == self.entries@[i].0@);
            assert(self@[j].0 == self.entries@[j].0@);
        }
    }

    /// The empty map.
    pub fn new() -> (m: Self)
        ensures
            m@ == Seq::<(Seq<char>, V::V)>::empty(),
            keys_sorted(m@),
    {
        let m = StrMap { entries: Vec::new() };
        assert(m@ =~= Seq::<(Seq<char>, V::V)>::empty());
        m
    }

    /// The number of entries. (Every map's keys are sorted; this states it.)
    pub fn len(&self) -> (n: usize)
        ensures
            n == self@.len(),
            keys_sorted(self@),
    {
        proof {
            use_type_invariant(self);
            self.lemma_sorted();
        }
        self.entries.len()
    }

    /// The key and value of the entry at position `i` in key order.
    pub fn entry(&self, i: usize) -> (r: (&String, &V))
        requires
            i < self@.len(),
        ensures
            r.0@ == self@[i as int].0,
            r.1@ == self@[i as int].1,
            keys_sorted(self@),
    {
        proof {
            use_type_invariant(self);
            self.lemma_sorted();
        }
        let e = &self.entries[i];
        (&e.0, &e.1)
    }

    /// Sets `key` to `value`, replacing any earlier value of `key`.
    pub fn insert(&mut self, key: String, value: V)
        ensures
            final(self)@ == entries_insert(old(self)@, key@, value@),
            keys_sorted(old(self)@),
            keys_sorted(final(self)@),
    {
        proof {
            use_type_invariant(&*self);
            self.lemma_sorted();
        }
        let ghost s = self@;
        proof {
            lemma_lower_bound(s, key@);
        }
        let mut i: usize = 0;
        while i < self.entries.len() && compare_text(self.entries[i].0.as_str(), key.as_str())
            == TextOrder::Less
            invariant
                s == self@,
                keys_sorted(s),
                i <= s.len(),
                forall|j: int| 0 <= j < i ==> lex_lt(#[trigger] s[j].0, key@),
            decreases s.len() - i,
        {
            i = i + 1;
        }
        proof {
            if i < lower_bound(s, key@) {
                assert(lex_lt(s[i as int].0, key@));
            }
            if i > lower_bound(s, key@) {
                let b = lower_bound(s, key@) as int;
                assert(lex_lt(s[b].0, key@));
            }
        }
        let ghost r = entries_insert(s, key@, value@);
        proof {
            lemma_entries_insert_sorted(s, key@, value@);
        }
        let replace = i < self.entries.len() && compare_text(
            self.entries[i].0.as_str(),
            key.as_str(),
        ) == TextOrder::Equal;
        let mut entries: Vec<(String, V)> = Vec::new();
        std::mem::swap(&mut entries, &mut self.entries);
        let ghost old_entries = entries@;
        if replace {
            entries[i] = (key, value);
        } else {
            entries.insert(i, (key, value));
        }
        proof {
            assert(old_entries.map_values(|e: (String, V)| (e.0@, e.1@)) == s);
            assert(entries@.map_values(|e: (String, V)| (e.0@, e.1@)) =~= r);
            assert forall|a: int, b: int| 0 <= a < b < entries@.len() implies lex_lt(
                #[trigger] entries@[a].0@,
                #[trigger] entries@[b].0@,
            ) by {
                assert(r[a].0 == entries@[a].0@);
                assert(r[b].0 == entries@[b].0@);
            }
        }
        self.entries = entries;
        assert(self@ =~= r);
    }

    /// The value stored for `key`, if any.
    pub fn get(&self, key: &str) -> (r: Option<&V>)
        ensures
            match entries_lookup(self@, key@) {
                Some(v) => r matches Some(x) && x@ == v,
                None => r is None,
            },
            keys_sorted(self@),
    {
        proof {
            use_type_invariant(self);
            self.lemma_sorted();
        }
        let mut i: usize = 0;
        while i < self.entries.len()
            invariant
                keys_sorted(self@),
                i <= self@.len(),
                forall|j: int| 0 <= j < i ==> (#[trigger] self@[j]).0 != key@,
            decreases self@.len() - i,
        {
            if compare_text(self.entries[i].0.as_str(), key) == TextOrder::Equal {
                proof {
                    lemma_lookup_at(self@, key@, i as int);
                }
                return Some(&self.entries[i].1);
            }
            i = i + 1;
        }
        proof {
            lemma_lookup_absent(self@, key@);
        }
        None
    }

    /// A copy of the map with the same entries.
    pub fn duplicate(&self) -> (r: Self)
        ensures
            r@ == self@,
            keys_sorted(r@),
    {
        let mut entries: Vec<(String, V)> = Vec::new();
        let mut i: usize = 0;
        while i < self.entries.len()
            invariant
                i <= self.entries@.len(),
                entries@.len() == i,
                forall|j: int|
                    0 <= j < i ==> (#[trigger] entries@[j]).0@ == self.entries@[j].0@
                        && entries@[j].1@ == self.entries@[j].1@,
            decreases self.entries@.len() - i,
        {
            let e = &self.entries[i];
            entries.push((e.0.clone(), e.1.duplicate()));
            i = i + 1;
        }
        proof {
            use_type_invariant(self);
        }
        assert forall|a: int, b: int| 0 <= a < b < entries@.len() implies lex_lt(
            #[trigger] entries@[a].0@,
            #[trigger] entries@[b].0@,
        ) by {
            assert(entries@[a].0@ == self.entries@[a].0@);
            assert(entries@[b].0@ == self.entries@[b].0@);
        }
        let r = StrMap { entries };
        assert(r@ =~= self@);
        r
    }

}

} // verus!
