//! Rules that select metrics by name, and bucket bounds chosen per rule.
use vstd::prelude::*;

use crate::text::{compare_text, has_suffix, strip_prefix, TextOrder};

verus! {

/// Selects metrics by their name: the whole name, a prefix of it, or a suffix.
pub enum Matcher {
    Full(String),
    Prefix(String),
    Suffix(String),
}

/// The abstract content of a matcher.
pub enum MatcherView {
    Full(Seq<char>),
    Prefix(Seq<char>),
    Suffix(Seq<char>),
}

impl View for Matcher {
    type V = MatcherView;

    open spec fn view(&self) -> MatcherView {
        match self {
            Matcher::Full(s) => MatcherView::Full(s@),
            Matcher::Prefix(s) => MatcherView::Prefix(s@),
            Matcher::Suffix(s) => MatcherView::Suffix(s@),
        }
    }
}

impl Matcher {
    /// Two matchers are the same rule when kind and text agree.
    pub fn same_as(&self, other: &Matcher) -> (r: bool)
        ensures
            r == (self@ == other@),
    {
        match self {
            Matcher::Full(a) => match other {
                Matcher::Full(b) => a.eq(b),
                _ => false,
            },
            Matcher::Prefix(a) => match other {
                Matcher::Prefix(b) => a.eq(b),
                _ => false,
            },
            Matcher::Suffix(a) => match other {
                Matcher::Suffix(b) => a.eq(b),
                _ => false,
            },
        }
    }
}

/// Whether a matcher selects the metric called `name`: the whole name, a
/// prefix of it, or a suffix of it.
pub open spec fn matches_name(m: MatcherView, name: Seq<char>) -> bool {
    match m {
        MatcherView::Full(t) => name == t,
        MatcherView::Prefix(t) => t.is_prefix_of(name),
        MatcherView::Suffix(t) => t.is_suffix_of(name),
    }
}

impl Matcher {
    /// Whether this matcher selects the metric called `name`.
    pub fn matches(&self, name: &str) -> (r: bool)
        ensures
            r == matches_name(self@, name@),
    {
        match self {
            Matcher::Full(t) => match compare_text(name, t.as_str()) {
                TextOrder::Equal => true,
                _ => false,
            },
            Matcher::Prefix(t) => strip_prefix(name, t.as_str()).is_some(),
            Matcher::Suffix(t) => has_suffix(name, t.as_str()),
        }
    }
}

/// The bounds of the first override, in the order they were added, whose
/// matcher selects `name`.
pub open spec fn bounds_for_name(s: Seq<(MatcherView, Seq<u64>)>, name: Seq<char>) -> Option<
    Seq<u64>,
>
    decreases s.len(),
{
    if s.len() == 0 {
        None
    } else if matches_name(s[0].0, name) {
        Some(s[0].1)
    } else {
        bounds_for_name(s.drop_first(), name)
    }
}

/// The overrides after offering `values` for matcher `m`: a matcher that
/// already has bounds keeps them, a new one is added at the end.
pub open spec fn override_added(
    s: Seq<(MatcherView, Seq<u64>)>,
    m: MatcherView,
    values: Seq<u64>,
) -> Seq<(MatcherView, Seq<u64>)> {
    if exists|i: int| 0 <= i < s.len() && s[i].0 == m {
        s
    } else {
        s.push((m, values))
    }
}

/// Offering bounds for a matcher that already has some changes nothing: the
/// first bounds offered for a matcher stay.
pub proof fn law_first_override_stays(
    s: Seq<(MatcherView, Seq<u64>)>,
    m: MatcherView,
    v1: Seq<u64>,
    v2: Seq<u64>,
)
    ensures
        override_added(override_added(s, m, v1), m, v2) == override_added(s, m, v1),
{
    let r = override_added(s, m, v1);
    if !(exists|i: int| 0 <= i < s.len() && s[i].0 == m) {
        assert(r[s.len() as int].0 == m);
    }
}

/// No matcher occurs twice.
pub open spec fn matchers_unique(s: Seq<(MatcherView, Seq<u64>)>) -> bool {
    forall|i: int, j: int| 0 <= i < j < s.len() ==> (#[trigger] s[i]).0 != (#[trigger] s[j]).0
}

/// Histogram bucket bounds (IEEE-754 bit patterns) chosen per matcher, each
/// matcher at most once.
pub struct BucketOverrides {
    entries: Vec<(Matcher, Vec<u64>)>,
}

impl View for BucketOverrides {
    type V = Seq<(MatcherView, Seq<u64>)>;

    closed spec fn view(&self) -> Self::V {
        self.entries@.map_values(|e: (Matcher, Vec<u64>)| (e.0@, e.1@))
    }
}

impl BucketOverrides {
    #[verifier::type_invariant]
    closed spec fn unique(&self) -> bool {
        matchers_unique(self@)
    }

    /// No overrides.
    pub fn new() -> (r: Self)
        ensures
            r@ == Seq::<(MatcherView, Seq<u64>)>::empty(),
    {
        let r = BucketOverrides { entries: Vec::new() };
        assert(r@ =~= Seq::<(MatcherView, Seq<u64>)>::empty());
        r
    }

    /// Offers bounds for a matcher; a matcher that has bounds keeps them.
    pub fn add_if_absent(&mut self, matcher: Matcher, values: Vec<u64>)
        ensures
            matchers_unique(final(self)@),
            final(self)@ == override_added(old(self)@, matcher@, values@),
    {
        proof {
            use_type_invariant(&*self);
        }
        let mut i: usize = 0;
        while i < self.entries.len()
            invariant
                i <= self.entries.len(),
                self@ == old(self)@,
                matchers_unique(self@),
                forall|j: int| 0 <= j < i ==> (#[trigger] self@[j]).0 != matcher@,
            decreases self.entries.len() - i,
        {
            if self.entries[i].0.same_as(&matcher) {
                assert(self@[i as int].0 == matcher@);
                return;
            }
            i = i + 1;
        }
        let ghost before = self@;
        let mut entries: Vec<(Matcher, Vec<u64>)> = Vec::new();
        std::mem::swap(&mut entries, &mut self.entries);
        entries.push((matcher, values));
        assert(entries@.map_values(|e: (Matcher, Vec<u64>)| (e.0@, e.1@)) =~= before.push(
            (matcher@, values@),
        ));
        self.entries = entries;
    }

    /// The bounds of the first override whose matcher selects `name`.
    pub fn bounds_for(&self, name: &str) -> (r: Option<&Vec<u64>>)
        ensures
            r matches Some(b) ==> bounds_for_name(self@, name@) == Some(b@),
            r is None ==> bounds_for_name(self@, name@) is None,
    {
        let mut i: usize = 0;
        assert(self@.skip(0) =~= self@);
        while i < self.entries.len()
            invariant
                i <= self@.len(),
                bounds_for_name(self@, name@) == bounds_for_name(self@.skip(i as int), name@),
            decreases self.entries.len() - i,
        {
            let e = &self.entries[i];
            let ghost rest = self@.skip(i as int);
            assert(rest[0] == self@[i as int]);
            assert(rest.drop_first() =~= self@.skip(i + 1));
            if e.0.matches(name) {
                return Some(&e.1);
            }
            i = i + 1;
        }
        assert(self@.skip(i as int) =~= Seq::<(MatcherView, Seq<u64>)>::empty());
        None
    }

    /// The bounds for the matcher at position `i`.
    pub fn entry(&self, i: usize) -> (r: (&Matcher, &Vec<u64>))
        requires
            i < self@.len(),
        ensures
            r.0@ == self@[i as int].0,
            r.1@ == self@[i as int].1,
    {
        let e = &self.entries[i];
        (&e.0, &e.1)
    }

    /// The number of matchers with bounds.
    pub fn len(&self) -> (n: usize)
        ensures
            n == self@.len(),
    {
        self.entries.len()
    }
}

} // verus!
