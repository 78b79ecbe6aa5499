//! Metric values and single metrics in InfluxDB line protocol.
use vstd::prelude::*;

use crate::smap::{Duplicate, StrMap};
use crate::text::{has_no_break, int_text, push_int_text, push_nat_text, unbroken};

verus! {

/// Text without a line break, such as the decimal text of a float or the
/// name of a distribution field.
#[derive(Debug)]
pub struct Token {
    text: String,
}

impl Token {
    #[verifier::type_invariant]
    spec fn no_break(self) -> bool {
        unbroken(self.text@)
    }

    /// The token of `text`: `Some` exactly when `text` has no line break.
    pub fn new(text: String) -> (r: Option<Token>)
        ensures
            r is Some <==> unbroken(text@),
            r matches Some(t) ==> t@ == text@,
    {
        if has_no_break(text.as_str()) {
            Some(Token { text })
        } else {
            None
        }
    }

    /// The text of the token.
    pub fn as_str(&self) -> (r: &str)
        ensures
            r@ == self@,
    {
        proof {
            use_type_invariant(self);
        }
        self.text.as_str()
    }
}

impl View for Token {
    type V = Seq<char>;

    /// The text (which, by the type's invariant, never holds a line break).
    closed spec fn view(&self) -> Seq<char> {
        if unbroken(self.text@) {
            self.text@
        } else {
            Seq::empty()
        }
    }
}

/// No token holds a line break.
pub proof fn lemma_token_unbroken(t: Token)
    ensures
        unbroken(t@),
{
}

impl Duplicate for Token {
    fn duplicate(&self) -> (r: Token) {
        proof {
            use_type_invariant(self);
        }
        Token { text: self.text.clone() }
    }
}

/// A number as a distribution reports it: a float's decimal text or a count.
#[derive(Debug)]
pub enum Number {
    Float(Token),
    Count(u64),
}

impl View for Number {
    type V = FieldValue;

    open spec fn view(&self) -> FieldValue {
        match self {
            Number::Float(t) => FieldValue::Float(t@),
            Number::Count(n) => FieldValue::Integer(*n as int),
        }
    }
}

impl Number {
    /// The number as a field value.
    pub fn to_data(&self) -> (r: MetricData)
        ensures
            r@ == self@,
    {
        match self {
            Number::Float(t) => MetricData::Float(t.duplicate()),
            Number::Count(n) => MetricData::Unsigned(*n),
        }
    }
}

/// The value of one field of a metric.
#[derive(Debug)]
pub enum MetricData {
    /// A floating-point value, held as its decimal text.
    Float(Token),
    /// A signed integer.
    Integer(i64),
    /// An unsigned integer.
    Unsigned(u64),
    /// A text value.
    String(String),
    /// A boolean.
    Boolean(bool),
}

/// What a field value renders as; both integer kinds render alike.
pub enum FieldValue {
    Float(Seq<char>),
    Integer(int),
    Text(Seq<char>),
    Boolean(bool),
}

impl View for MetricData {
    type V = FieldValue;

    open spec fn view(&self) -> FieldValue {
        match self {
            MetricData::Float(t) => FieldValue::Float(t@),
            MetricData::Integer(i) => FieldValue::Integer(*i as int),
            MetricData::Unsigned(u) => FieldValue::Integer(*u as int),
            MetricData::String(t) => FieldValue::Text(t@),
            MetricData::Boolean(b) => FieldValue::Boolean(*b),
        }
    }
}

impl Duplicate for MetricData {
    fn duplicate(&self) -> (r: MetricData) {
        match self {
            MetricData::Float(t) => MetricData::Float(t.duplicate()),
            MetricData::Integer(i) => MetricData::Integer(*i),
            MetricData::Unsigned(u) => MetricData::Unsigned(*u),
            MetricData::String(t) => MetricData::String(t.clone()),
            MetricData::Boolean(b) => MetricData::Boolean(*b),
        }
    }
}

/// Line-protocol text of a field value: floats as their decimal text,
/// integers with an `i` suffix, text in double quotes, booleans as words.
pub open spec fn value_text(v: FieldValue) -> Seq<char> {
    match v {
        FieldValue::Float(t) => t,
        FieldValue::Integer(i) => int_text(i).push('i'),
        FieldValue::Text(t) => seq!['"'] + t + seq!['"'],
        FieldValue::Boolean(b) => if b {
            seq!['t', 'r', 'u', 'e']
        } else {
            seq!['f', 'a', 'l', 's', 'e']
        },
    }
}

/// `,key=value` for every tag, in order.
pub open spec fn tags_text(tags: Seq<(Seq<char>, Seq<char>)>) -> Seq<char>
    decreases tags.len(),
{
    if tags.len() == 0 {
        seq![]
    } else {
        tags_text(tags.drop_last()) + seq![','] + tags.last().0 + seq!['='] + tags.last().1
    }
}

/// `key=value` for one field.
pub open spec fn field_text(f: (Seq<char>, FieldValue)) -> Seq<char> {
    f.0 + seq!['='] + value_text(f.1)
}

/// The fields as `key=value`, separated by commas.
pub open spec fn fields_text(fields: Seq<(Seq<char>, FieldValue)>) -> Seq<char>
    decreases fields.len(),
{
    if fields.len() == 0 {
        seq![]
    } else if fields.len() == 1 {
        field_text(fields[0])
    } else {
        fields_text(fields.drop_last()) + seq![','] + field_text(fields.last())
    }
}

/// The abstract content of a metric.
pub struct MetricView {
    pub name: Seq<char>,
    pub timestamp: int,
    pub tags: Seq<(Seq<char>, Seq<char>)>,
    pub fields: Seq<(Seq<char>, FieldValue)>,
}

/// One line of line protocol:
/// `name,tag=value,... field=value,... timestamp`.
pub open spec fn line_text(m: MetricView) -> Seq<char> {
    m.name + tags_text(m.tags) + seq![' '] + fields_text(m.fields) + seq![' '] + int_text(
        m.timestamp,
    )
}

/// One metric point: a name, a timestamp in nanoseconds, tags and fields.
pub struct InfluxMetric {
    pub name: String,
    pub timestamp: i64,
    pub tags: StrMap<String>,
    pub fields: StrMap<MetricData>,
}

impl View for InfluxMetric {
    type V = MetricView;

    open spec fn view(&self) -> MetricView {
        MetricView {
            name: self.name@,
            timestamp: self.timestamp as int,
            tags: self.tags@,
            fields: self.fields@,
        }
    }
}

/// Appends the line-protocol text of a field value.
pub fn push_value_text(s: &mut String, v: &MetricData)
    ensures
        final(s)@ == old(s)@ + value_text(v@),
{
    match v {
        MetricData::Float(t) => {
            s.append(t.as_str());
        },
        MetricData::Integer(i) => {
            push_int_text(s, *i);
            s.push('i');
        },
        MetricData::Unsigned(u) => {
            push_nat_text(s, *u);
            s.push('i');
        },
        MetricData::String(t) => {
            s.push('"');
            s.append(t.as_str());
            s.push('"');
        },
        MetricData::Boolean(b) => {
            if *b {
                s.push('t');
                s.push('r');
                s.push('u');
                s.push('e');
            } else {
                s.push('f');
                s.push('a');
                s.push('l');
                s.push('s');
                s.push('e');
            }
        },
    }
    assert(final(s)@ =~= old(s)@ + value_text(v@));
}

impl InfluxMetric {
    /// The metric as one line of line protocol (without a line break).
    pub fn to_line(&self) -> (r: String)
        ensures
            r@ == line_text(self@),
    {
        let mut s = self.name.clone();
        let mut i: usize = 0;
        while i < self.tags.len()
            invariant
                i <= self.tags@.len(),
                s@ == self.name@ + tags_text(self.tags@.take(i as int)),
            decreases self.tags@.len() - i,
        {
            let (k, v) = self.tags.entry(i);
            s.push(',');
            s.append(k.as_str());
            s.push('=');
            s.append(v.as_str());
            proof {
                let t = self.tags@.take(i + 1);
                assert(t.drop_last() =~= self.tags@.take(i as int));
                assert(t.last() == self.tags@[i as int]);
            }
            assert(s@ =~= self.name@ + tags_text(self.tags@.take(i + 1)));
            i = i + 1;
        }
        assert(self.tags@.take(i as int) =~= self.tags@);
        s.push(' ');
        let ghost prefix = s@;
        let mut j: usize = 0;
        while j < self.fields.len()
            invariant
                j <= self.fields@.len(),
                s@ == prefix + fields_text(self.fields@.take(j as int)),
            decreases self.fields@.len() - j,
        {
            let (k, v) = self.fields.entry(j);
            if j > 0 {
                s.push(',');
            }
            s.append(k.as_str());
            s.push('=');
            push_value_text(&mut s, v);
            proof {
                let t = self.fields@.take(j + 1);
                assert(t.drop_last() =~= self.fields@.take(j as int));
                assert(t.last() == self.fields@[j as int]);
                if j == 0 {
                    assert(t[0] == self.fields@[0]);
                }
            }
            assert(s@ =~= prefix + fields_text(self.fields@.take(j + 1)));
            j = j + 1;
        }
        assert(self.fields@.take(j as int) =~= self.fields@);
        s.push(' ');
        push_int_text(&mut s, self.timestamp);
        assert(s@ =~= line_text(self@));
        s
    }
}

} // verus!
