//! Content filters: field, negation and regular expression, ANDed over a set.

use vstd::prelude::*;

use crate::json::{field_of, fields_view, get_field, FieldsView, JsonValue, JsonView};
use crate::matcher::{regex_accepts, regex_finds, CompiledRegex};
use crate::text::{chars_of, contains_char, slice_chars, string_of};

verus! {

/// One filter clause: the record's field `key` must (or, when `inverse`, must not) be a
/// string in which `pattern` finds a match.
pub struct Filter {
    key: String,
    inverse: bool,
    pattern: CompiledRegex,
}

/// What a clause tests, as plain values.
pub struct FilterView {
    pub key: Seq<char>,
    pub inverse: bool,
    pub pattern: Seq<char>,
}

impl View for Filter {
    type V = FilterView;

    closed spec fn view(&self) -> FilterView {
        FilterView { key: self.key@, inverse: self.inverse, pattern: self.pattern@ }
    }
}

/// Clauses that a record must all pass.
pub struct FilterSet {
    pub sets: Vec<Filter>,
}

/// Why a filter text was refused.
#[derive(Debug, Clone, Copy, PartialEq, Eq, Structural)]
pub enum FilterError {
    /// The text holds a line break, which no filter can.
    Malformed,
    /// The body is not a regular expression.
    InvalidRegex,
}

pub open spec fn message_key() -> Seq<char> {
    seq!['m', 'e', 's', 's', 'a', 'g', 'e']
}

pub open spec fn is_word(c: char) -> bool {
    ('a' <= c <= 'z') || ('A' <= c <= 'Z') || ('0' <= c <= '9') || c == '_'
}

/// End of the run of word characters that starts at `i`.
pub open spec fn word_end(s: Seq<char>, i: int) -> int
    decreases s.len() - i,
{
    if 0 <= i < s.len() && is_word(s[i]) {
        word_end(s, i + 1)
    } else {
        i
    }
}

/// The field, negation and body of a filter text: `%<field>=<body>`,
/// `%<field>!=<body>`, or a bare body that tests `message`.
pub open spec fn filter_parts(s: Seq<char>) -> (Seq<char>, bool, Seq<char>) {
    let e = word_end(s, 1);
    if s.len() > 0 && s[0] == '%' && e > 1 && e < s.len() && s[e] == '=' {
        (s.subrange(1, e), false, s.subrange(e + 1, s.len() as int))
    } else if s.len() > 0 && s[0] == '%' && e > 1 && e + 1 < s.len() && s[e] == '!' && s[e + 1] == '=' {
        (s.subrange(1, e), true, s.subrange(e + 2, s.len() as int))
    } else {
        (message_key(), false, s)
    }
}

/// What parsing a filter text gives.
pub open spec fn filter_spec(s: Seq<char>) -> Result<FilterView, FilterError> {
    let (key, inverse, body) = filter_parts(s);
    if s.contains('\n') {
        Err(FilterError::Malformed)
    } else if !regex_accepts(body) {
        Err(FilterError::InvalidRegex)
    } else {
        Ok(FilterView { key, inverse, pattern: body })
    }
}

/// Whether a record passes one clause: the field exists, is a string, and the search
/// succeeds, XOR the negation. A missing or non-string field fails either way.
pub open spec fn clause_holds(f: FilterView, fields: FieldsView) -> bool {
    match field_of(fields, f.key) {
        Some(JsonView::Str(s)) => regex_finds(f.pattern, s) != f.inverse,
        _ => false,
    }
}

/// Whether a record passes every clause of `clauses`.
pub open spec fn all_hold(clauses: Seq<FilterView>, fields: FieldsView) -> bool {
    forall|i: int| 0 <= i < clauses.len() ==> clause_holds(#[trigger] clauses[i], fields)
}

proof fn lemma_word_end(s: Seq<char>, i: int)
    requires
        0 <= i <= s.len(),
    ensures
        i <= word_end(s, i) <= s.len(),
    decreases s.len() - i,
{
    if i < s.len() && is_word(s[i]) {
        lemma_word_end(s, i + 1);
    }
}

fn word(c: char) -> (r: bool)
    ensures
        r == is_word(c),
{
    ('a' <= c && c <= 'z') || ('A' <= c && c <= 'Z') || ('0' <= c && c <= '9') || c == '_'
}

impl Filter {
    /// The field the clause reads.
    pub fn key(&self) -> (r: &String)
        ensures
            r@ == self@.key,
    {
        &self.key
    }

    /// Whether the clause is negated.
    pub fn inverse(&self) -> (r: bool)
        ensures
            r == self@.inverse,
    {
        self.inverse
    }

    /// Whether `fields` passes this clause.
    pub fn holds(&self, fields: &Vec<(String, JsonValue)>) -> (r: bool)
        ensures
            r == clause_holds(self@, fields_view(fields@)),
    {
        match get_field(fields, &self.key) {
            Some(JsonValue::Str(s)) => self.pattern.is_match(s.as_str()) != self.inverse,
            _ => false,
        }
    }
}

impl FilterSet {
    /// The clauses as plain values.
    pub open spec fn clauses(&self) -> Seq<FilterView> {
        self.sets@.map_values(|f: Filter| f@)
    }

    /// A set holding the one clause `first`.
    pub fn single(first: Filter) -> (r: FilterSet)
        ensures
            r.clauses() == seq![first@],
    {
        let mut sets: Vec<Filter> = Vec::new();
        sets.push(first);
        let r = FilterSet { sets };
        proof {
            assert(r.clauses() =~= seq![r.sets@[0]@]);
        }
        r
    }

    /// Adds a clause after the others.
    pub fn add(&mut self, f: Filter)
        ensures
            final(self).clauses() == old(self).clauses().push(f@),
    {
        self.sets.push(f);
        proof {
            assert(self.clauses() =~= old(self).clauses().push(f@));
        }
    }

    /// Whether `line` passes every clause, checked in order until one fails.
    pub fn matches(&self, line: &Vec<(String, JsonValue)>) -> (r: bool)
        ensures
            r == all_hold(self.clauses(), fields_view(line@)),
    {
        let mut i: usize = 0;
        while i < self.sets.len()
            invariant
                0 <= i <= self.sets@.len(),
                forall|j: int| 0 <= j < i ==> clause_holds(#[trigger] self.clauses()[j], fields_view(line@)),
            decreases self.sets@.len() - i,
        {
            if !self.sets[i].holds(line) {
                proof {
                    assert(!clause_holds(self.clauses()[i as int], fields_view(line@)));
                }
                return false;
            }
            i = i + 1;
        }
        true
    }

    /// Reads one filter clause: an optional `%<field>` with an optional `!` and then `=`,
    /// followed by a regular expression; without a field the clause reads `message`.
    pub fn parse(base: &str) -> (r: Result<Filter, FilterError>)
        ensures
            r matches Ok(f) ==> filter_spec(base@) == Ok::<FilterView, FilterError>(f@),
            r matches Err(e) ==> filter_spec(base@) == Err::<FilterView, FilterError>(e),
    {
        let s = chars_of(base);
        if contains_char(&s, '\n') {
            return Err(FilterError::Malformed);
        }
        let n = s.len();
        let mut e: usize = 1;
        if n > 0 && s[0] == '%' {
            while e < n && word(s[e])
                invariant
                    1 <= e <= n,
                    n == s@.len(),
                    word_end(s@, e as int) == word_end(s@, 1),
                decreases n - e,
            {
                e = e + 1;
            }
        }
        proof {
            if n > 0 {
                lemma_word_end(s@, 1);
            }
        }
        let key_chars: Vec<char>;
        let inverse: bool;
        let body: Vec<char>;
        if n > 0 && s[0] == '%' && e > 1 && e < n && s[e] == '=' {
            key_chars = slice_chars(&s, 1, e);
            inverse = false;
            body = slice_chars(&s, e + 1, n);
        } else if n > 0 && s[0] == '%' && e > 1 && e < n - 1 && s[e] == '!' && s[e + 1] == '=' {
            key_chars = slice_chars(&s, 1, e);
            inverse = true;
            body = slice_chars(&s, e + 2, n);
        } else {
            let mut m: Vec<char> = Vec::new();
            m.push('m');
            m.push('e');
            m.push('s');
            m.push('s');
            m.push('a');
            m.push('g');
            m.push('e');
            proof {
                assert(m@ =~= message_key());
            }
            key_chars = m;
            inverse = false;
            body = s;
            proof {
                assert(body@ == base@);
            }
        }
        proof {
            assert(filter_parts(base@) == (key_chars@, inverse, body@));
        }
        let body_text = string_of(&body);
        match CompiledRegex::compile(body_text.as_str()) {
            Some(pattern) => Ok(Filter { key: string_of(&key_chars), inverse, pattern }),
            None => Err(FilterError::InvalidRegex),
        }
    }
}

/// A set passes a record exactly when each of its clauses does, so splitting a set into
/// two parts ANDs their results.
pub proof fn lemma_and_of_clauses(a: Seq<FilterView>, b: Seq<FilterView>, fields: FieldsView)
    ensures
        all_hold(a + b, fields) <==> all_hold(a, fields) && all_hold(b, fields),
        all_hold(Seq::empty(), fields),
{
    if all_hold(a, fields) && all_hold(b, fields) {
        assert forall|i: int| 0 <= i < (a + b).len() implies clause_holds(#[trigger] (a + b)[i], fields) by {
            if i >= a.len() {
                assert((a + b)[i] == b[i - a.len()]);
            }
        }
    }
    if all_hold(a + b, fields) {
        assert forall|i: int| 0 <= i < a.len() implies clause_holds(#[trigger] a[i], fields) by {
            assert((a + b)[i] == a[i]);
        }
        assert forall|i: int| 0 <= i < b.len() implies clause_holds(#[trigger] b[i], fields) by {
            assert((a + b)[a.len() + i] == b[i]);
        }
    }
}

/// A clause on a field that the record lacks fails, negated or not; so does any set that
/// holds such a clause.
pub proof fn lemma_missing_field_fails(clauses: Seq<FilterView>, i: int, fields: FieldsView)
    requires
        0 <= i < clauses.len(),
        field_of(fields, clauses[i].key) is None,
    ensures
        !clause_holds(clauses[i], fields),
        !clause_holds(FilterView { inverse: !clauses[i].inverse, ..clauses[i] }, fields),
        !all_hold(clauses, fields),
{
}

} // verus!
