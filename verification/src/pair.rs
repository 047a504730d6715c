//! Productions: what the parser hands to the tree builder.

use vstd::prelude::*;

verus! {

/// The rules of the grammar.
#[derive(Debug, Clone, Copy, PartialEq, Eq, Structural, Hash)]
pub enum Rule {
    /// An element: its name, then its data, attributes and nested elements.
    Node,
    /// The name of an element or attribute.
    Name,
    /// One data line of an element, or the value of an attribute.
    Data,
    /// An attribute: its name, then its value if it has one.
    Attr,
    /// The text of a data line: what follows the colon and the blanks behind it.
    ColonData,
    /// The text of an attribute value between double quotes.
    QuoteData,
    /// The text of an attribute value without quotes, which ends at a blank.
    SpaceData,
    /// The end of the input.
    Eoi,
}

/// The mathematical value of a production: its rule, the text it matched if it
/// is a token, and the productions inside it.
pub struct Production {
    pub rule: Rule,
    pub text: Seq<char>,
    pub inner: Seq<Production>,
}

/// A production of the grammar with the productions inside it.
///
/// A token (a name or the text of a data line or value) carries the text it
/// matched and nothing inside; the others carry productions and no text.
#[derive(Debug, PartialEq, Eq)]
pub struct BmlPair {
    pub rule: Rule,
    pub text: String,
    pub inner: Vec<BmlPair>,
}

/// The value of each of `pairs`.
pub open spec fn productions(pairs: Seq<BmlPair>) -> Seq<Production> {
    Seq::new(pairs.len(), |i: int| pairs[i]@)
}

impl View for BmlPair {
    type V = Production;

    open spec fn view(&self) -> Production {
        production_of(*self)
    }
}

/// The value of `pair`.
pub open spec fn production_of(pair: BmlPair) -> Production
    decreases pair,
{
    Production {
        rule: pair.rule,
        text: pair.text@,
        inner: Seq::new(
            pair.inner.len() as nat,
            |i: int|
                if 0 <= i < pair.inner.len() {
                    production_of(pair.inner[i])
                } else {
                    arbitrary()
                },
        ),
    }
}

impl Production {
    /// Whether this is a token of the rule `rule`.
    pub open spec fn is_token(self, rule: Rule) -> bool {
        self.rule == rule && self.inner.len() == 0
    }

    /// Whether this is a data line or value: one token with its text.
    pub open spec fn is_data(self) -> bool {
        &&& self.rule == Rule::Data
        &&& self.inner.len() == 1
        &&& (self.inner[0].is_token(Rule::ColonData) || self.inner[0].is_token(Rule::QuoteData)
            || self.inner[0].is_token(Rule::SpaceData))
    }

    /// Whether this is an attribute: a name, then values.
    pub open spec fn is_attr(self) -> bool {
        &&& self.rule == Rule::Attr
        &&& self.inner.len() >= 1
        &&& self.inner[0].is_token(Rule::Name)
        &&& forall|i: int| 1 <= i < self.inner.len() ==> (#[trigger] self.inner[i]).is_data()
    }

    /// Whether this is an element: a name, then data lines, attributes and elements.
    pub open spec fn is_node(self) -> bool
        decreases self,
    {
        &&& self.rule == Rule::Node
        &&& self.inner.len() >= 1
        &&& self.inner[0].is_token(Rule::Name)
        &&& forall|i: int|
            1 <= i < self.inner.len() ==> {
                let part = #[trigger] self.inner[i];
                part.is_data() || part.is_attr() || part.is_node()
            }
    }
}

/// Whether `parts` are the productions of a document: elements, then the end of
/// the input.
pub open spec fn is_document(parts: Seq<Production>) -> bool {
    &&& parts.len() >= 1
    &&& parts.last().is_token(Rule::Eoi)
    &&& forall|i: int| 0 <= i < parts.len() - 1 ==> (#[trigger] parts[i]).is_node()
}

impl BmlPair {
    /// A token of the rule `rule` with the text `text`.
    pub fn token(rule: Rule, text: String) -> (pair: BmlPair)
        ensures
            pair@ == (Production { rule, text: text@, inner: Seq::empty() }),
    {
        let pair = BmlPair { rule, text, inner: Vec::new() };
        assert(pair@.inner =~= Seq::empty());
        pair
    }

    /// A production of the rule `rule` that holds `inner`.
    pub fn group(rule: Rule, inner: Vec<BmlPair>) -> (pair: BmlPair)
        ensures
            pair@ == (Production { rule, text: Seq::empty(), inner: productions(inner@) }),
    {
        let ghost parts = productions(inner@);
        let pair = BmlPair { rule, text: String::new(), inner };
        assert(pair@.inner =~= parts);
        pair
    }

    /// The rule of the production.
    pub fn as_rule(&self) -> (rule: Rule)
        ensures
            rule == self@.rule,
    {
        self.rule
    }

    /// The text of a token.
    pub fn as_str(&self) -> (text: &str)
        ensures
            text@ == self@.text,
    {
        self.text.as_str()
    }

    /// The productions inside.
    pub fn inner(&self) -> (inner: &Vec<BmlPair>)
        ensures
            productions(inner@) == self@.inner,
    {
        assert(productions(self.inner@) =~= self@.inner);
        &self.inner
    }

    /// Whether this is a token of the rule `rule`.
    pub fn is_token(&self, rule: Rule) -> (yes: bool)
        ensures
            yes == self@.is_token(rule),
    {
        self.rule == rule && self.inner.len() == 0
    }

    /// Whether this is a data line or value: one token with its text.
    pub fn is_data(&self) -> (yes: bool)
        ensures
            yes == self@.is_data(),
    {
        if self.rule != Rule::Data || self.inner.len() != 1 {
            return false;
        }
        let text = &self.inner[0];
        assert(text@ == self@.inner[0]);
        text.is_token(Rule::ColonData) || text.is_token(Rule::QuoteData) || text.is_token(
            Rule::SpaceData,
        )
    }

    /// Whether this is an attribute: a name, then values.
    pub fn is_attr(&self) -> (yes: bool)
        ensures
            yes == self@.is_attr(),
    {
        if self.rule != Rule::Attr || self.inner.len() == 0 {
            return false;
        }
        assert(self.inner[0]@ == self@.inner[0]);
        if !self.inner[0].is_token(Rule::Name) {
            return false;
        }
        let mut at: usize = 1;
        while at < self.inner.len()
            invariant
                1 <= at <= self.inner.len(),
                forall|i: int| 1 <= i < at ==> (#[trigger] self@.inner[i]).is_data(),
            decreases self.inner.len() - at,
        {
            assert(self.inner[at as int]@ == self@.inner[at as int]);
            if !self.inner[at].is_data() {
                return false;
            }
            at = at + 1;
        }
        true
    }

    /// Whether this is an element: a name, then data lines, attributes and elements.
    pub fn is_node(&self) -> (yes: bool)
        ensures
            yes == self@.is_node(),
        decreases self@,
    {
        if self.rule != Rule::Node || self.inner.len() == 0 {
            return false;
        }
        assert(self.inner[0]@ == self@.inner[0]);
        if !self.inner[0].is_token(Rule::Name) {
            return false;
        }
        let mut at: usize = 1;
        while at < self.inner.len()
            invariant
                1 <= at <= self.inner.len(),
                forall|i: int|
                    1 <= i < at ==> {
                        let part = #[trigger] self@.inner[i];
                        part.is_data() || part.is_attr() || part.is_node()
                    },
            decreases self.inner.len() - at,
        {
            let part = &self.inner[at];
            assert(part@ == self@.inner[at as int]);
            if !(part.is_data() || part.is_attr() || part.is_node()) {
                return false;
            }
            at = at + 1;
        }
        true
    }

    /// Whether `pairs` are the productions of a document: elements, then the end
    /// of the input.
    pub fn are_document(pairs: &Vec<BmlPair>) -> (yes: bool)
        ensures
            yes == is_document(productions(pairs@)),
    {
        let ghost parts = productions(pairs@);
        if pairs.len() == 0 {
            return false;
        }
        let last = &pairs[pairs.len() - 1];
        assert(last@ == parts.last());
        if !last.is_token(Rule::Eoi) {
            return false;
        }
        let mut at: usize = 0;
        while at + 1 < pairs.len()
            invariant
                at + 1 <= pairs.len(),
                parts == productions(pairs@),
                forall|i: int| 0 <= i < at ==> (#[trigger] parts[i]).is_node(),
            decreases pairs.len() - at,
        {
            assert(pairs[at as int]@ == parts[at as int]);
            if !pairs[at].is_node() {
                return false;
            }
            at = at + 1;
        }
        true
    }
}

} // verus!
