//! Comparison operators of filter predicates.

use vstd::prelude::*;
use crate::lex::{compare, lemma_str_lt_asymmetric, lemma_str_lt_irreflexive, lemma_str_lt_total, str_le, str_lt, Rel};

verus! {

/// A comparison between a row's value and a literal.
#[derive(Clone, Copy, Debug, PartialEq, Eq, Structural)]
pub enum Operator {
    Equal,
    NotEqual,
    GT,
    GTE,
    LT,
    LTE,
}

impl Operator {
    /// Whether the non-null `value` stands in this relation to `literal`.
    pub open spec fn holds(self, value: Seq<char>, literal: Seq<char>) -> bool {
        match self {
            Operator::Equal => value == literal,
            Operator::NotEqual => value != literal,
            Operator::GT => str_lt(literal, value),
            Operator::GTE => str_le(literal, value),
            Operator::LT => str_lt(value, literal),
            Operator::LTE => str_le(value, literal),
        }
    }

    /// Whether a row holding `value` is selected: a null row never is.
    pub open spec fn selects(self, value: Option<Seq<char>>, literal: Seq<char>) -> bool {
        match value {
            Some(v) => self.holds(v, literal),
            None => false,
        }
    }

    /// Evaluates the operator on two strings.
    pub fn eval(&self, value: &str, literal: &str) -> (b: bool)
        ensures
            b == self.holds(value@, literal@),
    {
        let r = compare(value, literal);
        proof {
            lemma_str_lt_total(value@, literal@);
            if str_lt(value@, literal@) {
                lemma_str_lt_asymmetric(value@, literal@);
            }
            lemma_str_lt_irreflexive(value@);
        }
        match self {
            Operator::Equal => r == Rel::Same,
            Operator::NotEqual => r != Rel::Same,
            Operator::GT => r == Rel::Greater,
            Operator::GTE => r != Rel::Less,
            Operator::LT => r == Rel::Less,
            Operator::LTE => r != Rel::Greater,
        }
    }
}

} // verus!
