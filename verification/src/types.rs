//! The value domain: a stored value is either numeric or opaque text.

use vstd::prelude::*;

verus! {

/// Spec-level model of a [`TypedValue`]: the payload as a sequence of
/// characters, tagged by variant.
#[verifier::ext_equal]
pub enum ValueModel {
    /// A finite decimal number, identified by its canonical rendering.
    Numeric(Seq<char>),
    /// An opaque text token.
    Text(Seq<char>),
}

/// A stored value.  `Numeric` holds the canonical rendering of a finite
/// decimal number (see `numeric`); `Text` holds the token unchanged.
#[derive(Debug, PartialEq)]
pub enum TypedValue {
    Numeric(String),
    Text(String),
}

impl View for TypedValue {
    type V = ValueModel;

    open spec fn view(&self) -> ValueModel {
        match self {
            TypedValue::Numeric(s) => ValueModel::Numeric(s@),
            TypedValue::Text(s) => ValueModel::Text(s@),
        }
    }
}

/// Type inference for one token: a numeric token is identified by its
/// canonical rendering, any other token stays text, unchanged.
pub open spec fn value_model_of(s: Seq<char>) -> ValueModel {
    if crate::numeric::is_numeric_token(s) {
        ValueModel::Numeric(crate::numeric::canon_of(s))
    } else {
        ValueModel::Text(s)
    }
}

impl TypedValue {
    /// Builds the value a token denotes: numeric when the token parses as
    /// a finite 64-bit float, text otherwise.
    pub fn from_str(as_str: &str) -> (r: TypedValue)
        ensures
            r@ == value_model_of(as_str@),
    {
        match crate::numeric::canonical_form(as_str) {
            Some(canon) => TypedValue::Numeric(canon),
            None => TypedValue::Text(as_str.to_owned()),
        }
    }

    /// A copy of the value with the same payload.
    pub fn duplicate(&self) -> (r: TypedValue)
        ensures
            r@ == self@,
    {
        match self {
            TypedValue::Numeric(s) => TypedValue::Numeric(s.clone()),
            TypedValue::Text(s) => TypedValue::Text(s.clone()),
        }
    }
}

} // verus!
