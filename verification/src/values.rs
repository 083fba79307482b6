//! The values that a state variable can take.

use vstd::prelude::*;
use vstd::std_specs::cmp::PartialEqSpecImpl;

verus! {

/// A tagged value. `Unknown` is the value of a variable that was never
/// assigned; it differs from every other value.
#[derive(Debug)]
pub enum SPValue {
    Bool(bool),
    Int32(i32),
    String(String),
    Unknown,
}

/// What an `SPValue` stands for: the same tags, with text as a sequence of
/// characters.
pub ghost enum ValueView {
    Bool(bool),
    Int32(i32),
    String(Seq<char>),
    Unknown,
}

impl View for SPValue {
    type V = ValueView;

    open spec fn view(&self) -> ValueView {
        match self {
            SPValue::Bool(b) => ValueView::Bool(*b),
            SPValue::Int32(i) => ValueView::Int32(*i),
            SPValue::String(s) => ValueView::String(s@),
            SPValue::Unknown => ValueView::Unknown,
        }
    }
}

impl Clone for SPValue {
    fn clone(&self) -> (copy: Self)
        ensures
            copy@ == self@,
    {
        match self {
            SPValue::Bool(b) => SPValue::Bool(*b),
            SPValue::Int32(i) => SPValue::Int32(*i),
            SPValue::String(s) => SPValue::String(s.clone()),
            SPValue::Unknown => SPValue::Unknown,
        }
    }
}

impl PartialEq for SPValue {
    fn eq(&self, other: &Self) -> (same: bool) {
        match (self, other) {
            (SPValue::Bool(a), SPValue::Bool(b)) => *a == *b,
            (SPValue::Int32(a), SPValue::Int32(b)) => *a == *b,
            (SPValue::String(a), SPValue::String(b)) => *a == *b,
            (SPValue::Unknown, SPValue::Unknown) => true,
            _ => false,
        }
    }
}

impl PartialEqSpecImpl for SPValue {
    open spec fn obeys_eq_spec() -> bool {
        true
    }

    open spec fn eq_spec(&self, other: &Self) -> bool {
        self@ == other@
    }
}

impl Default for SPValue {
    fn default() -> (value: Self)
        ensures
            value@ == ValueView::Unknown,
    {
        SPValue::Unknown
    }
}

impl SPValue {
    /// Whether this is the `Unknown` value.
    pub fn is_unknown(&self) -> (unknown: bool)
        ensures
            unknown == (self@ == ValueView::Unknown),
    {
        match self {
            SPValue::Unknown => true,
            _ => false,
        }
    }
}

/// Conversion of a plain Rust value into an `SPValue`.
pub trait ToSPValue {
    /// The value that `to_spvalue` gives.
    spec fn spvalue_view(&self) -> ValueView;

    fn to_spvalue(&self) -> (value: SPValue)
        ensures
            value@ == self.spvalue_view(),
    ;
}

impl ToSPValue for bool {
    open spec fn spvalue_view(&self) -> ValueView {
        ValueView::Bool(*self)
    }

    fn to_spvalue(&self) -> (value: SPValue) {
        SPValue::Bool(*self)
    }
}

impl ToSPValue for i32 {
    open spec fn spvalue_view(&self) -> ValueView {
        ValueView::Int32(*self)
    }

    fn to_spvalue(&self) -> (value: SPValue) {
        SPValue::Int32(*self)
    }
}

impl ToSPValue for String {
    open spec fn spvalue_view(&self) -> ValueView {
        ValueView::String(self@)
    }

    fn to_spvalue(&self) -> (value: SPValue) {
        SPValue::String(self.clone())
    }
}

impl ToSPValue for &str {
    open spec fn spvalue_view(&self) -> ValueView {
        ValueView::String(self@)
    }

    fn to_spvalue(&self) -> (value: SPValue) {
        SPValue::String((*self).to_owned())
    }
}

} // verus!
