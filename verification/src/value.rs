//! Values as the evaluator hands them around: what kind of thing a value is,
//! and the unit it is measured in.

use crate::algebra::Dimensions;
use crate::decimal::{Decimal, DecimalView};
use crate::name::Name;
use crate::number::{format_number, number_text};
use crate::unit::Unit;
use vstd::prelude::*;
use vstd::std_specs::cmp::PartialEqSpecImpl;
use vstd::string::*;

verus! {

/// What a value is: a reference to a function, a number or a truth value.
#[derive(Debug)]
pub enum ValueKind {
    FunctionRef(Name),
    Number(Decimal),
    Bool(bool),
}

/// The mathematical content of a [`ValueKind`].
pub enum ValueKindView {
    FunctionRef(Seq<char>),
    Number(DecimalView),
    Bool(bool),
}

/// The text `true` or `false`.
pub open spec fn bool_text(b: bool) -> Seq<char> {
    if b {
        seq!['t', 'r', 'u', 'e']
    } else {
        seq!['f', 'a', 'l', 's', 'e']
    }
}

/// The text that stands for a function: `<function `, its name and `>`.
pub open spec fn function_text(name: Seq<char>) -> Seq<char> {
    seq!['<', 'f', 'u', 'n', 'c', 't', 'i', 'o', 'n', ' '] + name + seq!['>']
}

impl ValueKindView {
    /// The text that a value is shown as.
    pub open spec fn text(self) -> Seq<char> {
        match self {
            ValueKindView::FunctionRef(name) => function_text(name),
            ValueKindView::Number(number) => number_text(number),
            ValueKindView::Bool(b) => bool_text(b),
        }
    }

    /// Same kind and same content; numbers count as the same when they are
    /// the same number, whatever their trailing zeros.
    pub open spec fn same(self, other: ValueKindView) -> bool {
        match (self, other) {
            (ValueKindView::FunctionRef(a), ValueKindView::FunctionRef(b)) => a == b,
            (ValueKindView::Number(a), ValueKindView::Number(b)) => a.same_number(b),
            (ValueKindView::Bool(a), ValueKindView::Bool(b)) => a == b,
            _ => false,
        }
    }
}

impl View for ValueKind {
    type V = ValueKindView;

    open spec fn view(&self) -> ValueKindView {
        match self {
            ValueKind::FunctionRef(name) => ValueKindView::FunctionRef(name@),
            ValueKind::Number(number) => ValueKindView::Number(number@),
            ValueKind::Bool(b) => ValueKindView::Bool(*b),
        }
    }
}

impl ValueKind {
    /// The text that the value is shown as: a number in the notation that
    /// suits its magnitude, a truth value as `true` or `false`, a function
    /// as `<function NAME>`.
    pub fn to_string(&self) -> (text: String)
        ensures
            text@ == self@.text(),
    {
        match self {
            ValueKind::FunctionRef(name) => {
                proof {
                    reveal_strlit("<function ");
                    reveal_strlit(">");
                }
                let mut text = "<function ".to_owned();
                text.append(name.as_str());
                text.append(">");
                assert(text@ =~= function_text(name@));
                text
            },
            ValueKind::Number(number) => format_number(number),
            ValueKind::Bool(b) => {
                proof {
                    reveal_strlit("true");
                    reveal_strlit("false");
                }
                let text = if *b {
                    "true".to_owned()
                } else {
                    "false".to_owned()
                };
                assert(text@ =~= bool_text(*b));
                text
            },
        }
    }
}

impl Clone for ValueKind {
    fn clone(&self) -> (copy: ValueKind)
        ensures
            copy@ == self@,
    {
        match self {
            ValueKind::FunctionRef(name) => ValueKind::FunctionRef(name.clone()),
            ValueKind::Number(number) => ValueKind::Number(number.clone()),
            ValueKind::Bool(b) => ValueKind::Bool(*b),
        }
    }
}

impl PartialEq for ValueKind {
    fn eq(&self, other: &ValueKind) -> (equal: bool) {
        match (self, other) {
            (ValueKind::FunctionRef(a), ValueKind::FunctionRef(b)) => *a == *b,
            (ValueKind::Number(a), ValueKind::Number(b)) => *a == *b,
            (ValueKind::Bool(a), ValueKind::Bool(b)) => *a == *b,
            _ => false,
        }
    }
}

impl PartialEqSpecImpl for ValueKind {
    open spec fn obeys_eq_spec() -> bool {
        true
    }

    open spec fn eq_spec(&self, other: &ValueKind) -> bool {
        self@.same(other@)
    }
}

impl Eq for ValueKind {

}

/// A fully evaluated result: a value and the unit it is measured in.
#[derive(Debug)]
pub struct Value {
    pub kind: ValueKind,
    pub unit: Unit,
}

/// The mathematical content of a [`Value`].
pub struct ValueView {
    pub kind: ValueKindView,
    pub unit: Dimensions,
}

impl View for Value {
    type V = ValueView;

    open spec fn view(&self) -> ValueView {
        ValueView { kind: self.kind@, unit: self.unit@ }
    }
}

impl Clone for Value {
    fn clone(&self) -> (copy: Value)
        ensures
            copy@ == self@,
    {
        Value { kind: self.kind.clone(), unit: self.unit.clone() }
    }
}

impl PartialEq for Value {
    fn eq(&self, other: &Value) -> (equal: bool) {
        self.kind == other.kind && self.unit == other.unit
    }
}

impl PartialEqSpecImpl for Value {
    open spec fn obeys_eq_spec() -> bool {
        true
    }

    open spec fn eq_spec(&self, other: &Value) -> bool {
        self@.kind.same(other@.kind) && self@.unit == other@.unit
    }
}

impl Eq for Value {

}

} // verus!
