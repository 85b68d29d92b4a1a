//! Runtime values and runtime errors.
use crate::rat::{rat_eq, Number};
use vstd::prelude::*;

verus! {

/// A runtime value: a closed union of exact number, boolean, text and nil.
#[derive(Debug, PartialEq)]
pub enum FddlValue {
    Number(Number),
    Boolean(bool),
    Text(String),
    Nil,
}

/// The mathematical image of a runtime value.
pub enum ValueView {
    Number(Number),
    Boolean(bool),
    Text(Seq<char>),
    Nil,
}

impl View for FddlValue {
    type V = ValueView;

    open spec fn view(&self) -> ValueView {
        match self {
            FddlValue::Number(n) => ValueView::Number(*n),
            FddlValue::Boolean(b) => ValueView::Boolean(*b),
            FddlValue::Text(s) => ValueView::Text(s@),
            FddlValue::Nil => ValueView::Nil,
        }
    }
}

/// A well-formed value: its number, if it is one, is well formed.
pub open spec fn val_wf(v: ValueView) -> bool {
    match v {
        ValueView::Number(n) => n.wf(),
        _ => true,
    }
}

/// Truthiness: false and nil are falsey, every other value is truthy.
pub open spec fn truthy(v: ValueView) -> bool {
    match v {
        ValueView::Boolean(b) => b,
        ValueView::Nil => false,
        _ => true,
    }
}

/// Structural equality of values: numbers by exact value, texts by their
/// characters, booleans by truth, nil only to nil; values of different
/// kinds are unequal, never in error.
pub open spec fn val_eq(a: ValueView, b: ValueView) -> bool {
    match (a, b) {
        (ValueView::Number(x), ValueView::Number(y)) => rat_eq(x, y),
        (ValueView::Boolean(x), ValueView::Boolean(y)) => x == y,
        (ValueView::Text(x), ValueView::Text(y)) => x == y,
        (ValueView::Nil, ValueView::Nil) => true,
        _ => false,
    }
}

/// A runtime error: the wrong kind of operand, an unbound name (which the
/// error carries), or division by zero.
#[derive(Debug, PartialEq)]
pub enum RuntimeError {
    TypeMismatch(String),
    UndefinedVariable(String),
    DivisionByZero,
}

/// The mathematical image of a runtime error.
pub enum ErrView {
    TypeMismatch(Seq<char>),
    UndefinedVariable(Seq<char>),
    DivisionByZero,
}

impl View for RuntimeError {
    type V = ErrView;

    open spec fn view(&self) -> ErrView {
        match self {
            RuntimeError::TypeMismatch(m) => ErrView::TypeMismatch(m@),
            RuntimeError::UndefinedVariable(n) => ErrView::UndefinedVariable(n@),
            RuntimeError::DivisionByZero => ErrView::DivisionByZero,
        }
    }
}

/// A copy of the value, equal in view.
pub fn clone_value(v: &FddlValue) -> (r: FddlValue)
    ensures
        r@ == v@,
{
    match v {
        FddlValue::Number(n) => FddlValue::Number(*n),
        FddlValue::Boolean(b) => FddlValue::Boolean(*b),
        FddlValue::Text(s) => FddlValue::Text(s.clone()),
        FddlValue::Nil => FddlValue::Nil,
    }
}

/// Whether the value counts as true in a condition.
pub fn is_truthy_value(v: &FddlValue) -> (r: bool)
    ensures
        r == truthy(v@),
{
    match v {
        FddlValue::Boolean(b) => *b,
        FddlValue::Nil => false,
        _ => true,
    }
}

/// Structural equality of two values.
pub fn values_equal(a: &FddlValue, b: &FddlValue) -> (r: bool)
    requires
        val_wf(a@),
        val_wf(b@),
    ensures
        r == val_eq(a@, b@),
{
    match (a, b) {
        (FddlValue::Number(x), FddlValue::Number(y)) => x.value_eq(*y),
        (FddlValue::Boolean(x), FddlValue::Boolean(y)) => x == y,
        (FddlValue::Text(x), FddlValue::Text(y)) => <String as PartialEq>::eq(x, y),
        (FddlValue::Nil, FddlValue::Nil) => true,
        _ => false,
    }
}

} // verus!
