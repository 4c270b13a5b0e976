//! The texts that evaluation produces by itself, without any arithmetic.
use vstd::prelude::*;
use vstd::string::StringExecFns;
use crate::ast::BinaryOperator;
use crate::semantics::{
    call_marker, is_truthy, occurs_at, occurs_in, operator_name, truth_text, undefined_marker,
    unevaluated,
};
use crate::text::chars_of;

verus! {

/// Whether `needle` stands in `haystack` at index `at`.
fn stands_at(needle: &Vec<char>, haystack: &Vec<char>, at: usize) -> (found: bool)
    requires
        at + needle@.len() <= haystack@.len(),
    ensures
        found == occurs_at(needle@, haystack@, at as int),
{
    let total: usize = haystack.len();
    let mut i: usize = 0;
    while i < needle.len()
        invariant
            i <= needle@.len(),
            at + needle@.len() <= haystack@.len() == total,
            forall|j: int| 0 <= j < i ==> haystack@[at + j] == needle@[j],
        decreases needle@.len() - i,
    {
        if haystack[at + i] != needle[i] {
            assert(haystack@.subrange(at as int, at + needle@.len())[i as int] != needle@[i as int]);
            return false;
        }
        i = i + 1;
    }
    assert(haystack@.subrange(at as int, at + needle@.len()) =~= needle@);
    true
}

/// Whether `needle` occurs somewhere in `haystack`.
pub fn occurs(needle: &Vec<char>, haystack: &Vec<char>) -> (found: bool)
    ensures
        found == occurs_in(needle@, haystack@),
{
    if needle.len() > haystack.len() {
        return false;
    }
    let last: usize = haystack.len() - needle.len();
    let mut i: usize = 0;
    loop
        invariant
            i <= last,
            last == haystack@.len() - needle@.len(),
            forall|j: int| 0 <= j < i ==> !occurs_at(needle@, haystack@, j),
        decreases last - i,
    {
        if stands_at(needle, haystack, i) {
            return true;
        }
        if i == last {
            return false;
        }
        i = i + 1;
    }
}

/// Whether a value counts as true.
pub fn truthy(value: &str) -> (holds: bool)
    ensures
        holds == is_truthy(value@),
{
    let haystack = chars_of(value);
    let lower = chars_of("true");
    let upper = chars_of("True");
    occurs(&lower, &haystack) || occurs(&upper, &haystack)
}

/// The text of a truth value: `true` or `false`.
pub fn truth_string(holds: bool) -> (text: String)
    ensures
        text@ == truth_text(holds),
{
    if holds {
        String::from_str("true")
    } else {
        String::from_str("false")
    }
}

/// The name under which an operator appears in diagnostics.
pub fn operator_text(operator: BinaryOperator) -> (name: &'static str)
    ensures
        name@ == operator_name(operator),
{
    match operator {
        BinaryOperator::GreaterThan => "GreaterThan",
        BinaryOperator::LessThan => "LessThan",
        BinaryOperator::GreaterThanOrEqual => "GreaterThanOrEqual",
        BinaryOperator::LessThanOrEqual => "LessThanOrEqual",
        BinaryOperator::Equal => "Equal",
        BinaryOperator::NotEqual => "NotEqual",
        BinaryOperator::Add => "Add",
        BinaryOperator::Subtract => "Subtract",
        BinaryOperator::Multiply => "Multiply",
        BinaryOperator::Divide => "Divide",
    }
}

/// The value of an identifier that is not bound.
pub fn undefined_value(name: &str) -> (text: String)
    ensures
        text@ == undefined_marker(name@),
{
    let mut text = String::from_str("<undefined: ");
    text.append(name);
    text.append(">");
    text
}

/// The value of a call of the function `name`.
pub fn call_value(name: &str) -> (text: String)
    ensures
        text@ == call_marker(name@),
{
    let mut text = String::from_str("<function call: ");
    text.append(name);
    text.append(">");
    text
}

/// The value of an operation whose operands are not both numbers.
pub fn unevaluated_value(left: &str, operator: BinaryOperator, right: &str) -> (text: String)
    ensures
        text@ == unevaluated(left@, operator, right@),
{
    let mut text = String::from_str("(");
    text.append(left);
    text.append(" ");
    text.append(operator_text(operator));
    text.append(" ");
    text.append(right);
    text.append(")");
    text
}

} // verus!
