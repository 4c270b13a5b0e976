//! What a program means: the output it produces and the bindings it leaves,
//! given the arithmetic of the host.
//!
//! Numbers in this language are double-precision values, and every value is
//! held as text. Reading a text as a number, computing with it and writing the
//! result back are the host's part; the meaning of a program is stated here
//! for any host, as a function of a [`Numerics`]. Which operators give a
//! truth value, which a number, and that only a division can fail, is fixed
//! here ([`operate`], [`fits`]).
use vstd::prelude::*;
use crate::ast::{BinaryOperator, ExpressionSpec, StatementSpec};

verus! {

/// The one way a run can fail.
#[derive(Debug, Clone, Copy, PartialEq, Eq, Structural)]
pub enum RuntimeError {
    DivisionByZero,
}

/// What the host answers when asked to apply an operator to two values.
#[derive(Debug, PartialEq, Eq)]
pub enum Arithmetic {
    /// At least one of the two values does not read as a number.
    NotNumeric,
    /// Both are numbers and the operator is a relation: whether it holds.
    Truth(bool),
    /// Both are numbers and the operator is arithmetic: the result, as text.
    Value(String),
    /// Both are numbers, the operator divides and the divisor is zero.
    DivisionByZero,
}

/// The model of an [`Arithmetic`].
pub enum ArithmeticSpec {
    NotNumeric,
    Truth(bool),
    Value(Seq<char>),
    DivisionByZero,
}

impl View for Arithmetic {
    type V = ArithmeticSpec;

    open spec fn view(&self) -> ArithmeticSpec {
        match self {
            Arithmetic::NotNumeric => ArithmeticSpec::NotNumeric,
            Arithmetic::Truth(holds) => ArithmeticSpec::Truth(*holds),
            Arithmetic::Value(text) => ArithmeticSpec::Value(text@),
            Arithmetic::DivisionByZero => ArithmeticSpec::DivisionByZero,
        }
    }
}

impl Arithmetic {
    /// Whether this answer is one that can be given for `operator`.
    pub fn fits(&self, operator: BinaryOperator) -> (answer: bool)
        ensures
            answer == fits(operator, self@),
    {
        match self {
            Arithmetic::NotNumeric => true,
            Arithmetic::Truth(_) => operator.relates(),
            Arithmetic::Value(_) => !operator.relates(),
            Arithmetic::DivisionByZero => matches!(operator, BinaryOperator::Divide),
        }
    }
}

/// The arithmetic of a host: which texts it reads as numbers, and what it
/// makes of numbers.
pub struct Numerics {
    /// The text that a number literal stands for.
    pub literal: spec_fn(Seq<char>) -> Seq<char>,
    /// Whether a value reads as a number.
    pub is_number: spec_fn(Seq<char>) -> bool,
    /// Whether a number is zero.
    pub is_zero: spec_fn(Seq<char>) -> bool,
    /// Whether a relation holds between two numbers.
    pub holds: spec_fn(BinaryOperator, Seq<char>, Seq<char>) -> bool,
    /// What an arithmetic operation makes of two numbers, as text.
    pub result: spec_fn(BinaryOperator, Seq<char>, Seq<char>) -> Seq<char>,
}

/// Whether an answer is one that can be given for `operator`: that the
/// operands are no numbers, for every operator; a truth value, for a
/// relation; a number, for an arithmetic operation; a division by zero, for
/// a division.
pub open spec fn fits(operator: BinaryOperator, answer: ArithmeticSpec) -> bool {
    match answer {
        ArithmeticSpec::NotNumeric => true,
        ArithmeticSpec::Truth(holds) => operator.is_relation(),
        ArithmeticSpec::Value(text) => !operator.is_relation(),
        ArithmeticSpec::DivisionByZero => operator is Divide,
    }
}

/// The answer that a host with the arithmetic `numerics` gives when asked to
/// apply `operator` to two values.
pub open spec fn answer_of(
    numerics: Numerics,
    operator: BinaryOperator,
    left: Seq<char>,
    right: Seq<char>,
) -> ArithmeticSpec {
    if !((numerics.is_number)(left) && (numerics.is_number)(right)) {
        ArithmeticSpec::NotNumeric
    } else if operator.is_relation() {
        ArithmeticSpec::Truth((numerics.holds)(operator, left, right))
    } else if operator is Divide && (numerics.is_zero)(right) {
        ArithmeticSpec::DivisionByZero
    } else {
        ArithmeticSpec::Value((numerics.result)(operator, left, right))
    }
}

/// One thing that a run makes visible.
pub enum Event {
    /// A line written by `show`.
    Line(Seq<char>),
    /// A function was declared under this name.
    Defined(Seq<char>),
}

/// The variable table, as a mathematical map.
pub type Bindings = Map<Seq<char>, Seq<char>>;

/// The result of running something: the bindings afterwards, what became
/// visible on the way, in order, and the error that ended the run, if any.
pub struct Outcome {
    pub bindings: Bindings,
    pub events: Seq<Event>,
    pub failure: Option<RuntimeError>,
}

/// Nothing happened.
pub open spec fn unchanged(bindings: Bindings) -> Outcome {
    Outcome { bindings, events: Seq::empty(), failure: None }
}

/// The run failed before anything became visible.
pub open spec fn failed(bindings: Bindings, error: RuntimeError) -> Outcome {
    Outcome { bindings, events: Seq::empty(), failure: Some(error) }
}

/// `event`, and then `rest`.
pub open spec fn preceded_by(event: Event, rest: Outcome) -> Outcome {
    Outcome { bindings: rest.bindings, events: seq![event] + rest.events, failure: rest.failure }
}

/// `first`, and then, unless it failed, `rest`, which starts from the
/// bindings that `first` left.
pub open spec fn followed_by(first: Outcome, rest: Outcome) -> Outcome {
    if first.failure is Some {
        first
    } else {
        Outcome {
            bindings: rest.bindings,
            events: first.events + rest.events,
            failure: rest.failure,
        }
    }
}

/// `needle` occurs in `haystack` as a run of consecutive characters.
pub open spec fn occurs_in(needle: Seq<char>, haystack: Seq<char>) -> bool {
    exists|i: int| occurs_at(needle, haystack, i)
}

/// `needle` occurs in `haystack` at index `i`.
pub open spec fn occurs_at(needle: Seq<char>, haystack: Seq<char>, i: int) -> bool {
    0 <= i && i + needle.len() <= haystack.len() && haystack.subrange(i, i + needle.len())
        == needle
}

/// A value counts as true when it contains `true` or `True`.
pub open spec fn is_truthy(value: Seq<char>) -> bool {
    occurs_in("true"@, value) || occurs_in("True"@, value)
}

/// The text of a truth value.
pub open spec fn truth_text(holds: bool) -> Seq<char> {
    if holds {
        "true"@
    } else {
        "false"@
    }
}

/// The name under which an operator appears in diagnostics.
pub open spec fn operator_name(operator: BinaryOperator) -> Seq<char> {
    match operator {
        BinaryOperator::GreaterThan => "GreaterThan"@,
        BinaryOperator::LessThan => "LessThan"@,
        BinaryOperator::GreaterThanOrEqual => "GreaterThanOrEqual"@,
        BinaryOperator::LessThanOrEqual => "LessThanOrEqual"@,
        BinaryOperator::Equal => "Equal"@,
        BinaryOperator::NotEqual => "NotEqual"@,
        BinaryOperator::Add => "Add"@,
        BinaryOperator::Subtract => "Subtract"@,
        BinaryOperator::Multiply => "Multiply"@,
        BinaryOperator::Divide => "Divide"@,
    }
}

/// The value of an identifier that is not bound.
pub open spec fn undefined_marker(name: Seq<char>) -> Seq<char> {
    "<undefined: "@ + name + ">"@
}

/// The value of every function call.
pub open spec fn call_marker(name: Seq<char>) -> Seq<char> {
    "<function call: "@ + name + ">"@
}

/// The value of an operation on operands that are not both numbers: the
/// operation itself, written out.
pub open spec fn unevaluated(left: Seq<char>, operator: BinaryOperator, right: Seq<char>) -> Seq<
    char,
> {
    "("@ + left + " "@ + operator_name(operator) + " "@ + right + ")"@
}

/// The value of an operator applied to two values, or the error it raises.
///
/// Where the two values are not both numbers, the value is the operation
/// written out. Where they are, a relation gives `true` or `false`, a
/// division by zero fails, and any other arithmetic operation gives a
/// number.
pub open spec fn operate(
    operator: BinaryOperator,
    left: Seq<char>,
    right: Seq<char>,
    numerics: Numerics,
) -> Result<Seq<char>, RuntimeError> {
    if !((numerics.is_number)(left) && (numerics.is_number)(right)) {
        Ok(unevaluated(left, operator, right))
    } else if operator.is_relation() {
        Ok(truth_text((numerics.holds)(operator, left, right)))
    } else if operator is Divide && (numerics.is_zero)(right) {
        Err(RuntimeError::DivisionByZero)
    } else {
        Ok((numerics.result)(operator, left, right))
    }
}

/// What an operation comes to once the host has given an answer that fits
/// the operator.
pub open spec fn settle(
    operator: BinaryOperator,
    left: Seq<char>,
    right: Seq<char>,
    answer: ArithmeticSpec,
) -> Result<Seq<char>, RuntimeError>
    recommends
        fits(operator, answer),
{
    match answer {
        ArithmeticSpec::NotNumeric => Ok(unevaluated(left, operator, right)),
        ArithmeticSpec::Truth(holds) => Ok(truth_text(holds)),
        ArithmeticSpec::Value(text) => Ok(text),
        ArithmeticSpec::DivisionByZero => Err(RuntimeError::DivisionByZero),
    }
}

/// A host's answer fits the operator it was asked about, and what becomes of
/// the answer is the value of the operation.
pub proof fn lemma_answers_fit(
    numerics: Numerics,
    operator: BinaryOperator,
    left: Seq<char>,
    right: Seq<char>,
)
    ensures
        fits(operator, answer_of(numerics, operator, left, right)),
        settle(operator, left, right, answer_of(numerics, operator, left, right)) == operate(
            operator,
            left,
            right,
            numerics,
        ),
{
}

/// The value of an expression under the given bindings, or the error that
/// evaluating it raises. Operands are evaluated left first; an unbound
/// identifier and a function call have marker values and raise nothing.
pub open spec fn evaluate_expression(
    expression: ExpressionSpec,
    bindings: Bindings,
    numerics: Numerics,
) -> Result<Seq<char>, RuntimeError>
    decreases expression,
{
    match expression {
        ExpressionSpec::Number(lexeme) => Ok((numerics.literal)(lexeme)),
        ExpressionSpec::String(text) => Ok(text),
        ExpressionSpec::Identifier(name) => if bindings.contains_key(name) {
            Ok(bindings[name])
        } else {
            Ok(undefined_marker(name))
        },
        ExpressionSpec::BinaryOp { left, operator, right } => {
            match evaluate_expression(*left, bindings, numerics) {
                Err(error) => Err(error),
                Ok(left_value) => match evaluate_expression(*right, bindings, numerics) {
                    Err(error) => Err(error),
                    Ok(right_value) => operate(operator, left_value, right_value, numerics),
                },
            }
        },
        ExpressionSpec::FunctionCall { name, arguments } => Ok(call_marker(name)),
    }
}

/// The effect of one statement.
pub open spec fn interpret_statement(
    statement: StatementSpec,
    bindings: Bindings,
    numerics: Numerics,
) -> Outcome
    decreases statement, 0nat,
{
    match statement {
        StatementSpec::Let { identifier, value } => {
            match evaluate_expression(value, bindings, numerics) {
                Ok(text) => unchanged(bindings.insert(identifier, text)),
                Err(error) => failed(bindings, error),
            }
        },
        StatementSpec::Show { value } => match evaluate_expression(value, bindings, numerics) {
            Ok(text) => preceded_by(Event::Line(text), unchanged(bindings)),
            Err(error) => failed(bindings, error),
        },
        StatementSpec::When { condition, then_block, otherwise_block } => {
            match evaluate_expression(condition, bindings, numerics) {
                Ok(text) => if is_truthy(text) {
                    interpret_block(then_block, 0, bindings, numerics)
                } else {
                    match otherwise_block {
                        Some(block) => interpret_block(block, 0, bindings, numerics),
                        None => unchanged(bindings),
                    }
                },
                Err(error) => failed(bindings, error),
            }
        },
        StatementSpec::FunctionDef { name, parameters, body } => preceded_by(
            Event::Defined(name),
            unchanged(bindings),
        ),
        StatementSpec::Expression(expression) => {
            match evaluate_expression(expression, bindings, numerics) {
                Ok(text) => unchanged(bindings),
                Err(error) => failed(bindings, error),
            }
        },
    }
}

/// The effect of the statements of `block` from index `from` on, in order,
/// up to and including the first one that fails.
pub open spec fn interpret_block(
    block: Seq<StatementSpec>,
    from: int,
    bindings: Bindings,
    numerics: Numerics,
) -> Outcome
    decreases block, block.len() - from,
{
    if 0 <= from < block.len() {
        let first = interpret_statement(block[from], bindings, numerics);
        followed_by(first, interpret_block(block, from + 1, first.bindings, numerics))
    } else {
        unchanged(bindings)
    }
}

/// The effect of a whole program, run on an empty variable table.
pub open spec fn interpret(program: Seq<StatementSpec>, numerics: Numerics) -> Outcome {
    interpret_block(program, 0, Map::empty(), numerics)
}

} // verus!
