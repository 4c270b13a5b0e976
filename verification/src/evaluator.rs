//! The evaluator: a machine that walks a program and executes it.
//!
//! The machine does everything but two things, which it leaves to the host
//! that drives it: writing a line, and arithmetic on double-precision
//! numbers. [`Evaluator::step`] runs the program up to the next point where
//! the host is needed and says what is wanted; after a question, the host
//! hands the answer to [`Evaluator::supply_literal`] or
//! [`Evaluator::supply_arithmetic`] and steps again.
use vstd::prelude::*;
use crate::ast::{
    block_view, BinaryOperator, Expression, ExpressionSpec, Program, Statement, StatementSpec,
    WhenStatement,
};
use crate::environment::Environment;
use crate::semantics::{
    answer_of, evaluate_expression, failed, fits, followed_by, interpret, interpret_block,
    interpret_statement, is_truthy, operate, preceded_by, unchanged, Arithmetic, Bindings, Event,
    Numerics, Outcome, RuntimeError,
};
use crate::values::{call_value, truth_string, truthy, undefined_value, unevaluated_value};

verus! {

/// What a step of the machine asks of the host, or reports to it.
#[derive(Debug, PartialEq, Eq)]
pub enum Action {
    /// Write this line.
    Show(String),
    /// A function of this name was declared.
    Define(String),
    /// Say which text this number literal stands for.
    Literal(String),
    /// Apply the operator to the two values.
    Compute { operator: BinaryOperator, left: String, right: String },
    /// The program has run to its end.
    Finished,
    /// The program has failed; nothing more will happen.
    Failed(RuntimeError),
}

/// A question that the machine has asked and that is not answered yet.
pub enum Query {
    Literal(Seq<char>),
    Binary(BinaryOperator, Seq<char>, Seq<char>),
}

/// A block that is being run, and the index of its next statement.
struct Cursor<'a> {
    block: &'a Vec<Statement>,
    next: usize,
}

/// What becomes of the value of the expression that is being evaluated.
enum Sink<'a> {
    Bind(&'a String),
    Show,
    Branch(&'a WhenStatement),
    Discard,
}

/// An operation that waits for the value of one of its operands.
enum Frame<'a> {
    /// The left operand is being evaluated; the right one comes next.
    Right { operator: BinaryOperator, right: &'a Expression },
    /// The right operand is being evaluated; this is the value of the left.
    Operate { operator: BinaryOperator, left: String },
}

/// What the machine has in hand while it evaluates an expression.
enum Focus<'a> {
    /// About to evaluate this expression.
    Expression(&'a Expression),
    /// Holding the value of the expression just evaluated.
    Value(String),
    /// Waiting for the text of this number literal.
    Literal(&'a String),
    /// Waiting for the result of this operation.
    Binary { operator: BinaryOperator, left: String, right: String },
}

/// The evaluation of the expression of one statement.
struct Evaluation<'a> {
    sink: Sink<'a>,
    frames: Vec<Frame<'a>>,
    focus: Focus<'a>,
}

/// What the machine is doing.
enum Activity<'a> {
    /// Between two statements.
    Idle,
    /// Stopped by an error.
    Halted(RuntimeError),
    /// Inside a statement.
    Evaluating(Evaluation<'a>),
}

/// The state of a run of one program.
pub struct Evaluator<'a> {
    environment: Environment,
    blocks: Vec<Cursor<'a>>,
    activity: Activity<'a>,
}

/// The number of steps that evaluating an expression takes.
spec fn expression_cost(expression: ExpressionSpec) -> nat
    decreases expression,
{
    match expression {
        ExpressionSpec::BinaryOp { left, operator, right } => 3 + expression_cost(*left)
            + expression_cost(*right),
        _ => 1,
    }
}

/// A bound on the number of steps that running a statement takes.
spec fn statement_cost(statement: StatementSpec) -> nat
    decreases statement, 0nat,
{
    match statement {
        StatementSpec::Let { identifier, value } => 2 + expression_cost(value),
        StatementSpec::Show { value } => 2 + expression_cost(value),
        StatementSpec::When { condition, then_block, otherwise_block } => 3 + expression_cost(
            condition,
        ) + block_cost(then_block, 0) + match otherwise_block {
            Some(block) => 1 + block_cost(block, 0),
            None => 0,
        },
        StatementSpec::FunctionDef { name, parameters, body } => 1,
        StatementSpec::Expression(expression) => 2 + expression_cost(expression),
    }
}

/// A bound on the number of steps that running a block from `from` on takes.
spec fn block_cost(block: Seq<StatementSpec>, from: int) -> nat
    decreases block, block.len() - from,
{
    if 0 <= from < block.len() {
        statement_cost(block[from]) + block_cost(block, from + 1)
    } else {
        0
    }
}

spec fn frame_cost(frame: Frame) -> nat {
    match frame {
        Frame::Right { operator, right } => 2 + expression_cost(right@),
        Frame::Operate { operator, left } => 1,
    }
}

spec fn frames_cost(frames: Seq<Frame>) -> nat
    decreases frames.len(),
{
    if frames.len() == 0 {
        0
    } else {
        frames_cost(frames.drop_last()) + frame_cost(frames.last())
    }
}

spec fn sink_cost(sink: Sink) -> nat {
    match sink {
        Sink::Branch(when) => 2 + block_cost(block_view(when.then_block), 0)
            + match when.otherwise_block {
            Some(block) => 1 + block_cost(block_view(block), 0),
            None => 0,
        },
        _ => 1,
    }
}

spec fn cursor_cost(cursor: Cursor) -> nat {
    1 + block_cost(block_view(*cursor.block), cursor.next as int)
}

spec fn blocks_cost(blocks: Seq<Cursor>) -> nat
    decreases blocks.len(),
{
    if blocks.len() == 0 {
        0
    } else {
        blocks_cost(blocks.drop_last()) + cursor_cost(blocks.last())
    }
}

/// What is left of the blocks that are being run, innermost last.
spec fn run_blocks(blocks: Seq<Cursor>, bindings: Bindings, numerics: Numerics) -> Outcome
    decreases blocks.len(),
{
    if blocks.len() == 0 {
        unchanged(bindings)
    } else {
        let top = blocks.last();
        let first = interpret_block(block_view(*top.block), top.next as int, bindings, numerics);
        followed_by(first, run_blocks(blocks.drop_last(), first.bindings, numerics))
    }
}

/// What happens once the expression of the current statement has the value
/// `value`.
spec fn settle_sink(
    sink: Sink,
    value: Seq<char>,
    blocks: Seq<Cursor>,
    bindings: Bindings,
    numerics: Numerics,
) -> Outcome {
    match sink {
        Sink::Bind(name) => run_blocks(blocks, bindings.insert(name@, value), numerics),
        Sink::Show => preceded_by(Event::Line(value), run_blocks(blocks, bindings, numerics)),
        Sink::Branch(when) => {
            if is_truthy(value) {
                let first = interpret_block(block_view(when.then_block), 0, bindings, numerics);
                followed_by(first, run_blocks(blocks, first.bindings, numerics))
            } else {
                match when.otherwise_block {
                    Some(block) => {
                        let first = interpret_block(block_view(block), 0, bindings, numerics);
                        followed_by(first, run_blocks(blocks, first.bindings, numerics))
                    },
                    None => run_blocks(blocks, bindings, numerics),
                }
            }
        },
        Sink::Discard => run_blocks(blocks, bindings, numerics),
    }
}

/// The value that the waiting operations make of `value`, innermost last.
spec fn unwind(
    frames: Seq<Frame>,
    value: Result<Seq<char>, RuntimeError>,
    bindings: Bindings,
    numerics: Numerics,
) -> Result<Seq<char>, RuntimeError>
    decreases frames.len(),
{
    if frames.len() == 0 {
        value
    } else {
        match value {
            Err(error) => Err(error),
            Ok(text) => match frames.last() {
                Frame::Right { operator, right } => {
                    match evaluate_expression(right@, bindings, numerics) {
                        Err(error) => Err(error),
                        Ok(other) => unwind(
                            frames.drop_last(),
                            operate(operator, text, other, numerics),
                            bindings,
                            numerics,
                        ),
                    }
                },
                Frame::Operate { operator, left } => unwind(
                    frames.drop_last(),
                    operate(operator, left@, text, numerics),
                    bindings,
                    numerics,
                ),
            },
        }
    }
}

/// The value that the machine is about to have in hand.
spec fn focus_value(focus: Focus, bindings: Bindings, numerics: Numerics) -> Result<
    Seq<char>,
    RuntimeError,
> {
    match focus {
        Focus::Expression(expression) => evaluate_expression(expression@, bindings, numerics),
        Focus::Value(text) => Ok(text@),
        Focus::Literal(lexeme) => Ok((numerics.literal)(lexeme@)),
        Focus::Binary { operator, left, right } => operate(operator, left@, right@, numerics),
    }
}

spec fn remaining_of(
    activity: Activity,
    blocks: Seq<Cursor>,
    bindings: Bindings,
    numerics: Numerics,
) -> Outcome {
    match activity {
        Activity::Idle => run_blocks(blocks, bindings, numerics),
        Activity::Halted(error) => failed(bindings, error),
        Activity::Evaluating(evaluation) => match unwind(
            evaluation.frames@,
            focus_value(evaluation.focus, bindings, numerics),
            bindings,
            numerics,
        ) {
            Err(error) => failed(bindings, error),
            Ok(text) => settle_sink(evaluation.sink, text, blocks, bindings, numerics),
        },
    }
}

spec fn effort_of(activity: Activity, blocks: Seq<Cursor>) -> nat {
    match activity {
        Activity::Idle => blocks_cost(blocks),
        Activity::Halted(error) => 0,
        Activity::Evaluating(evaluation) => (match evaluation.focus {
            Focus::Expression(expression) => expression_cost(expression@),
            _ => 0,
        }) + frames_cost(evaluation.frames@) + sink_cost(evaluation.sink) + blocks_cost(blocks),
    }
}

/// Nothing, and then `rest`, is `rest`.
proof fn lemma_nothing_first(bindings: Bindings, rest: Outcome)
    ensures
        followed_by(unchanged(bindings), rest) == rest,
{
    assert(Seq::<Event>::empty() + rest.events =~= rest.events);
}

/// `first`, and then nothing, is `first`.
proof fn lemma_nothing_after(first: Outcome)
    ensures
        followed_by(first, unchanged(first.bindings)) == first,
{
    assert(first.events + Seq::<Event>::empty() =~= first.events);
}

/// An event by itself, and then `rest`, is the event before `rest`.
proof fn lemma_event_first(event: Event, bindings: Bindings, rest: Outcome)
    ensures
        followed_by(preceded_by(event, unchanged(bindings)), rest) == preceded_by(event, rest),
{
    assert((seq![event] + Seq::<Event>::empty()) + rest.events =~= seq![event] + rest.events);
}

/// Three outcomes in a row are grouped either way.
proof fn lemma_followed_by_associates(a: Outcome, b: Outcome, c: Outcome)
    ensures
        followed_by(followed_by(a, b), c) == followed_by(a, followed_by(b, c)),
{
    assert((a.events + b.events) + c.events =~= a.events + (b.events + c.events));
}

/// Running the blocks with one more on top runs that one first.
proof fn lemma_run_blocks_push(
    blocks: Seq<Cursor>,
    top: Cursor,
    bindings: Bindings,
    numerics: Numerics,
)
    ensures
        run_blocks(blocks.push(top), bindings, numerics) == ({
            let first = interpret_block(
                block_view(*top.block),
                top.next as int,
                bindings,
                numerics,
            );
            followed_by(first, run_blocks(blocks, first.bindings, numerics))
        }),
{
    assert(blocks.push(top).drop_last() =~= blocks);
}

/// The blocks with one more on top cost what they cost without it and what
/// that one costs.
proof fn lemma_blocks_cost_push(blocks: Seq<Cursor>, top: Cursor)
    ensures
        blocks_cost(blocks.push(top)) == blocks_cost(blocks) + cursor_cost(top),
{
    assert(blocks.push(top).drop_last() =~= blocks);
}

/// What the waiting operations with one more on top are and cost.
proof fn lemma_frames_push(frames: Seq<Frame>, top: Frame)
    ensures
        frames.push(top).drop_last() == frames,
        frames.push(top).last() == top,
        frames_cost(frames.push(top)) == frames_cost(frames) + frame_cost(top),
{
    assert(frames.push(top).drop_last() =~= frames);
}

impl<'a> Evaluator<'a> {
    /// What the rest of the run will do, if the host's arithmetic is
    /// `numerics`: the events still to come and how the run ends.
    pub closed spec fn remaining(&self, numerics: Numerics) -> Outcome {
        remaining_of(self.activity, self.blocks@, self.environment@, numerics)
    }

    /// A bound on the number of steps that the rest of the run takes.
    pub closed spec fn effort(&self) -> nat {
        effort_of(self.activity, self.blocks@)
    }

    /// The question that waits for the host's answer, if there is one.
    pub closed spec fn pending(&self) -> Option<Query> {
        match self.activity {
            Activity::Evaluating(evaluation) => match evaluation.focus {
                Focus::Literal(lexeme) => Some(Query::Literal(lexeme@)),
                Focus::Binary { operator, left, right } => Some(
                    Query::Binary(operator, left@, right@),
                ),
                _ => None,
            },
            _ => None,
        }
    }

    /// The variable table as it stands.
    pub closed spec fn bindings(&self) -> Bindings {
        self.environment@
    }

    /// `after` is what one step makes of this machine, and `action` is what
    /// the step returns.
    ///
    /// Whatever the host's arithmetic is, the rest of this run is the rest of
    /// the run of `after`, behind the event that `action` reports, if it
    /// reports one. Unless the machine was waiting for an answer already, or
    /// is done, `after` is nearer to the end than the machine was.
    pub open spec fn yields(&self, action: Action, after: Evaluator<'a>) -> bool {
        match action {
            Action::Show(text) => {
                &&& self.pending() is None
                &&& after.pending() is None
                &&& after.effort() < self.effort()
                &&& forall|numerics: Numerics|
                    self.remaining(numerics) == preceded_by(
                        Event::Line(text@),
                        #[trigger] after.remaining(numerics),
                    )
            },
            Action::Define(name) => {
                &&& self.pending() is None
                &&& after.pending() is None
                &&& after.effort() < self.effort()
                &&& forall|numerics: Numerics|
                    self.remaining(numerics) == preceded_by(
                        Event::Defined(name@),
                        #[trigger] after.remaining(numerics),
                    )
            },
            Action::Literal(lexeme) => {
                &&& after.pending() == Some(Query::Literal(lexeme@))
                &&& self.asks(after)
            },
            Action::Compute { operator, left, right } => {
                &&& after.pending() == Some(Query::Binary(operator, left@, right@))
                &&& self.asks(after)
            },
            Action::Finished => {
                &&& self.pending() is None
                &&& after.pending() is None
                &&& forall|numerics: Numerics|
                    self.remaining(numerics) == unchanged(after.bindings())
                        && #[trigger] after.remaining(numerics) == self.remaining(numerics)
            },
            Action::Failed(error) => {
                &&& self.pending() is None
                &&& after.pending() is None
                &&& forall|numerics: Numerics|
                    self.remaining(numerics) == failed(after.bindings(), error)
                        && #[trigger] after.remaining(numerics) == self.remaining(numerics)
            },
        }
    }

    /// `after` waits for an answer, and the rest of its run is the rest of
    /// this one. If this machine was waiting already, nothing has changed.
    pub open spec fn asks(&self, after: Evaluator<'a>) -> bool {
        &&& forall|numerics: Numerics| #[trigger]
            after.remaining(numerics) == self.remaining(numerics)
        &&& if self.pending() is Some {
            after == *self
        } else {
            after.effort() < self.effort()
        }
    }

    /// `after` is this machine one step later, and the step was of no
    /// concern to the host.
    spec fn moves_quietly_to(&self, after: Evaluator<'a>) -> bool {
        &&& self.pending() is None
        &&& after.pending() is None
        &&& after.effort() < self.effort()
        &&& forall|numerics: Numerics| #[trigger]
            after.remaining(numerics) == self.remaining(numerics)
    }

    /// One transition of the machine leads from this state to `after`.
    spec fn moves_to(&self, action: Option<Action>, after: Evaluator<'a>) -> bool {
        match action {
            None => self.moves_quietly_to(after),
            Some(action) => self.yields(action, after) && (action is Finished || action is Failed
                ==> after == *self),
        }
    }

    /// This machine, in the middle of a statement.
    spec fn evaluating(&self, sink: Sink<'a>, frames: Vec<Frame<'a>>, focus: Focus<'a>) -> Evaluator<
        'a,
    > {
        Evaluator {
            environment: self.environment,
            blocks: self.blocks,
            activity: Activity::Evaluating(Evaluation { sink, frames, focus }),
        }
    }

    /// A machine that is about to run `program` on an empty variable table.
    pub fn new(program: &'a Program) -> (evaluator: Evaluator<'a>)
        ensures
            evaluator.pending() is None,
            evaluator.bindings() == Map::<Seq<char>, Seq<char>>::empty(),
            forall|numerics: Numerics| #[trigger]
                evaluator.remaining(numerics) == interpret(program@, numerics),
    {
        let mut blocks: Vec<Cursor<'a>> = Vec::new();
        let cursor = Cursor { block: &program.statements, next: 0 };
        blocks.push(cursor);
        let evaluator = Evaluator {
            environment: Environment::new(),
            blocks,
            activity: Activity::Idle,
        };
        proof {
            assert forall|numerics: Numerics| #[trigger]
                evaluator.remaining(numerics) == interpret(program@, numerics) by {
                lemma_run_blocks_push(Seq::empty(), cursor, evaluator.environment@, numerics);
                assert(evaluator.blocks@ =~= Seq::<Cursor>::empty().push(cursor));
                lemma_nothing_after(interpret(program@, numerics));
            }
        }
        evaluator
    }

    /// Takes up the next statement of the innermost block, or leaves the
    /// block if it has none.
    fn dispatch(&mut self) -> (action: Option<Action>)
        requires
            old(self).activity is Idle,
        ensures
            old(self).moves_to(action, *final(self)),
    {
        let ghost before = *self;
        if self.blocks.len() == 0 {
            return Some(Action::Finished);
        }
        let cursor = self.blocks.pop().unwrap();
        let ghost rest = self.blocks@;
        assert(before.blocks@ =~= rest.push(cursor));
        if cursor.next >= cursor.block.len() {
            proof {
                lemma_leave_block_cost(rest, cursor);
                assert forall|numerics: Numerics| #[trigger]
                    self.remaining(numerics) == before.remaining(numerics) by {
                    lemma_leave_block(rest, cursor, before.environment@, numerics);
                }
            }
            return None;
        }
        let statement = &cursor.block[cursor.next];
        let onward = Cursor { block: cursor.block, next: cursor.next + 1 };
        self.blocks.push(onward);
        let evaluation = match statement {
            Statement::Let(binding) => Evaluation {
                sink: Sink::Bind(&binding.identifier),
                frames: Vec::new(),
                focus: Focus::Expression(&binding.value),
            },
            Statement::Show(show) => Evaluation {
                sink: Sink::Show,
                frames: Vec::new(),
                focus: Focus::Expression(&show.value),
            },
            Statement::When(when) => Evaluation {
                sink: Sink::Branch(when),
                frames: Vec::new(),
                focus: Focus::Expression(&when.condition),
            },
            Statement::Expression(expression) => Evaluation {
                sink: Sink::Discard,
                frames: Vec::new(),
                focus: Focus::Expression(expression),
            },
            Statement::FunctionDef(definition) => {
                let name = definition.name.clone();
                proof {
                    lemma_declare_cost(rest, cursor, onward);
                    assert forall|numerics: Numerics|
                        before.remaining(numerics) == preceded_by(
                            Event::Defined(name@),
                            #[trigger] self.remaining(numerics),
                        ) by {
                        lemma_declare(rest, cursor, onward, before.environment@, numerics);
                    }
                }
                return Some(Action::Define(name));
            },
        };
        proof {
            lemma_take_up_cost(rest, cursor, onward, evaluation);
            assert forall|numerics: Numerics|
                remaining_of(
                    Activity::Evaluating(evaluation),
                    rest.push(onward),
                    before.environment@,
                    numerics,
                ) == #[trigger] before.remaining(numerics) by {
                lemma_take_up(rest, cursor, onward, evaluation, before.environment@, numerics);
            }
        }
        self.activity = Activity::Evaluating(evaluation);
        None
    }

    /// Takes the first step of the evaluation of `expression`.
    fn descend(
        &mut self,
        sink: Sink<'a>,
        frames: Vec<Frame<'a>>,
        expression: &'a Expression,
    ) -> (action: Option<Action>)
        requires
            old(self).activity is Idle,
        ensures
            old(self).evaluating(sink, frames, Focus::Expression(expression)).moves_to(
                action,
                *final(self),
            ),
    {
        let ghost before = self.evaluating(sink, frames, Focus::Expression(expression));
        match expression {
            Expression::Number(lexeme) => {
                let action = Action::Literal(lexeme.clone());
                self.activity = Activity::Evaluating(
                    Evaluation { sink, frames, focus: Focus::Literal(lexeme) },
                );
                Some(action)
            },
            Expression::String(text) => {
                self.activity = Activity::Evaluating(
                    Evaluation { sink, frames, focus: Focus::Value(text.clone()) },
                );
                None
            },
            Expression::Identifier(name) => {
                let value = match self.environment.lookup(name) {
                    Some(value) => value,
                    None => undefined_value(name.as_str()),
                };
                self.activity = Activity::Evaluating(
                    Evaluation { sink, frames, focus: Focus::Value(value) },
                );
                None
            },
            Expression::BinaryOp(operation) => {
                let mut waiting = frames;
                let frame = Frame::Right { operator: operation.operator, right: &*operation.right };
                waiting.push(frame);
                proof {
                    lemma_frames_push(frames@, frame);
                }
                self.activity = Activity::Evaluating(
                    Evaluation {
                        sink,
                        frames: waiting,
                        focus: Focus::Expression(&*operation.left),
                    },
                );
                assert forall|numerics: Numerics| #[trigger]
                    self.remaining(numerics) == before.remaining(numerics) by {
                    lemma_unwind_error(frames@, self.environment@, numerics);
                }
                None
            },
            Expression::FunctionCall(call) => {
                self.activity = Activity::Evaluating(
                    Evaluation { sink, frames, focus: Focus::Value(call_value(call.name.as_str())) },
                );
                None
            },
        }
    }

    /// Hands the value of the expression just evaluated to what waits for it:
    /// the innermost operation, or else the statement.
    fn deliver(&mut self, sink: Sink<'a>, frames: Vec<Frame<'a>>, text: String) -> (action: Option<
        Action,
    >)
        requires
            old(self).activity is Idle,
        ensures
            old(self).evaluating(sink, frames, Focus::Value(text)).moves_to(action, *final(self)),
    {
        let ghost before = self.evaluating(sink, frames, Focus::Value(text));
        let mut waiting = frames;
        match waiting.pop() {
            Some(Frame::Right { operator, right }) => {
                let ghost rest = waiting@;
                let ghost popped = Frame::Right { operator, right };
                let frame = Frame::Operate { operator, left: text };
                waiting.push(frame);
                proof {
                    assert(frames@ =~= rest.push(popped));
                    lemma_frames_push(rest, popped);
                    lemma_frames_push(rest, frame);
                }
                self.activity = Activity::Evaluating(
                    Evaluation { sink, frames: waiting, focus: Focus::Expression(right) },
                );
                None
            },
            Some(Frame::Operate { operator, left }) => {
                let ghost rest = waiting@;
                let ghost popped = Frame::Operate { operator, left };
                proof {
                    assert(frames@ =~= rest.push(popped));
                    lemma_frames_push(rest, popped);
                }
                let action = Action::Compute { operator, left: left.clone(), right: text.clone() };
                self.activity = Activity::Evaluating(
                    Evaluation {
                        sink,
                        frames: waiting,
                        focus: Focus::Binary { operator, left, right: text },
                    },
                );
                Some(action)
            },
            None => {
                match sink {
                    Sink::Bind(name) => {
                        self.environment.bind(name.clone(), text);
                        None
                    },
                    Sink::Show => {
                        Some(Action::Show(text))
                    },
                    Sink::Branch(when) => {
                        let ghost rest = self.blocks@;
                        if truthy(text.as_str()) {
                            let cursor = Cursor { block: &when.then_block, next: 0 };
                            self.blocks.push(cursor);
                            proof {
                                assert forall|numerics: Numerics| #[trigger]
                                    self.remaining(numerics) == before.remaining(numerics) by {
                                    lemma_run_blocks_push(
                                        rest,
                                        cursor,
                                        self.environment@,
                                        numerics,
                                    );
                                }
                                lemma_blocks_cost_push(rest, cursor);
                            }
                        } else {
                            match &when.otherwise_block {
                                Some(block) => {
                                    let cursor = Cursor { block, next: 0 };
                                    self.blocks.push(cursor);
                                    proof {
                                        assert forall|numerics: Numerics| #[trigger]
                                            self.remaining(numerics) == before.remaining(
                                                numerics,
                                            ) by {
                                            lemma_run_blocks_push(
                                                rest,
                                                cursor,
                                                self.environment@,
                                                numerics,
                                            );
                                        }
                                        lemma_blocks_cost_push(rest, cursor);
                                    }
                                },
                                None => {},
                            }
                        }
                        None
                    },
                    Sink::Discard => {
                        None
                    },
                }
            },
        }
    }

    /// Makes one move.
    fn transition(&mut self) -> (action: Option<Action>)
        ensures
            old(self).moves_to(action, *final(self)),
    {
        let mut activity = Activity::Idle;
        core::mem::swap(&mut self.activity, &mut activity);
        match activity {
            Activity::Idle => self.dispatch(),
            Activity::Halted(error) => {
                self.activity = Activity::Halted(error);
                Some(Action::Failed(error))
            },
            Activity::Evaluating(evaluation) => {
                let Evaluation { sink, frames, focus } = evaluation;
                match focus {
                    Focus::Expression(expression) => self.descend(sink, frames, expression),
                    Focus::Value(text) => self.deliver(sink, frames, text),
                    Focus::Literal(lexeme) => {
                        let action = Action::Literal(lexeme.clone());
                        self.activity = Activity::Evaluating(
                            Evaluation { sink, frames, focus: Focus::Literal(lexeme) },
                        );
                        Some(action)
                    },
                    Focus::Binary { operator, left, right } => {
                        let action = Action::Compute {
                            operator,
                            left: left.clone(),
                            right: right.clone(),
                        };
                        self.activity = Activity::Evaluating(
                            Evaluation { sink, frames, focus: Focus::Binary { operator, left, right } },
                        );
                        Some(action)
                    },
                }
            },
        }
    }

    /// Runs the program up to the next point where the host is needed, and
    /// says what is wanted of it.
    ///
    /// While a question waits for its answer, the step asks it again and
    /// changes nothing.
    pub fn step(&mut self) -> (action: Action)
        ensures
            old(self).yields(action, *final(self)),
    {
        loop
            invariant
                forall|numerics: Numerics| #[trigger]
                    self.remaining(numerics) == old(self).remaining(numerics),
                self.effort() <= old(self).effort(),
                old(self).pending() is Some ==> *self == *old(self),
                old(self).pending() is None ==> self.pending() is None,
            decreases self.effort(),
        {
            match self.transition() {
                Some(action) => {
                    return action;
                },
                None => {},
            }
        }
    }

    /// Answers the question of which text a number literal stands for.
    ///
    /// Returns whether the machine was waiting for that; if it was not, it is
    /// left as it was.
    pub fn supply_literal(&mut self, text: String) -> (accepted: bool)
        ensures
            accepted == (old(self).pending() matches Some(Query::Literal(_))),
            !accepted ==> *final(self) == *old(self),
            accepted ==> {
                &&& final(self).pending() is None
                &&& final(self).effort() <= old(self).effort()
                &&& final(self).bindings() == old(self).bindings()
                &&& forall|numerics: Numerics|
                    (numerics.literal)(old(self).pending()->0->Literal_0) == text@
                        ==> #[trigger] final(self).remaining(numerics) == old(self).remaining(
                        numerics,
                    )
            },
    {
        let mut activity = Activity::Idle;
        core::mem::swap(&mut self.activity, &mut activity);
        match activity {
            Activity::Evaluating(evaluation) => {
                let Evaluation { sink, frames, focus } = evaluation;
                match focus {
                    Focus::Literal(lexeme) => {
                        self.activity = Activity::Evaluating(
                            Evaluation { sink, frames, focus: Focus::Value(text) },
                        );
                        true
                    },
                    other => {
                        self.activity = Activity::Evaluating(
                            Evaluation { sink, frames, focus: other },
                        );
                        false
                    },
                }
            },
            other => {
                self.activity = other;
                false
            },
        }
    }

    /// Answers the question of what an operator makes of two values.
    ///
    /// Returns whether the answer was taken: whether the machine was waiting
    /// for one and the answer fits the operator that was asked about. If
    /// not, the machine is left as it was. Operands that are not both
    /// numbers give the operation written out; a truth value gives `true` or
    /// `false`; a division by zero stops the machine.
    pub fn supply_arithmetic(&mut self, answer: Arithmetic) -> (accepted: bool)
        ensures
            accepted == (old(self).pending() matches Some(Query::Binary(operator, _, _))
                && fits(operator, answer@)),
            !accepted ==> *final(self) == *old(self),
            accepted ==> {
                &&& final(self).pending() is None
                &&& final(self).effort() <= old(self).effort()
                &&& final(self).bindings() == old(self).bindings()
                &&& forall|numerics: Numerics|
                    answer_of(
                        numerics,
                        old(self).pending()->0->Binary_0,
                        old(self).pending()->0->Binary_1,
                        old(self).pending()->0->Binary_2,
                    ) == answer@ ==> #[trigger] final(self).remaining(numerics) == old(
                        self,
                    ).remaining(numerics)
            },
    {
        let mut activity = Activity::Idle;
        core::mem::swap(&mut self.activity, &mut activity);
        match activity {
            Activity::Evaluating(evaluation) => {
                let Evaluation { sink, frames, focus } = evaluation;
                match focus {
                    Focus::Binary { operator, left, right } => {
                        if !answer.fits(operator) {
                            self.activity = Activity::Evaluating(
                                Evaluation {
                                    sink,
                                    frames,
                                    focus: Focus::Binary { operator, left, right },
                                },
                            );
                            return false;
                        }
                        let value = match answer {
                            Arithmetic::NotNumeric => unevaluated_value(
                                left.as_str(),
                                operator,
                                right.as_str(),
                            ),
                            Arithmetic::Truth(holds) => truth_string(holds),
                            Arithmetic::Value(text) => text,
                            Arithmetic::DivisionByZero => {
                                self.activity = Activity::Halted(RuntimeError::DivisionByZero);
                                proof {
                                    assert forall|numerics: Numerics|
                                        answer_of(numerics, operator, left@, right@) == answer@
                                        implies #[trigger] self.remaining(numerics) == old(
                                        self,
                                    ).remaining(numerics) by {
                                        lemma_unwind_error(frames@, self.environment@, numerics);
                                    }
                                }
                                return true;
                            },
                        };
                        self.activity = Activity::Evaluating(
                            Evaluation { sink, frames, focus: Focus::Value(value) },
                        );
                        true
                    },
                    other => {
                        self.activity = Activity::Evaluating(
                            Evaluation { sink, frames, focus: other },
                        );
                        false
                    },
                }
            },
            other => {
                self.activity = other;
                false
            },
        }
    }

    /// The variable table as it stands.
    pub fn environment(&self) -> (environment: &Environment)
        ensures
            environment@ == self.bindings(),
    {
        &self.environment
    }
}

/// An error passes through the waiting operations unchanged.
proof fn lemma_unwind_error(frames: Seq<Frame>, bindings: Bindings, numerics: Numerics)
    ensures
        forall|error: RuntimeError| #[trigger]
            unwind(frames, Err(error), bindings, numerics) == Err::<Seq<char>, RuntimeError>(error),
{
}

/// Running the blocks with `cursor` on top is running its next statement,
/// then the blocks with `onward` on top.
proof fn lemma_next_statement(
    rest: Seq<Cursor>,
    cursor: Cursor,
    onward: Cursor,
    bindings: Bindings,
    numerics: Numerics,
)
    requires
        cursor.next < cursor.block@.len(),
        onward.block == cursor.block,
        onward.next == cursor.next + 1,
    ensures
        run_blocks(rest.push(cursor), bindings, numerics) == ({
            let first = interpret_statement(
                block_view(*cursor.block)[cursor.next as int],
                bindings,
                numerics,
            );
            followed_by(first, run_blocks(rest.push(onward), first.bindings, numerics))
        }),
{
    let block = block_view(*cursor.block);
    let first = interpret_statement(block[cursor.next as int], bindings, numerics);
    let tail = interpret_block(block, cursor.next + 1, first.bindings, numerics);
    lemma_run_blocks_push(rest, cursor, bindings, numerics);
    lemma_run_blocks_push(rest, onward, first.bindings, numerics);
    lemma_followed_by_associates(first, tail, run_blocks(rest, tail.bindings, numerics));
    let whole = followed_by(first, tail);
    if first.failure is None {
        assert(whole.bindings == tail.bindings);
    }
}

/// The cost of the blocks with `cursor` on top is that of its next statement
/// and of the blocks with `onward` on top.
proof fn lemma_next_statement_cost(rest: Seq<Cursor>, cursor: Cursor, onward: Cursor)
    requires
        cursor.next < cursor.block@.len(),
        onward.block == cursor.block,
        onward.next == cursor.next + 1,
    ensures
        blocks_cost(rest.push(cursor)) == statement_cost(
            block_view(*cursor.block)[cursor.next as int],
        ) + blocks_cost(rest.push(onward)),
{
    lemma_blocks_cost_push(rest, cursor);
    lemma_blocks_cost_push(rest, onward);
}

/// A block that has no statement left contributes nothing.
proof fn lemma_leave_block(
    rest: Seq<Cursor>,
    cursor: Cursor,
    bindings: Bindings,
    numerics: Numerics,
)
    requires
        cursor.next >= cursor.block@.len(),
    ensures
        run_blocks(rest.push(cursor), bindings, numerics) == run_blocks(rest, bindings, numerics),
{
    lemma_run_blocks_push(rest, cursor, bindings, numerics);
    lemma_nothing_first(bindings, run_blocks(rest, bindings, numerics));
}

/// Leaving a block that has no statement left is a step forward.
proof fn lemma_leave_block_cost(rest: Seq<Cursor>, cursor: Cursor)
    ensures
        blocks_cost(rest.push(cursor)) > blocks_cost(rest),
{
    lemma_blocks_cost_push(rest, cursor);
}

/// Running the blocks whose next statement declares a function reports the
/// declaration and goes on behind it.
proof fn lemma_declare(
    rest: Seq<Cursor>,
    cursor: Cursor,
    onward: Cursor,
    bindings: Bindings,
    numerics: Numerics,
)
    requires
        cursor.next < cursor.block@.len(),
        onward.block == cursor.block,
        onward.next == cursor.next + 1,
        cursor.block@[cursor.next as int] is FunctionDef,
    ensures
        run_blocks(rest.push(cursor), bindings, numerics) == preceded_by(
            Event::Defined(cursor.block@[cursor.next as int]->FunctionDef_0.name@),
            run_blocks(rest.push(onward), bindings, numerics),
        ),
{
    lemma_next_statement(rest, cursor, onward, bindings, numerics);
    lemma_event_first(
        Event::Defined(cursor.block@[cursor.next as int]->FunctionDef_0.name@),
        bindings,
        run_blocks(rest.push(onward), bindings, numerics),
    );
}

/// Passing a declaration is a step forward.
proof fn lemma_declare_cost(rest: Seq<Cursor>, cursor: Cursor, onward: Cursor)
    requires
        cursor.next < cursor.block@.len(),
        onward.block == cursor.block,
        onward.next == cursor.next + 1,
        cursor.block@[cursor.next as int] is FunctionDef,
    ensures
        blocks_cost(rest.push(cursor)) > blocks_cost(rest.push(onward)),
{
    lemma_next_statement_cost(rest, cursor, onward);
}

/// `evaluation` is the start of the evaluation of `statement`.
spec fn starts(evaluation: Evaluation, statement: Statement) -> bool {
    &&& evaluation.frames@.len() == 0
    &&& match statement {
        Statement::Let(binding) => evaluation.sink == Sink::Bind(&binding.identifier)
            && evaluation.focus == Focus::Expression(&binding.value),
        Statement::Show(show) => evaluation.sink == Sink::Show && evaluation.focus
            == Focus::Expression(&show.value),
        Statement::When(when) => evaluation.sink == Sink::Branch(&when) && evaluation.focus
            == Focus::Expression(&when.condition),
        Statement::Expression(expression) => evaluation.sink == Sink::Discard
            && evaluation.focus == Focus::Expression(&expression),
        Statement::FunctionDef(definition) => false,
    }
}

/// Evaluating the expression of the next statement and settling its value
/// is running the blocks from that statement on.
proof fn lemma_take_up(
    rest: Seq<Cursor>,
    cursor: Cursor,
    onward: Cursor,
    evaluation: Evaluation,
    bindings: Bindings,
    numerics: Numerics,
)
    requires
        cursor.next < cursor.block@.len(),
        onward.block == cursor.block,
        onward.next == cursor.next + 1,
        starts(evaluation, cursor.block@[cursor.next as int]),
    ensures
        remaining_of(Activity::Evaluating(evaluation), rest.push(onward), bindings, numerics)
            == run_blocks(rest.push(cursor), bindings, numerics),
{
    lemma_next_statement(rest, cursor, onward, bindings, numerics);
    let statement = cursor.block@[cursor.next as int];
    let blocks = rest.push(onward);
    let first = interpret_statement(statement@, bindings, numerics);
    let onwards = run_blocks(blocks, first.bindings, numerics);
    match statement {
        Statement::Let(binding) => {
            lemma_nothing_first(first.bindings, onwards);
        },
        Statement::Show(show) => {
            match evaluate_expression(show.value@, bindings, numerics) {
                Ok(text) => {
                    lemma_event_first(Event::Line(text), bindings, onwards);
                },
                Err(error) => {},
            }
        },
        Statement::When(when) => {
            lemma_nothing_first(first.bindings, onwards);
        },
        Statement::Expression(expression) => {
            lemma_nothing_first(first.bindings, onwards);
        },
        Statement::FunctionDef(definition) => {},
    }
}

/// Taking up the next statement is a step forward.
proof fn lemma_take_up_cost(
    rest: Seq<Cursor>,
    cursor: Cursor,
    onward: Cursor,
    evaluation: Evaluation,
)
    requires
        cursor.next < cursor.block@.len(),
        onward.block == cursor.block,
        onward.next == cursor.next + 1,
        starts(evaluation, cursor.block@[cursor.next as int]),
    ensures
        effort_of(Activity::Evaluating(evaluation), rest.push(onward)) < blocks_cost(
            rest.push(cursor),
        ),
{
    lemma_next_statement_cost(rest, cursor, onward);
}

} // verus!
