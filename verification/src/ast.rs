//! The abstract syntax tree, and the mathematical model of each node.
use vstd::prelude::*;

verus! {

/// The ten binary operators: six relations and four arithmetic operations.
#[derive(Debug, Clone, Copy, PartialEq, Eq, Structural)]
pub enum BinaryOperator {
    GreaterThan,
    LessThan,
    GreaterThanOrEqual,
    LessThanOrEqual,
    Equal,
    NotEqual,
    Add,
    Subtract,
    Multiply,
    Divide,
}

impl BinaryOperator {
    /// Whether the operator is one of the six relations.
    pub open spec fn is_relation(self) -> bool {
        !(self is Add || self is Subtract || self is Multiply || self is Divide)
    }

    /// Whether the operator is one of the six relations.
    pub fn relates(self) -> (answer: bool)
        ensures
            answer == self.is_relation(),
    {
        match self {
            BinaryOperator::Add => false,
            BinaryOperator::Subtract => false,
            BinaryOperator::Multiply => false,
            BinaryOperator::Divide => false,
            _ => true,
        }
    }
}

/// An expression. A number is kept as the run of digits and decimal points
/// that was written in the source; the text it stands for is fixed only when
/// it is evaluated.
#[derive(Debug, PartialEq, Eq)]
pub enum Expression {
    Number(String),
    String(String),
    Identifier(String),
    BinaryOp(BinaryOperation),
    FunctionCall(FunctionCall),
}

#[derive(Debug, PartialEq, Eq)]
pub struct BinaryOperation {
    pub left: Box<Expression>,
    pub operator: BinaryOperator,
    pub right: Box<Expression>,
}

#[derive(Debug, PartialEq, Eq)]
pub struct FunctionCall {
    pub name: String,
    pub arguments: Vec<Expression>,
}

#[derive(Debug, PartialEq, Eq)]
pub enum Statement {
    Let(LetStatement),
    Show(ShowStatement),
    When(WhenStatement),
    FunctionDef(FunctionDef),
    Expression(Expression),
}

#[derive(Debug, PartialEq, Eq)]
pub struct LetStatement {
    pub identifier: String,
    pub value: Expression,
}

#[derive(Debug, PartialEq, Eq)]
pub struct ShowStatement {
    pub value: Expression,
}

#[derive(Debug, PartialEq, Eq)]
pub struct WhenStatement {
    pub condition: Expression,
    pub then_block: Vec<Statement>,
    pub otherwise_block: Option<Vec<Statement>>,
}

#[derive(Debug, PartialEq, Eq)]
pub struct FunctionDef {
    pub name: String,
    pub parameters: Vec<String>,
    pub body: Vec<Statement>,
}

#[derive(Debug, PartialEq, Eq)]
pub struct Program {
    pub statements: Vec<Statement>,
}

/// The model of an [`Expression`]: the same tree over sequences of characters.
pub enum ExpressionSpec {
    Number(Seq<char>),
    String(Seq<char>),
    Identifier(Seq<char>),
    BinaryOp { left: Box<ExpressionSpec>, operator: BinaryOperator, right: Box<ExpressionSpec> },
    FunctionCall { name: Seq<char>, arguments: Seq<ExpressionSpec> },
}

/// The model of a [`Statement`].
pub enum StatementSpec {
    Let { identifier: Seq<char>, value: ExpressionSpec },
    Show { value: ExpressionSpec },
    When {
        condition: ExpressionSpec,
        then_block: Seq<StatementSpec>,
        otherwise_block: Option<Seq<StatementSpec>>,
    },
    FunctionDef { name: Seq<char>, parameters: Seq<Seq<char>>, body: Seq<StatementSpec> },
    Expression(ExpressionSpec),
}

/// The model of an expression.
pub open spec fn expression_view(expression: Expression) -> ExpressionSpec
    decreases expression,
{
    match expression {
        Expression::Number(lexeme) => ExpressionSpec::Number(lexeme@),
        Expression::String(text) => ExpressionSpec::String(text@),
        Expression::Identifier(name) => ExpressionSpec::Identifier(name@),
        Expression::BinaryOp(operation) => ExpressionSpec::BinaryOp {
            left: Box::new(expression_view(*operation.left)),
            operator: operation.operator,
            right: Box::new(expression_view(*operation.right)),
        },
        Expression::FunctionCall(call) => ExpressionSpec::FunctionCall {
            name: call.name@,
            arguments: expressions_view(call.arguments),
        },
    }
}

/// The model of a list of expressions: the models of its items, in order.
pub open spec fn expressions_view(list: Vec<Expression>) -> Seq<ExpressionSpec>
    decreases list,
{
    Seq::new(
        list@.len(),
        |i: int| if 0 <= i < list@.len() { expression_view(list@[i]) } else { arbitrary() },
    )
}

/// The model of a statement.
pub open spec fn statement_view(statement: Statement) -> StatementSpec
    decreases statement,
{
    match statement {
        Statement::Let(binding) => StatementSpec::Let {
            identifier: binding.identifier@,
            value: expression_view(binding.value),
        },
        Statement::Show(show) => StatementSpec::Show { value: expression_view(show.value) },
        Statement::When(when) => StatementSpec::When {
            condition: expression_view(when.condition),
            then_block: block_view(when.then_block),
            otherwise_block: match when.otherwise_block {
                Some(block) => Some(block_view(block)),
                None => None,
            },
        },
        Statement::FunctionDef(definition) => StatementSpec::FunctionDef {
            name: definition.name@,
            parameters: names_view(definition.parameters),
            body: block_view(definition.body),
        },
        Statement::Expression(expression) => StatementSpec::Expression(
            expression_view(expression),
        ),
    }
}

/// The model of a block: the models of its statements, in order.
pub open spec fn block_view(block: Vec<Statement>) -> Seq<StatementSpec>
    decreases block,
{
    Seq::new(
        block@.len(),
        |i: int| if 0 <= i < block@.len() { statement_view(block@[i]) } else { arbitrary() },
    )
}

/// The model of a list of names.
pub open spec fn names_view(names: Vec<String>) -> Seq<Seq<char>> {
    Seq::new(names@.len(), |i: int| names@[i]@)
}

impl View for Expression {
    type V = ExpressionSpec;

    open spec fn view(&self) -> ExpressionSpec {
        expression_view(*self)
    }
}

impl View for Statement {
    type V = StatementSpec;

    open spec fn view(&self) -> StatementSpec {
        statement_view(*self)
    }
}

impl View for Program {
    type V = Seq<StatementSpec>;

    open spec fn view(&self) -> Seq<StatementSpec> {
        block_view(self.statements)
    }
}

/// A copy of a list of expressions.
fn copy_expressions(list: &Vec<Expression>) -> (copy: Vec<Expression>)
    ensures
        expressions_view(copy) == expressions_view(*list),
    decreases list,
{
    let mut copy: Vec<Expression> = Vec::new();
    let mut i: usize = 0;
    while i < list.len()
        invariant
            i <= list@.len(),
            copy@.len() == i,
            forall|j: int| 0 <= j < i ==> expression_view(copy@[j]) == expression_view(list@[j]),
        decreases list@.len() - i,
    {
        copy.push(copy_expression(&list[i]));
        i = i + 1;
    }
    assert(expressions_view(copy) =~= expressions_view(*list));
    copy
}

/// A copy of an expression.
fn copy_expression(expression: &Expression) -> (copy: Expression)
    ensures
        copy@ == expression@,
    decreases expression,
{
    match expression {
        Expression::Number(lexeme) => Expression::Number(lexeme.clone()),
        Expression::String(text) => Expression::String(text.clone()),
        Expression::Identifier(name) => Expression::Identifier(name.clone()),
        Expression::BinaryOp(operation) => Expression::BinaryOp(
            BinaryOperation {
                left: Box::new(copy_expression(&*operation.left)),
                operator: operation.operator,
                right: Box::new(copy_expression(&*operation.right)),
            },
        ),
        Expression::FunctionCall(call) => Expression::FunctionCall(
            FunctionCall {
                name: call.name.clone(),
                arguments: copy_expressions(&call.arguments),
            },
        ),
    }
}

/// A copy of a list of names.
fn copy_names(names: &Vec<String>) -> (copy: Vec<String>)
    ensures
        names_view(copy) == names_view(*names),
{
    let mut copy: Vec<String> = Vec::new();
    let mut i: usize = 0;
    while i < names.len()
        invariant
            i <= names@.len(),
            copy@.len() == i,
            forall|j: int| 0 <= j < i ==> copy@[j]@ == names@[j]@,
        decreases names@.len() - i,
    {
        copy.push(names[i].clone());
        i = i + 1;
    }
    assert(names_view(copy) =~= names_view(*names));
    copy
}

/// A copy of a block.
fn copy_block(block: &Vec<Statement>) -> (copy: Vec<Statement>)
    ensures
        block_view(copy) == block_view(*block),
    decreases block,
{
    let mut copy: Vec<Statement> = Vec::new();
    let mut i: usize = 0;
    while i < block.len()
        invariant
            i <= block@.len(),
            copy@.len() == i,
            forall|j: int| 0 <= j < i ==> statement_view(copy@[j]) == statement_view(block@[j]),
        decreases block@.len() - i,
    {
        copy.push(copy_statement(&block[i]));
        i = i + 1;
    }
    assert(block_view(copy) =~= block_view(*block));
    copy
}

/// A copy of a statement.
fn copy_statement(statement: &Statement) -> (copy: Statement)
    ensures
        copy@ == statement@,
    decreases statement,
{
    match statement {
        Statement::Let(binding) => Statement::Let(
            LetStatement {
                identifier: binding.identifier.clone(),
                value: copy_expression(&binding.value),
            },
        ),
        Statement::Show(show) => Statement::Show(
            ShowStatement { value: copy_expression(&show.value) },
        ),
        Statement::When(when) => Statement::When(
            WhenStatement {
                condition: copy_expression(&when.condition),
                then_block: copy_block(&when.then_block),
                otherwise_block: match &when.otherwise_block {
                    Some(block) => Some(copy_block(block)),
                    None => None,
                },
            },
        ),
        Statement::FunctionDef(definition) => Statement::FunctionDef(
            FunctionDef {
                name: definition.name.clone(),
                parameters: copy_names(&definition.parameters),
                body: copy_block(&definition.body),
            },
        ),
        Statement::Expression(expression) => Statement::Expression(copy_expression(expression)),
    }
}

impl Clone for BinaryOperation {
    fn clone(&self) -> (copy: BinaryOperation)
        ensures
            Expression::BinaryOp(copy)@ == Expression::BinaryOp(*self)@,
    {
        BinaryOperation {
            left: Box::new(copy_expression(&*self.left)),
            operator: self.operator,
            right: Box::new(copy_expression(&*self.right)),
        }
    }
}

impl Clone for FunctionCall {
    fn clone(&self) -> (copy: FunctionCall)
        ensures
            Expression::FunctionCall(copy)@ == Expression::FunctionCall(*self)@,
    {
        FunctionCall { name: self.name.clone(), arguments: copy_expressions(&self.arguments) }
    }
}

impl Clone for LetStatement {
    fn clone(&self) -> (copy: LetStatement)
        ensures
            Statement::Let(copy)@ == Statement::Let(*self)@,
    {
        LetStatement { identifier: self.identifier.clone(), value: copy_expression(&self.value) }
    }
}

impl Clone for ShowStatement {
    fn clone(&self) -> (copy: ShowStatement)
        ensures
            Statement::Show(copy)@ == Statement::Show(*self)@,
    {
        ShowStatement { value: copy_expression(&self.value) }
    }
}

impl Clone for WhenStatement {
    fn clone(&self) -> (copy: WhenStatement)
        ensures
            Statement::When(copy)@ == Statement::When(*self)@,
    {
        WhenStatement {
            condition: copy_expression(&self.condition),
            then_block: copy_block(&self.then_block),
            otherwise_block: match &self.otherwise_block {
                Some(block) => Some(copy_block(block)),
                None => None,
            },
        }
    }
}

impl Clone for FunctionDef {
    fn clone(&self) -> (copy: FunctionDef)
        ensures
            Statement::FunctionDef(copy)@ == Statement::FunctionDef(*self)@,
    {
        FunctionDef {
            name: self.name.clone(),
            parameters: copy_names(&self.parameters),
            body: copy_block(&self.body),
        }
    }
}

impl Clone for Expression {
    fn clone(&self) -> (copy: Expression)
        ensures
            copy@ == self@,
    {
        copy_expression(self)
    }
}

impl Clone for Statement {
    fn clone(&self) -> (copy: Statement)
        ensures
            copy@ == self@,
    {
        copy_statement(self)
    }
}

impl Clone for Program {
    fn clone(&self) -> (copy: Program)
        ensures
            copy@ == self@,
    {
        Program { statements: copy_block(&self.statements) }
    }
}

} // verus!
