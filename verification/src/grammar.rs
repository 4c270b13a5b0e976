//! The grammar: which tree a sequence of tokens stands for.
//!
//! Every rule reads the tokens from an index on and gives what it has read
//! together with the index behind it, or the error at the first token that
//! does not fit. A rule looks at no token but the next one to decide how to
//! go on.
use vstd::prelude::*;
use crate::ast::{BinaryOperator, ExpressionSpec, StatementSpec};
use crate::lexer::TokenSpec;

verus! {

/// The model of a parse error.
pub enum ParseErrorSpec {
    UnexpectedToken { expected: TokenSpec, found: TokenSpec },
    MissingIdentifier,
    MissingFunctionName,
    MissingExpression { found: TokenSpec },
}

/// What a rule gives: what it has read and the index behind it, or an error.
pub type Parsed<T> = Result<(T, int), ParseErrorSpec>;

/// The token at `at`; behind the last token, `Eof`.
pub open spec fn token_at(tokens: Seq<TokenSpec>, at: int) -> TokenSpec {
    if 0 <= at < tokens.len() {
        tokens[at]
    } else {
        TokenSpec::Eof
    }
}

/// The index of the first token from `at` on that is not a `Newline`.
pub open spec fn after_newlines(tokens: Seq<TokenSpec>, at: int) -> int
    decreases tokens.len() - at,
{
    if 0 <= at < tokens.len() && tokens[at] is Newline {
        after_newlines(tokens, at + 1)
    } else {
        at
    }
}

/// The index behind the token at `at`, which has to be `expected`.
pub open spec fn expect_at(tokens: Seq<TokenSpec>, at: int, expected: TokenSpec) -> Result<
    int,
    ParseErrorSpec,
> {
    if token_at(tokens, at) == expected {
        Ok(at + 1)
    } else {
        Err(ParseErrorSpec::UnexpectedToken { expected, found: token_at(tokens, at) })
    }
}

/// The index behind the token at `at` if that token is a `Dedent`, and `at`
/// if it is not.
pub open spec fn after_dedent(tokens: Seq<TokenSpec>, at: int) -> int {
    if token_at(tokens, at) is Dedent {
        at + 1
    } else {
        at
    }
}

/// An operand: a number, a text or an identifier.
pub open spec fn primary_at(tokens: Seq<TokenSpec>, at: int) -> Parsed<ExpressionSpec> {
    match token_at(tokens, at) {
        TokenSpec::Number(lexeme) => Ok((ExpressionSpec::Number(lexeme), at + 1)),
        TokenSpec::String(text) => Ok((ExpressionSpec::String(text), at + 1)),
        TokenSpec::Identifier(name) => Ok((ExpressionSpec::Identifier(name), at + 1)),
        found => Err(ParseErrorSpec::MissingExpression { found }),
    }
}

/// The operator that `*` or `/` is.
pub open spec fn multiplicative_operator(token: TokenSpec) -> Option<BinaryOperator> {
    match token {
        TokenSpec::Multiply => Some(BinaryOperator::Multiply),
        TokenSpec::Divide => Some(BinaryOperator::Divide),
        _ => None,
    }
}

/// The operator that `+` or `-` is.
pub open spec fn additive_operator(token: TokenSpec) -> Option<BinaryOperator> {
    match token {
        TokenSpec::Plus => Some(BinaryOperator::Add),
        TokenSpec::Minus => Some(BinaryOperator::Subtract),
        _ => None,
    }
}

/// The operator that a relation is.
pub open spec fn relational_operator(token: TokenSpec) -> Option<BinaryOperator> {
    match token {
        TokenSpec::IsGreaterThan => Some(BinaryOperator::GreaterThan),
        TokenSpec::IsLessThan => Some(BinaryOperator::LessThan),
        TokenSpec::IsGreaterThanOrEqual => Some(BinaryOperator::GreaterThanOrEqual),
        TokenSpec::IsLessThanOrEqual => Some(BinaryOperator::LessThanOrEqual),
        TokenSpec::IsEqual => Some(BinaryOperator::Equal),
        TokenSpec::IsNotEqual => Some(BinaryOperator::NotEqual),
        _ => None,
    }
}

/// `left operator right`, as a tree.
pub open spec fn binary(
    left: ExpressionSpec,
    operator: BinaryOperator,
    right: ExpressionSpec,
) -> ExpressionSpec {
    ExpressionSpec::BinaryOp { left: Box::new(left), operator, right: Box::new(right) }
}

/// The rest of a product whose operands so far make up `left`.
pub open spec fn multiplicative_rest(tokens: Seq<TokenSpec>, left: ExpressionSpec, at: int) -> Parsed<
    ExpressionSpec,
>
    decreases tokens.len() - at,
{
    match multiplicative_operator(token_at(tokens, at)) {
        None => Ok((left, at)),
        Some(operator) => match primary_at(tokens, at + 1) {
            Err(error) => Err(error),
            Ok((right, next)) => multiplicative_rest(tokens, binary(left, operator, right), next),
        },
    }
}

/// A product: operands joined by `*` and `/`, grouped from the left.
pub open spec fn multiplicative_at(tokens: Seq<TokenSpec>, at: int) -> Parsed<ExpressionSpec> {
    match primary_at(tokens, at) {
        Err(error) => Err(error),
        Ok((left, next)) => multiplicative_rest(tokens, left, next),
    }
}

/// The rest of a sum whose products so far make up `left`.
pub open spec fn additive_rest(tokens: Seq<TokenSpec>, left: ExpressionSpec, at: int) -> Parsed<
    ExpressionSpec,
>
    decreases tokens.len() - at,
{
    match additive_operator(token_at(tokens, at)) {
        None => Ok((left, at)),
        Some(operator) => match multiplicative_at(tokens, at + 1) {
            Err(error) => Err(error),
            Ok((right, next)) => {
                proof {
                    lemma_multiplicative_advances(tokens, at + 1);
                }
                additive_rest(tokens, binary(left, operator, right), next)
            },
        },
    }
}

/// A sum: products joined by `+` and `-`, grouped from the left.
pub open spec fn additive_at(tokens: Seq<TokenSpec>, at: int) -> Parsed<ExpressionSpec> {
    match multiplicative_at(tokens, at) {
        Err(error) => Err(error),
        Ok((left, next)) => additive_rest(tokens, left, next),
    }
}

/// The rest of a chain of relations whose sums so far make up `left`.
pub open spec fn comparison_rest(tokens: Seq<TokenSpec>, left: ExpressionSpec, at: int) -> Parsed<
    ExpressionSpec,
>
    decreases tokens.len() - at,
{
    match relational_operator(token_at(tokens, at)) {
        None => Ok((left, at)),
        Some(operator) => match additive_at(tokens, at + 1) {
            Err(error) => Err(error),
            Ok((right, next)) => {
                proof {
                    lemma_additive_advances(tokens, at + 1);
                }
                comparison_rest(tokens, binary(left, operator, right), next)
            },
        },
    }
}

/// An expression: sums joined by relations, grouped from the left.
pub open spec fn expression_at(tokens: Seq<TokenSpec>, at: int) -> Parsed<ExpressionSpec> {
    match additive_at(tokens, at) {
        Err(error) => Err(error),
        Ok((left, next)) => comparison_rest(tokens, left, next),
    }
}

/// The kinds of block, which differ in the tokens that end them.
#[derive(Debug, Clone, Copy, PartialEq, Eq, Structural)]
pub enum BlockKind {
    /// The whole program: ends at `Eof`.
    Program,
    /// What follows `then`: ends at `Dedent`, `otherwise` or `Eof`.
    Then,
    /// What follows `otherwise`: ends at `Dedent` or `Eof`.
    Otherwise,
    /// The body of a function: ends at `end`, `Dedent` or `Eof`.
    Body,
}

impl BlockKind {
    /// Whether a block of this kind ends before `token`.
    pub open spec fn ends_before(self, token: TokenSpec) -> bool {
        match self {
            BlockKind::Program => token is Eof,
            BlockKind::Then => token is Dedent || token is Otherwise || token is Eof,
            BlockKind::Otherwise => token is Dedent || token is Eof,
            BlockKind::Body => token is End || token is Dedent || token is Eof,
        }
    }
}

/// `statement`, and then, unless it failed, the statements that follow.
pub open spec fn statement_then(statement: StatementSpec, rest: Parsed<Seq<StatementSpec>>) -> Parsed<
    Seq<StatementSpec>,
> {
    match rest {
        Ok((more, end)) => Ok((seq![statement] + more, end)),
        Err(error) => Err(error),
    }
}

/// The names from `at` on, up to the first token that is no identifier.
pub open spec fn parameters_at(tokens: Seq<TokenSpec>, at: int) -> (Seq<Seq<char>>, int)
    decreases tokens.len() - at,
{
    if 0 <= at < tokens.len() && tokens[at] is Identifier {
        let (more, end) = parameters_at(tokens, at + 1);
        (seq![tokens[at]->Identifier_0] + more, end)
    } else {
        (Seq::empty(), at)
    }
}

/// `let NAME be EXPRESSION`.
pub open spec fn let_at(tokens: Seq<TokenSpec>, at: int) -> Parsed<StatementSpec> {
    match expect_at(tokens, at, TokenSpec::Let) {
        Err(error) => Err(error),
        Ok(name_at) => match token_at(tokens, name_at) {
            TokenSpec::Identifier(identifier) => {
                match expect_at(tokens, name_at + 1, TokenSpec::Be) {
                    Err(error) => Err(error),
                    Ok(value_at) => match expression_at(tokens, value_at) {
                        Err(error) => Err(error),
                        Ok((value, end)) => Ok((StatementSpec::Let { identifier, value }, end)),
                    },
                }
            },
            _ => Err(ParseErrorSpec::MissingIdentifier),
        },
    }
}

/// `show EXPRESSION`.
pub open spec fn show_at(tokens: Seq<TokenSpec>, at: int) -> Parsed<StatementSpec> {
    match expect_at(tokens, at, TokenSpec::Show) {
        Err(error) => Err(error),
        Ok(value_at) => match expression_at(tokens, value_at) {
            Err(error) => Err(error),
            Ok((value, end)) => Ok((StatementSpec::Show { value }, end)),
        },
    }
}

/// The condition of a `when` and the index of the first statement of its
/// block: `when EXPRESSION then`, any number of `Newline`, and `Indent`.
pub open spec fn when_head_at(tokens: Seq<TokenSpec>, at: int) -> Parsed<ExpressionSpec> {
    match expect_at(tokens, at, TokenSpec::When) {
        Err(error) => Err(error),
        Ok(condition_at) => match expression_at(tokens, condition_at) {
            Err(error) => Err(error),
            Ok((condition, then_at)) => match expect_at(tokens, then_at, TokenSpec::Then) {
                Err(error) => Err(error),
                Ok(line_end) => {
                    match expect_at(tokens, after_newlines(tokens, line_end), TokenSpec::Indent) {
                        Err(error) => Err(error),
                        Ok(block_start) => Ok((condition, block_start)),
                    }
                },
            },
        },
    }
}

/// The name and the parameters of a function and the index of the first
/// statement of its body: `define NAME`, then `with` and any number of
/// names or nothing, any number of `Newline`, and `Indent`.
pub open spec fn definition_head_at(tokens: Seq<TokenSpec>, at: int) -> Parsed<
    (Seq<char>, Seq<Seq<char>>),
> {
    match expect_at(tokens, at, TokenSpec::Define) {
        Err(error) => Err(error),
        Ok(name_at) => match token_at(tokens, name_at) {
            TokenSpec::Identifier(name) => {
                let (parameters, line_end) = if token_at(tokens, name_at + 1) is With {
                    parameters_at(tokens, name_at + 2)
                } else {
                    (Seq::empty(), name_at + 1)
                };
                match expect_at(tokens, after_newlines(tokens, line_end), TokenSpec::Indent) {
                    Err(error) => Err(error),
                    Ok(block_start) => Ok(((name, parameters), block_start)),
                }
            },
            _ => Err(ParseErrorSpec::MissingFunctionName),
        },
    }
}

/// The number of tokens from `at` on.
pub open spec fn tokens_left(tokens: Seq<TokenSpec>, at: int) -> nat {
    if at <= tokens.len() {
        (tokens.len() - at) as nat
    } else {
        0
    }
}

/// Where the `otherwise` of a `when` stands whose first block ends at
/// `then_end`, if it has one. It stands either in the block, where it ends
/// the block itself, or under the `when`, behind the `Dedent` that ends the
/// block.
pub open spec fn otherwise_at(tokens: Seq<TokenSpec>, then_end: int) -> Option<int> {
    if token_at(tokens, then_end) is Otherwise {
        Some(then_end)
    } else if token_at(tokens, then_end) is Dedent && token_at(tokens, then_end + 1)
        is Otherwise {
        Some(then_end + 1)
    } else {
        None
    }
}

/// The index behind a `when` whose first block ends at `then_end` and whose
/// second block ends at `otherwise_end`. One `Dedent` behind the second
/// block belongs to the statement; where `otherwise` stands in the first
/// block, the `Dedent` of that block follows and belongs to it too.
pub open spec fn after_otherwise(tokens: Seq<TokenSpec>, then_end: int, otherwise_end: int) -> int {
    if token_at(tokens, then_end) is Otherwise {
        after_dedent(tokens, after_dedent(tokens, otherwise_end))
    } else {
        after_dedent(tokens, otherwise_end)
    }
}

/// A statement. `let`, `show`, `when` and `define` begin the statement of
/// their name; anything else has to be an expression.
///
/// A `when` has a block behind `then`, which ends before a `Dedent`, before
/// `otherwise` or at the end. If `otherwise` is what ends it, or what
/// follows the `Dedent` that ends it ([`otherwise_at`]), then any number of
/// `Newline`, `Indent` and a second block follow. So an `otherwise` written
/// under a `when` belongs to that `when`, also where the `when` is the last
/// statement in the block of another one. Without `otherwise`, one `Dedent`
/// behind the first block belongs to the statement. The body of a function
/// is closed by `end` or by a `Dedent`.
///
/// The test that the second block starts behind the statement's first token
/// never fails ([`lemma_block_advances`]); it is there to make the
/// definition well-founded.
pub open spec fn statement_at(tokens: Seq<TokenSpec>, at: int) -> Parsed<StatementSpec>
    decreases tokens_left(tokens, at), 0nat,
{
    match token_at(tokens, at) {
        TokenSpec::Let => let_at(tokens, at),
        TokenSpec::Show => show_at(tokens, at),
        TokenSpec::When => match when_head_at(tokens, at) {
            Err(error) => Err(error),
            Ok((condition, block_start)) => {
                proof {
                    lemma_when_head_advances(tokens, at);
                }
                match block_at(tokens, block_start, BlockKind::Then) {
                    Err(error) => Err(error),
                    Ok((then_block, then_end)) => match otherwise_at(tokens, then_end) {
                        Some(keyword_at) => {
                            match expect_at(
                                tokens,
                                after_newlines(tokens, keyword_at + 1),
                                TokenSpec::Indent,
                            ) {
                                Err(error) => Err(error),
                                Ok(otherwise_start) => {
                                    proof {
                                        lemma_after_newlines(tokens, keyword_at + 1);
                                    }
                                    if otherwise_start > at {
                                        match block_at(
                                            tokens,
                                            otherwise_start,
                                            BlockKind::Otherwise,
                                        ) {
                                            Err(error) => Err(error),
                                            Ok((otherwise_block, otherwise_end)) => Ok(
                                                (
                                                    StatementSpec::When {
                                                        condition,
                                                        then_block,
                                                        otherwise_block: Some(otherwise_block),
                                                    },
                                                    after_otherwise(
                                                        tokens,
                                                        then_end,
                                                        otherwise_end,
                                                    ),
                                                ),
                                            ),
                                        }
                                    } else {
                                        Err(ParseErrorSpec::MissingExpression {
                                            found: TokenSpec::Eof,
                                        })
                                    }
                                },
                            }
                        },
                        None => Ok(
                            (
                                StatementSpec::When { condition, then_block, otherwise_block: None },
                                after_dedent(tokens, then_end),
                            ),
                        ),
                    },
                }
            },
        },
        TokenSpec::Define => match definition_head_at(tokens, at) {
            Err(error) => Err(error),
            Ok(((name, parameters), block_start)) => {
                proof {
                    lemma_definition_head_advances(tokens, at);
                }
                match block_at(tokens, block_start, BlockKind::Body) {
                    Err(error) => Err(error),
                    Ok((body, body_end)) => Ok(
                        (
                            StatementSpec::FunctionDef { name, parameters, body },
                            if token_at(tokens, body_end) is End {
                                body_end + 1
                            } else {
                                after_dedent(tokens, body_end)
                            },
                        ),
                    ),
                }
            },
        },
        _ => match expression_at(tokens, at) {
            Err(error) => Err(error),
            Ok((expression, end)) => Ok((StatementSpec::Expression(expression), end)),
        },
    }
}

/// The statements of a block of the given kind, from `at` up to the token
/// that ends the block. Behind every statement, any number of `Newline` is
/// passed over.
///
/// The test that a statement ends behind its start never fails
/// ([`lemma_statement_advances`]); it is there to make the definition
/// well-founded.
pub open spec fn block_at(tokens: Seq<TokenSpec>, at: int, kind: BlockKind) -> Parsed<
    Seq<StatementSpec>,
>
    decreases tokens_left(tokens, at), 1nat,
{
    if kind.ends_before(token_at(tokens, at)) {
        Ok((Seq::empty(), at))
    } else {
        match statement_at(tokens, at) {
            Err(error) => Err(error),
            Ok((statement, end)) => {
                proof {
                    lemma_after_newlines(tokens, end);
                }
                if end > at {
                    statement_then(statement, block_at(tokens, after_newlines(tokens, end), kind))
                } else {
                    Err(ParseErrorSpec::MissingExpression { found: TokenSpec::Eof })
                }
            },
        }
    }
}

/// The program that a sequence of tokens stands for: `Newline` tokens at the
/// start are passed over, and statements follow up to `Eof`.
pub open spec fn program_of(tokens: Seq<TokenSpec>) -> Result<Seq<StatementSpec>, ParseErrorSpec> {
    match block_at(tokens, after_newlines(tokens, 0), BlockKind::Program) {
        Ok((statements, end)) => Ok(statements),
        Err(error) => Err(error),
    }
}

/// Passing over `Newline` tokens does not go back, nor beyond the end.
pub proof fn lemma_after_newlines(tokens: Seq<TokenSpec>, at: int)
    ensures
        at <= after_newlines(tokens, at),
        at <= tokens.len() ==> after_newlines(tokens, at) <= tokens.len(),
        !(token_at(tokens, after_newlines(tokens, at)) is Newline),
    decreases tokens.len() - at,
{
    if 0 <= at < tokens.len() && tokens[at] is Newline {
        lemma_after_newlines(tokens, at + 1);
    }
}

/// The rest of a product ends at or behind its start.
pub proof fn lemma_multiplicative_rest_advances(
    tokens: Seq<TokenSpec>,
    left: ExpressionSpec,
    at: int,
)
    requires
        multiplicative_rest(tokens, left, at) is Ok,
        0 <= at <= tokens.len(),
    ensures
        at <= multiplicative_rest(tokens, left, at)->Ok_0.1 <= tokens.len(),
    decreases tokens.len() - at,
{
    match multiplicative_operator(token_at(tokens, at)) {
        None => {},
        Some(operator) => {
            let (right, next) = primary_at(tokens, at + 1)->Ok_0;
            lemma_multiplicative_rest_advances(tokens, binary(left, operator, right), next);
        },
    }
}

/// A product takes at least one token.
pub proof fn lemma_multiplicative_advances(tokens: Seq<TokenSpec>, at: int)
    requires
        multiplicative_at(tokens, at) is Ok,
        0 <= at,
    ensures
        at < multiplicative_at(tokens, at)->Ok_0.1 <= tokens.len(),
{
    let (left, next) = primary_at(tokens, at)->Ok_0;
    lemma_multiplicative_rest_advances(tokens, left, next);
}

/// The rest of a sum ends at or behind its start.
pub proof fn lemma_additive_rest_advances(tokens: Seq<TokenSpec>, left: ExpressionSpec, at: int)
    requires
        additive_rest(tokens, left, at) is Ok,
        0 <= at <= tokens.len(),
    ensures
        at <= additive_rest(tokens, left, at)->Ok_0.1 <= tokens.len(),
    decreases tokens.len() - at,
{
    match additive_operator(token_at(tokens, at)) {
        None => {},
        Some(operator) => {
            let (right, next) = multiplicative_at(tokens, at + 1)->Ok_0;
            lemma_multiplicative_advances(tokens, at + 1);
            lemma_additive_rest_advances(tokens, binary(left, operator, right), next);
        },
    }
}

/// A sum takes at least one token.
pub proof fn lemma_additive_advances(tokens: Seq<TokenSpec>, at: int)
    requires
        additive_at(tokens, at) is Ok,
        0 <= at,
    ensures
        at < additive_at(tokens, at)->Ok_0.1 <= tokens.len(),
{
    let (left, next) = multiplicative_at(tokens, at)->Ok_0;
    lemma_multiplicative_advances(tokens, at);
    lemma_additive_rest_advances(tokens, left, next);
}

/// The rest of a chain of relations ends at or behind its start.
pub proof fn lemma_comparison_rest_advances(
    tokens: Seq<TokenSpec>,
    left: ExpressionSpec,
    at: int,
)
    requires
        comparison_rest(tokens, left, at) is Ok,
        0 <= at <= tokens.len(),
    ensures
        at <= comparison_rest(tokens, left, at)->Ok_0.1 <= tokens.len(),
    decreases tokens.len() - at,
{
    match relational_operator(token_at(tokens, at)) {
        None => {},
        Some(operator) => {
            let (right, next) = additive_at(tokens, at + 1)->Ok_0;
            lemma_additive_advances(tokens, at + 1);
            lemma_comparison_rest_advances(tokens, binary(left, operator, right), next);
        },
    }
}

/// An expression takes at least one token.
pub proof fn lemma_expression_advances(tokens: Seq<TokenSpec>, at: int)
    requires
        expression_at(tokens, at) is Ok,
        0 <= at,
    ensures
        at < expression_at(tokens, at)->Ok_0.1 <= tokens.len(),
{
    let (left, next) = additive_at(tokens, at)->Ok_0;
    lemma_additive_advances(tokens, at);
    lemma_comparison_rest_advances(tokens, left, next);
}

/// The names of parameters end at or behind their start.
pub proof fn lemma_parameters_advance(tokens: Seq<TokenSpec>, at: int)
    requires
        0 <= at <= tokens.len(),
    ensures
        at <= parameters_at(tokens, at).1 <= tokens.len(),
    decreases tokens.len() - at,
{
    if at < tokens.len() && tokens[at] is Identifier {
        lemma_parameters_advance(tokens, at + 1);
    }
}

/// The block of a `when` starts behind the `when`.
pub proof fn lemma_when_head_advances(tokens: Seq<TokenSpec>, at: int)
    requires
        when_head_at(tokens, at) is Ok,
        0 <= at,
    ensures
        at < when_head_at(tokens, at)->Ok_0.1 <= tokens.len(),
{
    lemma_expression_advances(tokens, at + 1);
    let then_at = expression_at(tokens, at + 1)->Ok_0.1;
    lemma_after_newlines(tokens, then_at + 1);
}

/// The body of a function starts behind its `define`.
pub proof fn lemma_definition_head_advances(tokens: Seq<TokenSpec>, at: int)
    requires
        definition_head_at(tokens, at) is Ok,
        0 <= at,
    ensures
        at < definition_head_at(tokens, at)->Ok_0.1 <= tokens.len(),
{
    let line_end = if token_at(tokens, at + 2) is With {
        lemma_parameters_advance(tokens, at + 3);
        parameters_at(tokens, at + 3).1
    } else {
        at + 2
    };
    lemma_after_newlines(tokens, line_end);
}

/// A statement takes at least one token.
pub proof fn lemma_statement_advances(tokens: Seq<TokenSpec>, at: int)
    requires
        statement_at(tokens, at) is Ok,
        0 <= at,
    ensures
        at < statement_at(tokens, at)->Ok_0.1 <= tokens.len(),
    decreases tokens_left(tokens, at), 0nat,
{
    match token_at(tokens, at) {
        TokenSpec::Let => {
            lemma_expression_advances(tokens, at + 3);
        },
        TokenSpec::Show => {
            lemma_expression_advances(tokens, at + 1);
        },
        TokenSpec::When => {
            lemma_when_head_advances(tokens, at);
            let block_start = when_head_at(tokens, at)->Ok_0.1;
            lemma_block_advances(tokens, block_start, BlockKind::Then);
            let then_end = block_at(tokens, block_start, BlockKind::Then)->Ok_0.1;
            match otherwise_at(tokens, then_end) {
                Some(keyword_at) => {
                    lemma_after_newlines(tokens, keyword_at + 1);
                    let otherwise_start = after_newlines(tokens, keyword_at + 1) + 1;
                    lemma_block_advances(tokens, otherwise_start, BlockKind::Otherwise);
                },
                None => {},
            }
        },
        TokenSpec::Define => {
            lemma_definition_head_advances(tokens, at);
            let block_start = definition_head_at(tokens, at)->Ok_0.1;
            lemma_block_advances(tokens, block_start, BlockKind::Body);
        },
        _ => {
            lemma_expression_advances(tokens, at);
        },
    }
}

/// A block ends at or behind its start, before a token that ends it.
pub proof fn lemma_block_advances(tokens: Seq<TokenSpec>, at: int, kind: BlockKind)
    requires
        block_at(tokens, at, kind) is Ok,
        0 <= at <= tokens.len(),
    ensures
        at <= block_at(tokens, at, kind)->Ok_0.1 <= tokens.len(),
        kind.ends_before(token_at(tokens, block_at(tokens, at, kind)->Ok_0.1)),
    decreases tokens_left(tokens, at), 1nat,
{
    if !kind.ends_before(token_at(tokens, at)) {
        lemma_statement_advances(tokens, at);
        let end = statement_at(tokens, at)->Ok_0.1;
        lemma_after_newlines(tokens, end);
        lemma_block_advances(tokens, after_newlines(tokens, end), kind);
    }
}

/// `statements`, and then, unless it failed, the statements that follow.
pub open spec fn statements_then(
    statements: Seq<StatementSpec>,
    rest: Parsed<Seq<StatementSpec>>,
) -> Parsed<Seq<StatementSpec>> {
    match rest {
        Ok((more, end)) => Ok((statements + more, end)),
        Err(error) => Err(error),
    }
}

/// Appending a statement and then the rest is appending the rest to the
/// statements with that one added.
pub proof fn lemma_statements_then_push(
    statements: Seq<StatementSpec>,
    statement: StatementSpec,
    rest: Parsed<Seq<StatementSpec>>,
)
    ensures
        statements_then(statements, statement_then(statement, rest)) == statements_then(
            statements.push(statement),
            rest,
        ),
{
    if rest is Ok {
        assert(statements + (seq![statement] + rest->Ok_0.0) =~= statements.push(statement)
            + rest->Ok_0.0);
    }
}

} // verus!
