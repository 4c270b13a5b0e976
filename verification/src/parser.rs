//! The parser: from tokens to a tree, by recursive descent.
use vstd::prelude::*;
use crate::ast::{
    block_view, names_view, BinaryOperation, BinaryOperator, Expression, ExpressionSpec,
    FunctionDef, LetStatement, Program, ShowStatement, Statement, StatementSpec, WhenStatement,
};
use crate::grammar::{
    additive_at, additive_operator, additive_rest, after_dedent, after_newlines, block_at,
    comparison_rest, definition_head_at, expect_at, expression_at, lemma_additive_advances,
    lemma_after_newlines, lemma_block_advances, lemma_definition_head_advances,
    lemma_multiplicative_advances, lemma_statement_advances, lemma_statements_then_push,
    lemma_when_head_advances, let_at, multiplicative_at, multiplicative_operator,
    multiplicative_rest, otherwise_at, parameters_at, primary_at, program_of,
    relational_operator, show_at, statement_at, statements_then, token_at, when_head_at,
    BlockKind, ParseErrorSpec, Parsed,
};
use crate::lexer::{tokens_view, Token, TokenSpec};

verus! {

/// Why a sequence of tokens is no program.
#[derive(Debug, Clone, PartialEq, Eq)]
pub enum ParseError {
    /// The token `expected` had to come, and `found` came.
    UnexpectedToken { expected: Token, found: Token },
    /// No identifier follows `let`.
    MissingIdentifier,
    /// No identifier follows `define`.
    MissingFunctionName,
    /// An expression had to start, and `found` came.
    MissingExpression { found: Token },
}

impl View for ParseError {
    type V = ParseErrorSpec;

    open spec fn view(&self) -> ParseErrorSpec {
        match self {
            ParseError::UnexpectedToken { expected, found } => ParseErrorSpec::UnexpectedToken {
                expected: expected@,
                found: found@,
            },
            ParseError::MissingIdentifier => ParseErrorSpec::MissingIdentifier,
            ParseError::MissingFunctionName => ParseErrorSpec::MissingFunctionName,
            ParseError::MissingExpression { found } => ParseErrorSpec::MissingExpression {
                found: found@,
            },
        }
    }
}

/// The model of what parsing returns: the model of the program, or that of
/// the error.
pub open spec fn parsed_view(result: Result<Program, ParseError>) -> Result<
    Seq<StatementSpec>,
    ParseErrorSpec,
> {
    match result {
        Ok(program) => Ok(program@),
        Err(error) => Err(error@),
    }
}

/// The keywords and marks that `expect` is asked for: tokens that carry no
/// text.
pub open spec fn is_plain(token: TokenSpec) -> bool {
    !(token is Number || token is String || token is Identifier)
}

/// Whether two tokens are of the same kind, whatever text they carry.
fn same_kind(token: &Token, plain: &Token) -> (same: bool)
    requires
        is_plain(plain@),
    ensures
        same == (token@ == plain@),
{
    match (token, plain) {
        (Token::Let, Token::Let) => true,
        (Token::Be, Token::Be) => true,
        (Token::When, Token::When) => true,
        (Token::Then, Token::Then) => true,
        (Token::Otherwise, Token::Otherwise) => true,
        (Token::Show, Token::Show) => true,
        (Token::Define, Token::Define) => true,
        (Token::With, Token::With) => true,
        (Token::End, Token::End) => true,
        (Token::IsGreaterThan, Token::IsGreaterThan) => true,
        (Token::IsLessThan, Token::IsLessThan) => true,
        (Token::IsGreaterThanOrEqual, Token::IsGreaterThanOrEqual) => true,
        (Token::IsLessThanOrEqual, Token::IsLessThanOrEqual) => true,
        (Token::IsEqual, Token::IsEqual) => true,
        (Token::IsNotEqual, Token::IsNotEqual) => true,
        (Token::Plus, Token::Plus) => true,
        (Token::Minus, Token::Minus) => true,
        (Token::Multiply, Token::Multiply) => true,
        (Token::Divide, Token::Divide) => true,
        (Token::Newline, Token::Newline) => true,
        (Token::Indent, Token::Indent) => true,
        (Token::Dedent, Token::Dedent) => true,
        (Token::Eof, Token::Eof) => true,
        _ => false,
    }
}

/// A parser over one sequence of tokens, with a cursor.
pub struct Parser {
    tokens: Vec<Token>,
    current: usize,
}

impl Parser {
    /// The tokens that are read.
    pub closed spec fn tokens(&self) -> Seq<TokenSpec> {
        tokens_view(self.tokens@)
    }

    /// The index of the next token to read.
    pub closed spec fn position(&self) -> int {
        self.current as int
    }

    /// The cursor is within the tokens or just behind them.
    pub closed spec fn wf(&self) -> bool {
        self.current <= self.tokens@.len()
    }

    /// `after` is this parser with the cursor moved to `position`.
    spec fn reaches(&self, after: Parser, position: int) -> bool {
        &&& after.wf()
        &&& after.tokens == self.tokens
        &&& after.current == position
    }

    /// `after` and `result` are what a rule leaves that should give
    /// `expected`.
    spec fn gives_expression(
        &self,
        after: Parser,
        result: Result<Expression, ParseError>,
        expected: Parsed<ExpressionSpec>,
    ) -> bool {
        &&& after.wf()
        &&& after.tokens == self.tokens
        &&& match expected {
            Ok((expression, end)) => result is Ok && result->Ok_0@ == expression && after.current
                == end,
            Err(error) => result is Err && result->Err_0@ == error,
        }
    }

    spec fn gives_statement(
        &self,
        after: Parser,
        result: Result<Statement, ParseError>,
        expected: Parsed<StatementSpec>,
    ) -> bool {
        &&& after.wf()
        &&& after.tokens == self.tokens
        &&& match expected {
            Ok((statement, end)) => result is Ok && result->Ok_0@ == statement && after.current
                == end,
            Err(error) => result is Err && result->Err_0@ == error,
        }
    }

    spec fn gives_block(
        &self,
        after: Parser,
        result: Result<Vec<Statement>, ParseError>,
        expected: Parsed<Seq<StatementSpec>>,
    ) -> bool {
        &&& after.wf()
        &&& after.tokens == self.tokens
        &&& match expected {
            Ok((statements, end)) => result is Ok && block_view(result->Ok_0) == statements
                && after.current == end,
            Err(error) => result is Err && result->Err_0@ == error,
        }
    }

    /// A parser at the start of `tokens`.
    pub fn new(tokens: Vec<Token>) -> (parser: Parser)
        ensures
            parser.wf(),
            parser.tokens() == tokens_view(tokens@),
            parser.position() == 0,
    {
        Parser { tokens, current: 0 }
    }

    /// The token under the cursor, if the cursor is not behind the last one.
    fn current_token(&self) -> (token: Option<&Token>)
        requires
            self.wf(),
        ensures
            match token {
                Some(token) => self.current < self.tokens@.len() && *token
                    == self.tokens@[self.current as int] && token@ == token_at(
                    self.tokens(),
                    self.current as int,
                ),
                None => self.current >= self.tokens@.len() && token_at(
                    self.tokens(),
                    self.current as int,
                ) is Eof,
            },
    {
        if self.current < self.tokens.len() {
            Some(&self.tokens[self.current])
        } else {
            None
        }
    }

    /// A copy of the token under the cursor; behind the last one, `Eof`.
    fn found(&self) -> (token: Token)
        requires
            self.wf(),
        ensures
            token@ == token_at(self.tokens(), self.current as int),
    {
        match self.current_token() {
            Some(token) => token.clone(),
            None => Token::Eof,
        }
    }

    /// Moves the cursor over one token, unless it is behind the last one.
    fn advance(&mut self)
        requires
            old(self).wf(),
        ensures
            old(self).reaches(
                *final(self),
                if old(self).current < old(self).tokens@.len() {
                    old(self).current + 1
                } else {
                    old(self).current as int
                },
            ),
    {
        if self.current < self.tokens.len() {
            self.current = self.current + 1;
        }
    }

    /// Moves the cursor over the token `expected`, which has to be under it.
    fn expect(&mut self, expected: Token) -> (result: Result<(), ParseError>)
        requires
            old(self).wf(),
            is_plain(expected@),
            !(expected@ is Eof),
        ensures
            final(self).wf(),
            final(self).tokens == old(self).tokens,
            match expect_at(old(self).tokens(), old(self).current as int, expected@) {
                Ok(end) => result is Ok && final(self).current == end,
                Err(error) => result is Err && result->Err_0@ == error,
            },
    {
        let fits = match self.current_token() {
            Some(token) => same_kind(token, &expected),
            None => false,
        };
        if fits {
            self.advance();
            Ok(())
        } else {
            Err(ParseError::UnexpectedToken { expected, found: self.found() })
        }
    }

    /// Moves the cursor over the `Newline` tokens under it.
    fn skip_newlines(&mut self)
        requires
            old(self).wf(),
        ensures
            old(self).reaches(
                *final(self),
                after_newlines(old(self).tokens(), old(self).current as int),
            ),
    {
        while self.current < self.tokens.len() && matches!(
            self.tokens[self.current],
            Token::Newline
        )
            invariant
                old(self).reaches(*self, self.current as int),
                after_newlines(self.tokens(), old(self).current as int) == after_newlines(
                    self.tokens(),
                    self.current as int,
                ),
            decreases self.tokens@.len() - self.current,
        {
            self.current = self.current + 1;
        }
    }

    /// Moves the cursor over a `Dedent`, if one is under it.
    fn skip_dedent(&mut self)
        requires
            old(self).wf(),
        ensures
            old(self).reaches(
                *final(self),
                after_dedent(old(self).tokens(), old(self).current as int),
            ),
    {
        if self.current < self.tokens.len() && matches!(self.tokens[self.current], Token::Dedent) {
            self.current = self.current + 1;
        }
    }

    /// Reads an operand.
    fn parse_primary(&mut self) -> (result: Result<Expression, ParseError>)
        requires
            old(self).wf(),
        ensures
            old(self).gives_expression(
                *final(self),
                result,
                primary_at(old(self).tokens(), old(self).current as int),
            ),
    {
        let expression = match self.current_token() {
            Some(Token::Number(lexeme)) => Expression::Number(lexeme.clone()),
            Some(Token::String(text)) => Expression::String(text.clone()),
            Some(Token::Identifier(name)) => Expression::Identifier(name.clone()),
            _ => {
                return Err(ParseError::MissingExpression { found: self.found() });
            },
        };
        self.advance();
        Ok(expression)
    }

    /// The operator under the cursor, if it is `*` or `/`.
    fn parse_multiplicative_operator(&self) -> (operator: Option<BinaryOperator>)
        requires
            self.wf(),
        ensures
            operator == multiplicative_operator(token_at(self.tokens(), self.current as int)),
    {
        match self.current_token() {
            Some(Token::Multiply) => Some(BinaryOperator::Multiply),
            Some(Token::Divide) => Some(BinaryOperator::Divide),
            _ => None,
        }
    }

    /// The operator under the cursor, if it is `+` or `-`.
    fn parse_additive_operator(&self) -> (operator: Option<BinaryOperator>)
        requires
            self.wf(),
        ensures
            operator == additive_operator(token_at(self.tokens(), self.current as int)),
    {
        match self.current_token() {
            Some(Token::Plus) => Some(BinaryOperator::Add),
            Some(Token::Minus) => Some(BinaryOperator::Subtract),
            _ => None,
        }
    }

    /// The operator under the cursor, if it is a relation.
    fn parse_comparison_operator(&self) -> (operator: Option<BinaryOperator>)
        requires
            self.wf(),
        ensures
            operator == relational_operator(token_at(self.tokens(), self.current as int)),
    {
        match self.current_token() {
            Some(Token::IsGreaterThan) => Some(BinaryOperator::GreaterThan),
            Some(Token::IsLessThan) => Some(BinaryOperator::LessThan),
            Some(Token::IsGreaterThanOrEqual) => Some(BinaryOperator::GreaterThanOrEqual),
            Some(Token::IsLessThanOrEqual) => Some(BinaryOperator::LessThanOrEqual),
            Some(Token::IsEqual) => Some(BinaryOperator::Equal),
            Some(Token::IsNotEqual) => Some(BinaryOperator::NotEqual),
            _ => None,
        }
    }

    /// Reads a product.
    fn parse_multiplicative(&mut self) -> (result: Result<Expression, ParseError>)
        requires
            old(self).wf(),
        ensures
            old(self).gives_expression(
                *final(self),
                result,
                multiplicative_at(old(self).tokens(), old(self).current as int),
            ),
    {
        let mut left = match self.parse_primary() {
            Ok(expression) => expression,
            Err(error) => {
                return Err(error);
            },
        };
        loop
            invariant
                self.wf(),
                self.tokens == old(self).tokens,
                multiplicative_at(old(self).tokens(), old(self).current as int)
                    == multiplicative_rest(self.tokens(), left@, self.current as int),
            decreases self.tokens@.len() - self.current,
        {
            let operator = match self.parse_multiplicative_operator() {
                Some(operator) => operator,
                None => {
                    return Ok(left);
                },
            };
            self.advance();
            let right = match self.parse_primary() {
                Ok(expression) => expression,
                Err(error) => {
                    return Err(error);
                },
            };
            left = Expression::BinaryOp(
                BinaryOperation { left: Box::new(left), operator, right: Box::new(right) },
            );
        }
    }

    /// Reads a sum.
    fn parse_additive(&mut self) -> (result: Result<Expression, ParseError>)
        requires
            old(self).wf(),
        ensures
            old(self).gives_expression(
                *final(self),
                result,
                additive_at(old(self).tokens(), old(self).current as int),
            ),
    {
        let mut left = match self.parse_multiplicative() {
            Ok(expression) => expression,
            Err(error) => {
                return Err(error);
            },
        };
        loop
            invariant
                self.wf(),
                self.tokens == old(self).tokens,
                additive_at(old(self).tokens(), old(self).current as int) == additive_rest(
                    self.tokens(),
                    left@,
                    self.current as int,
                ),
            decreases self.tokens@.len() - self.current,
        {
            let operator = match self.parse_additive_operator() {
                Some(operator) => operator,
                None => {
                    return Ok(left);
                },
            };
            self.advance();
            let ghost operand_at = self.current as int;
            let right = match self.parse_multiplicative() {
                Ok(expression) => expression,
                Err(error) => {
                    return Err(error);
                },
            };
            proof {
                lemma_multiplicative_advances(self.tokens(), operand_at);
            }
            left = Expression::BinaryOp(
                BinaryOperation { left: Box::new(left), operator, right: Box::new(right) },
            );
        }
    }

    /// Reads a chain of relations.
    fn parse_comparison(&mut self) -> (result: Result<Expression, ParseError>)
        requires
            old(self).wf(),
        ensures
            old(self).gives_expression(
                *final(self),
                result,
                expression_at(old(self).tokens(), old(self).current as int),
            ),
    {
        let mut left = match self.parse_additive() {
            Ok(expression) => expression,
            Err(error) => {
                return Err(error);
            },
        };
        loop
            invariant
                self.wf(),
                self.tokens == old(self).tokens,
                expression_at(old(self).tokens(), old(self).current as int) == comparison_rest(
                    self.tokens(),
                    left@,
                    self.current as int,
                ),
            decreases self.tokens@.len() - self.current,
        {
            let operator = match self.parse_comparison_operator() {
                Some(operator) => operator,
                None => {
                    return Ok(left);
                },
            };
            self.advance();
            let ghost operand_at = self.current as int;
            let right = match self.parse_additive() {
                Ok(expression) => expression,
                Err(error) => {
                    return Err(error);
                },
            };
            proof {
                lemma_additive_advances(self.tokens(), operand_at);
            }
            left = Expression::BinaryOp(
                BinaryOperation { left: Box::new(left), operator, right: Box::new(right) },
            );
        }
    }

    /// Reads an expression.
    fn parse_expression(&mut self) -> (result: Result<Expression, ParseError>)
        requires
            old(self).wf(),
        ensures
            old(self).gives_expression(
                *final(self),
                result,
                expression_at(old(self).tokens(), old(self).current as int),
            ),
    {
        self.parse_comparison()
    }

    /// Reads `let NAME be EXPRESSION`.
    fn parse_let_statement(&mut self) -> (result: Result<Statement, ParseError>)
        requires
            old(self).wf(),
        ensures
            old(self).gives_statement(
                *final(self),
                result,
                let_at(old(self).tokens(), old(self).current as int),
            ),
    {
        match self.expect(Token::Let) {
            Ok(()) => {},
            Err(error) => {
                return Err(error);
            },
        }
        let identifier = match self.current_token() {
            Some(Token::Identifier(name)) => name.clone(),
            _ => {
                return Err(ParseError::MissingIdentifier);
            },
        };
        self.advance();
        match self.expect(Token::Be) {
            Ok(()) => {},
            Err(error) => {
                return Err(error);
            },
        }
        let value = match self.parse_expression() {
            Ok(expression) => expression,
            Err(error) => {
                return Err(error);
            },
        };
        Ok(Statement::Let(LetStatement { identifier, value }))
    }

    /// Reads `show EXPRESSION`.
    fn parse_show_statement(&mut self) -> (result: Result<Statement, ParseError>)
        requires
            old(self).wf(),
        ensures
            old(self).gives_statement(
                *final(self),
                result,
                show_at(old(self).tokens(), old(self).current as int),
            ),
    {
        match self.expect(Token::Show) {
            Ok(()) => {},
            Err(error) => {
                return Err(error);
            },
        }
        let value = match self.parse_expression() {
            Ok(expression) => expression,
            Err(error) => {
                return Err(error);
            },
        };
        Ok(Statement::Show(ShowStatement { value }))
    }

    /// Reads the head of a `when`, up to the first statement of its block,
    /// and returns the condition.
    fn parse_when_head(&mut self) -> (result: Result<Expression, ParseError>)
        requires
            old(self).wf(),
        ensures
            old(self).gives_expression(
                *final(self),
                result,
                when_head_at(old(self).tokens(), old(self).current as int),
            ),
    {
        match self.expect(Token::When) {
            Ok(()) => {},
            Err(error) => {
                return Err(error);
            },
        }
        let condition = match self.parse_expression() {
            Ok(expression) => expression,
            Err(error) => {
                return Err(error);
            },
        };
        match self.expect(Token::Then) {
            Ok(()) => {},
            Err(error) => {
                return Err(error);
            },
        }
        self.skip_newlines();
        match self.expect(Token::Indent) {
            Ok(()) => {},
            Err(error) => {
                return Err(error);
            },
        }
        Ok(condition)
    }

    /// The index of the `otherwise` that belongs to the `when` whose block
    /// ends under the cursor: the cursor itself, or the index behind it where
    /// a `Dedent` is under the cursor and `otherwise` follows.
    fn otherwise_place(&self) -> (place: Option<usize>)
        requires
            self.wf(),
        ensures
            match otherwise_at(self.tokens(), self.current as int) {
                Some(keyword) => place is Some && place->0 == keyword && self.current <= keyword
                    < self.tokens@.len() <= usize::MAX,
                None => place is None,
            },
    {
        if self.current >= self.tokens.len() {
            return None;
        }
        match &self.tokens[self.current] {
            Token::Otherwise => Some(self.current),
            Token::Dedent => {
                if self.current + 1 < self.tokens.len() && matches!(
                    self.tokens[self.current + 1],
                    Token::Otherwise
                ) {
                    Some(self.current + 1)
                } else {
                    None
                }
            },
            _ => None,
        }
    }

    /// Reads a `when` with its block and, if there is one, its `otherwise`
    /// block. The `otherwise` may stand in the first block or under the
    /// `when`, behind the `Dedent` that ends the block.
    fn parse_when_statement(&mut self) -> (result: Result<Statement, ParseError>)
        requires
            old(self).wf(),
            token_at(old(self).tokens(), old(self).current as int) is When,
        ensures
            old(self).gives_statement(
                *final(self),
                result,
                statement_at(old(self).tokens(), old(self).current as int),
            ),
        decreases old(self).tokens@.len() - old(self).current, 1nat,
    {
        let ghost tokens = self.tokens();
        let ghost start = self.current as int;
        let condition = match self.parse_when_head() {
            Ok(expression) => expression,
            Err(error) => {
                return Err(error);
            },
        };
        proof {
            lemma_when_head_advances(tokens, start);
        }
        let ghost block_start = self.current as int;
        let then_block = match self.parse_block(BlockKind::Then) {
            Ok(statements) => statements,
            Err(error) => {
                return Err(error);
            },
        };
        proof {
            lemma_block_advances(tokens, block_start, BlockKind::Then);
        }
        let inside = match self.current_token() {
            Some(Token::Otherwise) => true,
            _ => false,
        };
        match self.otherwise_place() {
            Some(keyword) => {
                self.current = keyword + 1;
                proof {
                    lemma_after_newlines(tokens, self.current as int);
                }
                self.skip_newlines();
                match self.expect(Token::Indent) {
                    Ok(()) => {},
                    Err(error) => {
                        return Err(error);
                    },
                }
                let otherwise_block = match self.parse_block(BlockKind::Otherwise) {
                    Ok(statements) => statements,
                    Err(error) => {
                        return Err(error);
                    },
                };
                self.skip_dedent();
                if inside {
                    self.skip_dedent();
                }
                Ok(
                    Statement::When(
                        WhenStatement {
                            condition,
                            then_block,
                            otherwise_block: Some(otherwise_block),
                        },
                    ),
                )
            },
            None => {
                self.skip_dedent();
                Ok(Statement::When(WhenStatement { condition, then_block, otherwise_block: None }))
            },
        }
    }

    /// Reads the names of the parameters of a function.
    fn parse_parameters(&mut self) -> (parameters: Vec<String>)
        requires
            old(self).wf(),
        ensures
            old(self).reaches(
                *final(self),
                parameters_at(old(self).tokens(), old(self).current as int).1,
            ),
            names_view(parameters) == parameters_at(
                old(self).tokens(),
                old(self).current as int,
            ).0,
    {
        let mut parameters: Vec<String> = Vec::new();
        let ghost tokens = self.tokens();
        let ghost whole = parameters_at(tokens, self.current as int);
        assert(names_view(parameters) =~= Seq::empty());
        assert(Seq::<Seq<char>>::empty() + whole.0 =~= whole.0);
        loop
            invariant
                old(self).reaches(*self, self.current as int),
                tokens == self.tokens(),
                whole == parameters_at(tokens, old(self).current as int),
                whole.0 == names_view(parameters) + parameters_at(tokens, self.current as int).0,
                whole.1 == parameters_at(tokens, self.current as int).1,
            decreases self.tokens@.len() - self.current,
        {
            let ghost names = names_view(parameters);
            let name = match self.current_token() {
                Some(Token::Identifier(name)) => name.clone(),
                _ => {
                    assert(names + Seq::<Seq<char>>::empty() =~= names);
                    return parameters;
                },
            };
            let ghost rest = parameters_at(tokens, self.current + 1).0;
            parameters.push(name);
            self.advance();
            proof {
                assert(names_view(parameters) =~= names.push(name@));
                assert(names + (seq![name@] + rest) =~= names.push(name@) + rest);
            }
        }
    }

    /// Reads the head of a function, up to the first statement of its body,
    /// and returns its name and the names of its parameters.
    fn parse_function_head(&mut self) -> (result: Result<(String, Vec<String>), ParseError>)
        requires
            old(self).wf(),
        ensures
            final(self).wf(),
            final(self).tokens == old(self).tokens,
            match definition_head_at(old(self).tokens(), old(self).current as int) {
                Ok(((name, parameters), end)) => result is Ok && result->Ok_0.0@ == name
                    && names_view(result->Ok_0.1) == parameters && final(self).current == end,
                Err(error) => result is Err && result->Err_0@ == error,
            },
    {
        match self.expect(Token::Define) {
            Ok(()) => {},
            Err(error) => {
                return Err(error);
            },
        }
        let name = match self.current_token() {
            Some(Token::Identifier(name)) => name.clone(),
            _ => {
                return Err(ParseError::MissingFunctionName);
            },
        };
        self.advance();
        let has_parameters = match self.current_token() {
            Some(Token::With) => true,
            _ => false,
        };
        let parameters = if has_parameters {
            self.advance();
            self.parse_parameters()
        } else {
            let none: Vec<String> = Vec::new();
            assert(names_view(none) =~= Seq::empty());
            none
        };
        self.skip_newlines();
        match self.expect(Token::Indent) {
            Ok(()) => {},
            Err(error) => {
                return Err(error);
            },
        }
        Ok((name, parameters))
    }

    /// Reads the declaration of a function.
    fn parse_function_def(&mut self) -> (result: Result<Statement, ParseError>)
        requires
            old(self).wf(),
            token_at(old(self).tokens(), old(self).current as int) is Define,
        ensures
            old(self).gives_statement(
                *final(self),
                result,
                statement_at(old(self).tokens(), old(self).current as int),
            ),
        decreases old(self).tokens@.len() - old(self).current, 1nat,
    {
        let ghost tokens = self.tokens();
        let ghost start = self.current as int;
        let (name, parameters) = match self.parse_function_head() {
            Ok(head) => head,
            Err(error) => {
                return Err(error);
            },
        };
        proof {
            lemma_definition_head_advances(tokens, start);
        }
        let body = match self.parse_block(BlockKind::Body) {
            Ok(statements) => statements,
            Err(error) => {
                return Err(error);
            },
        };
        let at_end = match self.current_token() {
            Some(Token::End) => true,
            _ => false,
        };
        if at_end {
            self.advance();
        } else {
            self.skip_dedent();
        }
        Ok(Statement::FunctionDef(FunctionDef { name, parameters, body }))
    }

    /// Reads a statement.
    fn parse_statement(&mut self) -> (result: Result<Statement, ParseError>)
        requires
            old(self).wf(),
        ensures
            old(self).gives_statement(
                *final(self),
                result,
                statement_at(old(self).tokens(), old(self).current as int),
            ),
        decreases old(self).tokens@.len() - old(self).current, 2nat,
    {
        match self.current_token() {
            Some(Token::Let) => self.parse_let_statement(),
            Some(Token::Show) => self.parse_show_statement(),
            Some(Token::When) => self.parse_when_statement(),
            Some(Token::Define) => self.parse_function_def(),
            _ => {
                match self.parse_expression() {
                    Ok(expression) => Ok(Statement::Expression(expression)),
                    Err(error) => Err(error),
                }
            },
        }
    }

    /// Whether the token under the cursor ends a block of the given kind.
    fn at_block_end(&self, kind: BlockKind) -> (ends: bool)
        requires
            self.wf(),
        ensures
            ends == kind.ends_before(token_at(self.tokens(), self.current as int)),
    {
        match self.current_token() {
            None => true,
            Some(Token::Eof) => true,
            Some(Token::Dedent) => !matches!(kind, BlockKind::Program),
            Some(Token::Otherwise) => matches!(kind, BlockKind::Then),
            Some(Token::End) => matches!(kind, BlockKind::Body),
            _ => false,
        }
    }

    /// Reads the statements of a block of the given kind.
    fn parse_block(&mut self, kind: BlockKind) -> (result: Result<Vec<Statement>, ParseError>)
        requires
            old(self).wf(),
        ensures
            old(self).gives_block(
                *final(self),
                result,
                block_at(old(self).tokens(), old(self).current as int, kind),
            ),
        decreases old(self).tokens@.len() - old(self).current, 3nat,
    {
        let mut statements: Vec<Statement> = Vec::new();
        let ghost tokens = self.tokens();
        let ghost whole = block_at(tokens, self.current as int, kind);
        proof {
            assert(block_view(statements) =~= Seq::empty());
            if whole is Ok {
                assert(Seq::<StatementSpec>::empty() + whole->Ok_0.0 =~= whole->Ok_0.0);
            }
        }
        while !self.at_block_end(kind)
            invariant
                self.wf(),
                self.tokens == old(self).tokens,
                tokens == self.tokens(),
                old(self).current <= self.current,
                whole == block_at(tokens, old(self).current as int, kind),
                whole == statements_then(
                    block_view(statements),
                    block_at(tokens, self.current as int, kind),
                ),
            decreases self.tokens@.len() - self.current,
        {
            let ghost read = block_view(statements);
            let ghost here = self.current as int;
            let statement = match self.parse_statement() {
                Ok(statement) => statement,
                Err(error) => {
                    return Err(error);
                },
            };
            proof {
                lemma_statement_advances(tokens, here);
                lemma_after_newlines(tokens, self.current as int);
                lemma_statements_then_push(
                    read,
                    statement@,
                    block_at(tokens, after_newlines(tokens, self.current as int), kind),
                );
            }
            statements.push(statement);
            assert(block_view(statements) =~= read.push(statement@));
            self.skip_newlines();
        }
        proof {
            assert(block_view(statements) + Seq::<StatementSpec>::empty() =~= block_view(
                statements,
            ));
        }
        Ok(statements)
    }

    /// Reads the whole program.
    ///
    /// On a fresh parser the program is the one that [`program_of`] gives
    /// for the tokens, and so is the error.
    pub fn parse(&mut self) -> (result: Result<Program, ParseError>)
        requires
            old(self).wf(),
        ensures
            final(self).wf(),
            final(self).tokens() == old(self).tokens(),
            match block_at(
                old(self).tokens(),
                after_newlines(old(self).tokens(), old(self).position()),
                BlockKind::Program,
            ) {
                Ok((statements, end)) => result is Ok && result->Ok_0@ == statements
                    && final(self).position() == end,
                Err(error) => result is Err && result->Err_0@ == error,
            },
            old(self).position() == 0 ==> parsed_view(result) == program_of(old(self).tokens()),
    {
        self.skip_newlines();
        match self.parse_block(BlockKind::Program) {
            Ok(statements) => Ok(Program { statements }),
            Err(error) => Err(error),
        }
    }
}

} // verus!
