//! The lexer: from source text to tokens.
//!
//! Blocks are marked by indentation, and the six relations are written as
//! phrases of several words, such as `is greater than or equal`.
use vstd::prelude::*;
use vstd::string::StringExecFns;
use crate::laws::{
    closes_only_open_blocks, is_split_relation, lemma_dedents_close_blocks,
    lemma_only_open_blocks_are_closed, lemma_relations_are_not_split_from, occurrences,
};
use crate::text::{
    chars_of, digit, is_digit, is_letter, lemma_run_end, lemma_run_end_from_inside, letter,
    run_end, string_of, CharClass,
};

verus! {

/// One lexical unit.
#[derive(Debug, PartialEq, Eq)]
pub enum Token {
    Let,
    Be,
    When,
    Then,
    Otherwise,
    Show,
    Define,
    With,
    End,
    IsGreaterThan,
    IsLessThan,
    IsGreaterThanOrEqual,
    IsLessThanOrEqual,
    IsEqual,
    IsNotEqual,
    /// A number, as the run of digits and decimal points that was written.
    Number(String),
    /// A text literal, with its escapes resolved.
    String(String),
    Identifier(String),
    Plus,
    Minus,
    Multiply,
    Divide,
    Newline,
    Indent,
    Dedent,
    Eof,
}

/// The model of a [`Token`].
pub enum TokenSpec {
    Let,
    Be,
    When,
    Then,
    Otherwise,
    Show,
    Define,
    With,
    End,
    IsGreaterThan,
    IsLessThan,
    IsGreaterThanOrEqual,
    IsLessThanOrEqual,
    IsEqual,
    IsNotEqual,
    Number(Seq<char>),
    String(Seq<char>),
    Identifier(Seq<char>),
    Plus,
    Minus,
    Multiply,
    Divide,
    Newline,
    Indent,
    Dedent,
    Eof,
}

impl View for Token {
    type V = TokenSpec;

    open spec fn view(&self) -> TokenSpec {
        match self {
            Token::Let => TokenSpec::Let,
            Token::Be => TokenSpec::Be,
            Token::When => TokenSpec::When,
            Token::Then => TokenSpec::Then,
            Token::Otherwise => TokenSpec::Otherwise,
            Token::Show => TokenSpec::Show,
            Token::Define => TokenSpec::Define,
            Token::With => TokenSpec::With,
            Token::End => TokenSpec::End,
            Token::IsGreaterThan => TokenSpec::IsGreaterThan,
            Token::IsLessThan => TokenSpec::IsLessThan,
            Token::IsGreaterThanOrEqual => TokenSpec::IsGreaterThanOrEqual,
            Token::IsLessThanOrEqual => TokenSpec::IsLessThanOrEqual,
            Token::IsEqual => TokenSpec::IsEqual,
            Token::IsNotEqual => TokenSpec::IsNotEqual,
            Token::Number(lexeme) => TokenSpec::Number(lexeme@),
            Token::String(text) => TokenSpec::String(text@),
            Token::Identifier(name) => TokenSpec::Identifier(name@),
            Token::Plus => TokenSpec::Plus,
            Token::Minus => TokenSpec::Minus,
            Token::Multiply => TokenSpec::Multiply,
            Token::Divide => TokenSpec::Divide,
            Token::Newline => TokenSpec::Newline,
            Token::Indent => TokenSpec::Indent,
            Token::Dedent => TokenSpec::Dedent,
            Token::Eof => TokenSpec::Eof,
        }
    }
}

impl Clone for Token {
    fn clone(&self) -> (copy: Token)
        ensures
            copy@ == self@,
    {
        match self {
            Token::Let => Token::Let,
            Token::Be => Token::Be,
            Token::When => Token::When,
            Token::Then => Token::Then,
            Token::Otherwise => Token::Otherwise,
            Token::Show => Token::Show,
            Token::Define => Token::Define,
            Token::With => Token::With,
            Token::End => Token::End,
            Token::IsGreaterThan => Token::IsGreaterThan,
            Token::IsLessThan => Token::IsLessThan,
            Token::IsGreaterThanOrEqual => Token::IsGreaterThanOrEqual,
            Token::IsLessThanOrEqual => Token::IsLessThanOrEqual,
            Token::IsEqual => Token::IsEqual,
            Token::IsNotEqual => Token::IsNotEqual,
            Token::Number(lexeme) => Token::Number(lexeme.clone()),
            Token::String(text) => Token::String(text.clone()),
            Token::Identifier(name) => Token::Identifier(name.clone()),
            Token::Plus => Token::Plus,
            Token::Minus => Token::Minus,
            Token::Multiply => Token::Multiply,
            Token::Divide => Token::Divide,
            Token::Newline => Token::Newline,
            Token::Indent => Token::Indent,
            Token::Dedent => Token::Dedent,
            Token::Eof => Token::Eof,
        }
    }
}

/// The models of the tokens of a list, in order.
pub open spec fn tokens_view(tokens: Seq<Token>) -> Seq<TokenSpec> {
    tokens.map_values(|token: Token| token@)
}

/// Why a text has no tokens.
#[derive(Debug, Clone, Copy, PartialEq, Eq, Structural)]
pub enum LexError {
    /// No token starts with this character. Lines count from 1, columns
    /// from 0.
    UnexpectedCharacter { character: char, line: usize, column: usize },
    /// A text literal is not closed before the end of the input.
    UnterminatedString,
    /// A backslash in a text literal is followed by something else than `n`,
    /// `t`, `r`, a backslash or a double quote.
    InvalidEscape,
}

/// The line of the character at `position`, counting from 1.
pub open spec fn line_at(input: Seq<char>, position: int) -> int
    decreases position,
{
    if position <= 0 {
        1
    } else if input[position - 1] == '\n' {
        line_at(input, position - 1) + 1
    } else {
        line_at(input, position - 1)
    }
}

/// The column of the character at `position`: the number of characters
/// between it and the start of its line.
pub open spec fn column_at(input: Seq<char>, position: int) -> int
    decreases position,
{
    if position <= 0 {
        0
    } else if input[position - 1] == '\n' {
        0
    } else {
        column_at(input, position - 1) + 1
    }
}

/// The index at which the blanks that start at `from` end.
pub open spec fn blanks_end(input: Seq<char>, from: int) -> int {
    run_end(input, from, CharClass::Blank)
}

/// The index at which the word that starts at `from` ends.
pub open spec fn word_end(input: Seq<char>, from: int) -> int {
    run_end(input, from, CharClass::Word)
}

/// The index at which the number that starts at `from` ends.
pub open spec fn number_end(input: Seq<char>, from: int) -> int {
    run_end(input, from, CharClass::Number)
}

/// The index at which the indentation that starts at `from` ends.
pub open spec fn indentation_end(input: Seq<char>, from: int) -> int {
    run_end(input, from, CharClass::Indentation)
}

/// The width of the indentation `input[from..to]`: a tab counts for four
/// columns, anything else for one.
pub open spec fn indentation_width(input: Seq<char>, from: int, to: int) -> nat
    decreases to - from,
{
    if from >= to {
        0
    } else {
        indentation_width(input, from, to - 1) + if input[to - 1] == '\t' {
            4nat
        } else {
            1nat
        }
    }
}

/// The character that stands for `ch` behind a backslash.
pub open spec fn escape(ch: char) -> Option<char> {
    if ch == 'n' {
        Some('\n')
    } else if ch == 't' {
        Some('\t')
    } else if ch == 'r' {
        Some('\r')
    } else if ch == '\\' {
        Some('\\')
    } else if ch == '"' {
        Some('"')
    } else {
        None
    }
}

/// `text`, and then, unless it failed, what the scan of the rest found.
pub open spec fn text_then(text: Seq<char>, rest: Result<(Seq<char>, int), LexError>) -> Result<
    (Seq<char>, int),
    LexError,
> {
    match rest {
        Ok((more, end)) => Ok((text + more, end)),
        Err(error) => Err(error),
    }
}

/// The rest of a text literal, from `from` to its closing quote: the
/// characters it stands for, and the index behind the quote.
pub open spec fn text_from(input: Seq<char>, from: int) -> Result<(Seq<char>, int), LexError>
    decreases input.len() - from,
{
    if !(0 <= from < input.len()) {
        Err(LexError::UnterminatedString)
    } else if input[from] == '"' {
        Ok((Seq::empty(), from + 1))
    } else if input[from] == '\\' {
        if from + 1 < input.len() && escape(input[from + 1]) is Some {
            text_then(seq![escape(input[from + 1])->0], text_from(input, from + 2))
        } else {
            Err(LexError::InvalidEscape)
        }
    } else {
        text_then(seq![input[from]], text_from(input, from + 1))
    }
}

/// Where the phrase made of `words[index..]` ends if it stands at `from`,
/// and nothing if it does not stand there. Each word must be a whole word of
/// the input; before every word but the first, blanks are passed over.
pub open spec fn phrase_end(input: Seq<char>, from: int, words: Seq<Seq<char>>, index: int) -> Option<
    int,
>
    decreases words.len() - index,
{
    if index < 0 || index >= words.len() {
        Some(from)
    } else {
        let start = if index > 0 {
            blanks_end(input, from)
        } else {
            from
        };
        let end = word_end(input, start);
        if input.subrange(start, end) == words[index] {
            phrase_end(input, end, words, index + 1)
        } else {
            None
        }
    }
}

/// The words of the six relations, in the order in which they are tried: a
/// phrase comes before every phrase that it begins with.
pub open spec fn relation_words(token: TokenSpec) -> Seq<Seq<char>> {
    match token {
        TokenSpec::IsGreaterThanOrEqual => seq!["is"@, "greater"@, "than"@, "or"@, "equal"@],
        TokenSpec::IsLessThanOrEqual => seq!["is"@, "less"@, "than"@, "or"@, "equal"@],
        TokenSpec::IsGreaterThan => seq!["is"@, "greater"@, "than"@],
        TokenSpec::IsLessThan => seq!["is"@, "less"@, "than"@],
        TokenSpec::IsNotEqual => seq!["is"@, "not"@, "equal"@],
        TokenSpec::IsEqual => seq!["is"@, "equal"@],
        _ => Seq::empty(),
    }
}

/// Where the phrase of the relation `token` ends if it stands at `from`.
pub open spec fn relation_end(input: Seq<char>, from: int, token: TokenSpec) -> Option<int> {
    phrase_end(input, from, relation_words(token), 0)
}

/// The token that a single word is: a keyword, or else an identifier.
pub open spec fn word_token(word: Seq<char>) -> TokenSpec {
    if word == "let"@ {
        TokenSpec::Let
    } else if word == "be"@ {
        TokenSpec::Be
    } else if word == "when"@ {
        TokenSpec::When
    } else if word == "then"@ {
        TokenSpec::Then
    } else if word == "otherwise"@ {
        TokenSpec::Otherwise
    } else if word == "show"@ {
        TokenSpec::Show
    } else if word == "define"@ {
        TokenSpec::Define
    } else if word == "with"@ {
        TokenSpec::With
    } else if word == "end"@ {
        TokenSpec::End
    } else {
        TokenSpec::Identifier(word)
    }
}

/// The token that starts with the word at `from`, and where it ends: the
/// first of the six relations whose phrase stands there, or else the keyword
/// or identifier that the word is.
pub open spec fn word_token_at(input: Seq<char>, from: int) -> (TokenSpec, int) {
    if relation_end(input, from, TokenSpec::IsGreaterThanOrEqual) is Some {
        (
            TokenSpec::IsGreaterThanOrEqual,
            relation_end(input, from, TokenSpec::IsGreaterThanOrEqual)->0,
        )
    } else if relation_end(input, from, TokenSpec::IsLessThanOrEqual) is Some {
        (TokenSpec::IsLessThanOrEqual, relation_end(input, from, TokenSpec::IsLessThanOrEqual)->0)
    } else if relation_end(input, from, TokenSpec::IsGreaterThan) is Some {
        (TokenSpec::IsGreaterThan, relation_end(input, from, TokenSpec::IsGreaterThan)->0)
    } else if relation_end(input, from, TokenSpec::IsLessThan) is Some {
        (TokenSpec::IsLessThan, relation_end(input, from, TokenSpec::IsLessThan)->0)
    } else if relation_end(input, from, TokenSpec::IsNotEqual) is Some {
        (TokenSpec::IsNotEqual, relation_end(input, from, TokenSpec::IsNotEqual)->0)
    } else if relation_end(input, from, TokenSpec::IsEqual) is Some {
        (TokenSpec::IsEqual, relation_end(input, from, TokenSpec::IsEqual)->0)
    } else {
        (word_token(input.subrange(from, word_end(input, from))), word_end(input, from))
    }
}

/// A stack of indentation widths as the lexer keeps it: the base width 0 at
/// the bottom, and every width greater than the one below it.
pub open spec fn is_indentation(stack: Seq<nat>) -> bool {
    &&& stack.len() >= 1
    &&& stack[0] == 0
    &&& forall|i: int, j: int| 0 <= i < j < stack.len() ==> stack[i] < stack[j]
}

/// The stack without the widths on top that are greater than `width`.
pub open spec fn unindented(stack: Seq<nat>, width: nat) -> Seq<nat>
    decreases stack.len(),
{
    if stack.len() > 1 && stack.last() > width {
        unindented(stack.drop_last(), width)
    } else {
        stack
    }
}

/// The stack after a line of indentation `width` has begun.
pub open spec fn reindented(stack: Seq<nat>, width: nat) -> Seq<nat> {
    if stack.len() > 0 && width > stack.last() {
        stack.push(width)
    } else {
        unindented(stack, width)
    }
}

/// `count` tokens `Dedent`.
pub open spec fn dedents(count: nat) -> Seq<TokenSpec> {
    Seq::new(count, |i: int| TokenSpec::Dedent)
}

/// The tokens that mark how the indentation changes where a line of
/// indentation `width` begins: one `Indent` if it is deeper than the line
/// before, one `Dedent` for every open block that it leaves.
pub open spec fn indentation_marks(stack: Seq<nat>, width: nat) -> Seq<TokenSpec> {
    if stack.len() > 0 && width > stack.last() {
        seq![TokenSpec::Indent]
    } else {
        dedents((stack.len() - unindented(stack, width).len()) as nat)
    }
}

/// `tokens`, and then, unless it failed, the tokens of the rest.
pub open spec fn tokens_then(tokens: Seq<TokenSpec>, rest: Result<Seq<TokenSpec>, LexError>) -> Result<
    Seq<TokenSpec>,
    LexError,
> {
    match rest {
        Ok(more) => Ok(tokens + more),
        Err(error) => Err(error),
    }
}

/// The token that an operator character is.
pub open spec fn operator_token(ch: char) -> Option<TokenSpec> {
    if ch == '+' {
        Some(TokenSpec::Plus)
    } else if ch == '-' {
        Some(TokenSpec::Minus)
    } else if ch == '*' {
        Some(TokenSpec::Multiply)
    } else if ch == '/' {
        Some(TokenSpec::Divide)
    } else {
        None
    }
}

/// The tokens of `input` from `from` on, when the blocks that are open there
/// have the indentation widths `stack`; or the error at the first place
/// where no token can be read.
///
/// At the end of the input one `Dedent` closes every block that is still
/// open, and `Eof` follows.
pub open spec fn tokens_from(input: Seq<char>, from: int, stack: Seq<nat>) -> Result<
    Seq<TokenSpec>,
    LexError,
>
    decreases input.len() - from,
{
    if !(0 <= from < input.len()) {
        Ok(dedents((stack.len() - 1) as nat) + seq![TokenSpec::Eof])
    } else {
        let ch = input[from];
        if ch == ' ' || ch == '\t' {
            proof {
                lemma_run_end(input, from + 1, CharClass::Blank);
            }
            tokens_from(input, blanks_end(input, from), stack)
        } else if ch == '\n' {
            proof {
                lemma_run_end(input, from + 1, CharClass::Indentation);
            }
            let end = indentation_end(input, from + 1);
            let width = indentation_width(input, from + 1, end);
            tokens_then(
                seq![TokenSpec::Newline] + indentation_marks(stack, width),
                tokens_from(input, end, reindented(stack, width)),
            )
        } else if ch == '"' {
            match text_from(input, from + 1) {
                Ok((text, end)) => {
                    proof {
                        lemma_text_from_ends_later(input, from + 1);
                    }
                    tokens_then(seq![TokenSpec::String(text)], tokens_from(input, end, stack))
                },
                Err(error) => Err(error),
            }
        } else if is_digit(ch) {
            proof {
                lemma_run_end(input, from + 1, CharClass::Number);
            }
            let end = number_end(input, from);
            tokens_then(
                seq![TokenSpec::Number(input.subrange(from, end))],
                tokens_from(input, end, stack),
            )
        } else if is_letter(ch) || ch == '_' {
            proof {
                lemma_word_token_ends_later(input, from);
            }
            let (token, end) = word_token_at(input, from);
            tokens_then(seq![token], tokens_from(input, end, stack))
        } else if operator_token(ch) is Some {
            tokens_then(seq![operator_token(ch)->0], tokens_from(input, from + 1, stack))
        } else {
            Err(
                LexError::UnexpectedCharacter {
                    character: ch,
                    line: line_at(input, from) as usize,
                    column: column_at(input, from) as usize,
                },
            )
        }
    }
}

/// The tokens of a whole text.
pub open spec fn tokens_of(input: Seq<char>) -> Result<Seq<TokenSpec>, LexError> {
    tokens_from(input, 0, seq![0nat])
}

/// A text literal ends behind its start.
pub proof fn lemma_text_from_ends_later(input: Seq<char>, from: int)
    requires
        text_from(input, from) is Ok,
    ensures
        from < text_from(input, from)->Ok_0.1 <= input.len(),
    decreases input.len() - from,
{
    if input[from] == '"' {
    } else if input[from] == '\\' {
        lemma_text_from_ends_later(input, from + 2);
    } else {
        lemma_text_from_ends_later(input, from + 1);
    }
}

/// A phrase that stands at `from` ends at or behind the end of its first
/// word.
pub proof fn lemma_phrase_end_bounds(
    input: Seq<char>,
    from: int,
    words: Seq<Seq<char>>,
    index: int,
)
    requires
        0 <= from <= input.len(),
        0 <= index,
        phrase_end(input, from, words, index) is Some,
    ensures
        from <= phrase_end(input, from, words, index)->0 <= input.len(),
        index == 0 < words.len() ==> word_end(input, from) <= phrase_end(
            input,
            from,
            words,
            index,
        )->0,
    decreases words.len() - index,
{
    if index < words.len() {
        let start = if index > 0 {
            blanks_end(input, from)
        } else {
            from
        };
        lemma_run_end(input, from, CharClass::Blank);
        lemma_run_end(input, start, CharClass::Word);
        lemma_phrase_end_bounds(input, word_end(input, start), words, index + 1);
    }
}

/// The token that starts with a letter or an underscore ends behind its
/// start.
pub proof fn lemma_word_token_ends_later(input: Seq<char>, from: int)
    requires
        0 <= from < input.len(),
        is_letter(input[from]) || input[from] == '_',
    ensures
        from < word_token_at(input, from).1 <= input.len(),
{
    lemma_run_end(input, from + 1, CharClass::Word);
    assert(from < word_end(input, from) <= input.len());
    if relation_end(input, from, TokenSpec::IsGreaterThanOrEqual) is Some {
        lemma_phrase_end_bounds(input, from, relation_words(TokenSpec::IsGreaterThanOrEqual), 0);
    } else if relation_end(input, from, TokenSpec::IsLessThanOrEqual) is Some {
        lemma_phrase_end_bounds(input, from, relation_words(TokenSpec::IsLessThanOrEqual), 0);
    } else if relation_end(input, from, TokenSpec::IsGreaterThan) is Some {
        lemma_phrase_end_bounds(input, from, relation_words(TokenSpec::IsGreaterThan), 0);
    } else if relation_end(input, from, TokenSpec::IsLessThan) is Some {
        lemma_phrase_end_bounds(input, from, relation_words(TokenSpec::IsLessThan), 0);
    } else if relation_end(input, from, TokenSpec::IsNotEqual) is Some {
        lemma_phrase_end_bounds(input, from, relation_words(TokenSpec::IsNotEqual), 0);
    } else if relation_end(input, from, TokenSpec::IsEqual) is Some {
        lemma_phrase_end_bounds(input, from, relation_words(TokenSpec::IsEqual), 0);
    }
}

/// Lines and columns stay within the number of characters passed.
pub proof fn lemma_line_and_column_bounds(input: Seq<char>, position: int)
    requires
        0 <= position,
    ensures
        1 <= line_at(input, position) <= position + 1,
        0 <= column_at(input, position) <= position,
    decreases position,
{
    if position > 0 {
        lemma_line_and_column_bounds(input, position - 1);
    }
}

/// Appending tokens one after the other is appending them at once.
pub proof fn lemma_tokens_then_twice(
    first: Seq<TokenSpec>,
    second: Seq<TokenSpec>,
    rest: Result<Seq<TokenSpec>, LexError>,
)
    ensures
        tokens_then(first, tokens_then(second, rest)) == tokens_then(first + second, rest),
{
    if rest is Ok {
        assert(first + (second + rest->Ok_0) =~= (first + second) + rest->Ok_0);
    }
}

/// The models of the words of a phrase.
pub open spec fn words_view(words: Seq<&str>) -> Seq<Seq<char>> {
    words.map_values(|word: &str| word@)
}

/// The widths of a stack of indentations, as numbers.
pub open spec fn widths_view(widths: Seq<usize>) -> Seq<nat> {
    widths.map_values(|width: usize| width as nat)
}

/// The token that a single word is.
fn word_to_token(word: String) -> (token: Token)
    ensures
        token@ == word_token(word@),
{
    if word == String::from_str("let") {
        Token::Let
    } else if word == String::from_str("be") {
        Token::Be
    } else if word == String::from_str("when") {
        Token::When
    } else if word == String::from_str("then") {
        Token::Then
    } else if word == String::from_str("otherwise") {
        Token::Otherwise
    } else if word == String::from_str("show") {
        Token::Show
    } else if word == String::from_str("define") {
        Token::Define
    } else if word == String::from_str("with") {
        Token::With
    } else if word == String::from_str("end") {
        Token::End
    } else {
        Token::Identifier(word)
    }
}

/// A lexer over one text: a cursor with its line and column, and the stack
/// of the indentation widths of the blocks that are open at the cursor.
pub struct Lexer {
    input: Vec<char>,
    position: usize,
    line: usize,
    column: usize,
    indent_stack: Vec<usize>,
}

impl Lexer {
    /// The text that is read.
    pub closed spec fn input(&self) -> Seq<char> {
        self.input@
    }

    /// The index of the next character to read.
    pub closed spec fn position(&self) -> int {
        self.position as int
    }

    /// The indentation widths of the open blocks, the base width 0 first.
    pub closed spec fn indentation(&self) -> Seq<nat> {
        widths_view(self.indent_stack@)
    }

    /// The cursor is within the text, line and column are those of the
    /// cursor, the indentation stack is in order, and widths can be counted
    /// without overflow.
    pub closed spec fn wf(&self) -> bool {
        &&& self.position <= self.input@.len()
        &&& 4 * self.input@.len() <= usize::MAX
        &&& self.line == line_at(self.input@, self.position as int)
        &&& self.column == column_at(self.input@, self.position as int)
        &&& is_indentation(self.indentation())
    }

    /// `after` is this lexer with the cursor moved to `position`.
    spec fn reaches(&self, after: Lexer, position: int) -> bool {
        &&& after.wf()
        &&& after.input == self.input
        &&& after.indent_stack == self.indent_stack
        &&& after.position == position
    }

    /// A lexer at the start of `input`, with no block open.
    pub fn new(input: &str) -> (lexer: Lexer)
        requires
            4 * input@.len() <= usize::MAX,
        ensures
            lexer.wf(),
            lexer.input() == input@,
            lexer.position() == 0,
            lexer.indentation() == seq![0nat],
    {
        let mut indent_stack: Vec<usize> = Vec::new();
        indent_stack.push(0);
        let lexer = Lexer { input: chars_of(input), position: 0, line: 1, column: 0, indent_stack };
        assert(lexer.indentation() =~= seq![0nat]);
        lexer
    }

    /// The character under the cursor, if the cursor is not at the end.
    fn current(&self) -> (ch: Option<char>)
        requires
            self.wf(),
        ensures
            ch == if self.position < self.input@.len() {
                Some(self.input@[self.position as int])
            } else {
                None
            },
    {
        if self.position < self.input.len() {
            Some(self.input[self.position])
        } else {
            None
        }
    }

    /// The character behind the one under the cursor, if there is one.
    pub fn peek(&self) -> (ch: Option<char>)
        requires
            self.wf(),
        ensures
            ch == if self.position() + 1 < self.input().len() {
                Some(self.input()[self.position() + 1])
            } else {
                None
            },
    {
        if self.position < self.input.len() && self.position + 1 < self.input.len() {
            Some(self.input[self.position + 1])
        } else {
            None
        }
    }

    /// Moves the cursor over one character.
    fn advance(&mut self)
        requires
            old(self).wf(),
            old(self).position < old(self).input@.len(),
        ensures
            old(self).reaches(*final(self), old(self).position + 1),
    {
        proof {
            lemma_line_and_column_bounds(self.input@, self.position as int);
        }
        if self.input[self.position] == '\n' {
            self.line = self.line + 1;
            self.column = 0;
        } else {
            self.column = self.column + 1;
        }
        self.position = self.position + 1;
    }

    /// Moves the cursor to the end of the run of `class` that starts under
    /// it.
    fn skip_run(&mut self, class: CharClass)
        requires
            old(self).wf(),
        ensures
            old(self).reaches(
                *final(self),
                run_end(old(self).input@, old(self).position as int, class),
            ),
    {
        while self.position < self.input.len() && class.contains(self.input[self.position])
            invariant
                old(self).reaches(*self, self.position as int),
                old(self).position <= self.position,
                forall|i: int|
                    old(self).position <= i < self.position ==> class.holds(
                        #[trigger] self.input@[i],
                    ),
            decreases self.input@.len() - self.position,
        {
            self.advance();
        }
        proof {
            lemma_run_end_from_inside(
                self.input@,
                old(self).position as int,
                self.position as int,
                class,
            );
        }
    }

    /// Moves the cursor over the blanks under it.
    fn skip_whitespace(&mut self)
        requires
            old(self).wf(),
        ensures
            old(self).reaches(
                *final(self),
                blanks_end(old(self).input@, old(self).position as int),
            ),
    {
        self.skip_run(CharClass::Blank)
    }

    /// Reads the number under the cursor, as it is written.
    fn read_number(&mut self) -> (lexeme: String)
        requires
            old(self).wf(),
        ensures
            old(self).reaches(
                *final(self),
                number_end(old(self).input@, old(self).position as int),
            ),
            lexeme@ == old(self).input@.subrange(
                old(self).position as int,
                number_end(old(self).input@, old(self).position as int),
            ),
    {
        let start = self.position;
        self.skip_run(CharClass::Number);
        proof {
            lemma_run_end(self.input@, start as int, CharClass::Number);
        }
        string_of(&self.input, start, self.position)
    }

    /// Reads the word under the cursor; it is empty if no word starts there.
    fn read_identifier(&mut self) -> (word: String)
        requires
            old(self).wf(),
        ensures
            old(self).reaches(*final(self), word_end(old(self).input@, old(self).position as int)),
            word@ == old(self).input@.subrange(
                old(self).position as int,
                word_end(old(self).input@, old(self).position as int),
            ),
    {
        let start = self.position;
        self.skip_run(CharClass::Word);
        proof {
            lemma_run_end(self.input@, start as int, CharClass::Word);
        }
        string_of(&self.input, start, self.position)
    }

    /// Reads the text literal whose opening quote is under the cursor.
    fn read_string(&mut self) -> (result: Result<String, LexError>)
        requires
            old(self).wf(),
            old(self).position < old(self).input@.len(),
        ensures
            final(self).wf(),
            final(self).input == old(self).input,
            final(self).indent_stack == old(self).indent_stack,
            match text_from(old(self).input@, old(self).position + 1) {
                Ok((text, end)) => result is Ok && result->Ok_0@ == text && final(self).position
                    == end,
                Err(error) => result == Err::<String, LexError>(error),
            },
    {
        let mut text = String::new();
        self.advance();
        let ghost start = self.position as int;
        while self.position < self.input.len()
            invariant
                self.wf(),
                self.input == old(self).input,
                self.indent_stack == old(self).indent_stack,
                start == old(self).position + 1,
                start <= self.position,
                text_from(self.input@, start) == text_then(
                    text@,
                    text_from(self.input@, self.position as int),
                ),
            decreases self.input@.len() - self.position,
        {
            let ghost before = text@;
            let ghost here = self.position as int;
            let ch = self.input[self.position];
            if ch == '"' {
                self.advance();
                assert(before + Seq::<char>::empty() =~= before);
                return Ok(text);
            }
            if ch == '\\' {
                self.advance();
                match self.current() {
                    Some('n') => text.push('\n'),
                    Some('t') => text.push('\t'),
                    Some('r') => text.push('\r'),
                    Some('\\') => text.push('\\'),
                    Some('"') => text.push('"'),
                    _ => {
                        return Err(LexError::InvalidEscape);
                    },
                }
                self.advance();
                proof {
                    let rest = text_from(self.input@, here + 2);
                    if rest is Ok {
                        assert(before + (seq![escape(self.input@[here + 1])->0] + rest->Ok_0.0)
                            =~= text@ + rest->Ok_0.0);
                    }
                }
            } else {
                text.push(ch);
                self.advance();
                proof {
                    let rest = text_from(self.input@, here + 1);
                    if rest is Ok {
                        assert(before + (seq![ch] + rest->Ok_0.0) =~= text@ + rest->Ok_0.0);
                    }
                }
            }
        }
        Err(LexError::UnterminatedString)
    }

    /// Tries to read the phrase made of `words` at the cursor. If it stands
    /// there, the cursor moves behind it; if not, the cursor stays.
    fn try_match_keyword(&mut self, words: &[&str]) -> (matched: bool)
        requires
            old(self).wf(),
        ensures
            match phrase_end(old(self).input@, old(self).position as int, words_view(words@), 0) {
                Some(end) => matched && old(self).reaches(*final(self), end),
                None => !matched && old(self).reaches(*final(self), old(self).position as int),
            },
    {
        let saved_position = self.position;
        let saved_line = self.line;
        let saved_column = self.column;
        let mut index: usize = 0;
        while index < words.len()
            invariant
                index <= words@.len(),
                old(self).wf(),
                old(self).reaches(*self, self.position as int),
                saved_position == old(self).position,
                saved_line == old(self).line,
                saved_column == old(self).column,
                phrase_end(old(self).input@, saved_position as int, words_view(words@), 0)
                    == phrase_end(
                    self.input@,
                    self.position as int,
                    words_view(words@),
                    index as int,
                ),
            decreases words@.len() - index,
        {
            if index > 0 {
                self.skip_whitespace();
            }
            let word = self.read_identifier();
            let expected = String::from_str(words[index]);
            assert(words_view(words@)[index as int] == words@[index as int]@);
            if !(word == expected) {
                self.position = saved_position;
                self.line = saved_line;
                self.column = saved_column;
                return false;
            }
            index = index + 1;
        }
        true
    }

    /// Reads the token that starts with the word under the cursor.
    fn keyword_or_identifier(&mut self) -> (token: Token)
        requires
            old(self).wf(),
        ensures
            old(self).reaches(
                *final(self),
                word_token_at(old(self).input@, old(self).position as int).1,
            ),
            token@ == word_token_at(old(self).input@, old(self).position as int).0,
    {
        let greater_or_equal = ["is", "greater", "than", "or", "equal"];
        assert(words_view(greater_or_equal@) =~= relation_words(TokenSpec::IsGreaterThanOrEqual));
        if self.try_match_keyword(&greater_or_equal) {
            return Token::IsGreaterThanOrEqual;
        }
        let less_or_equal = ["is", "less", "than", "or", "equal"];
        assert(words_view(less_or_equal@) =~= relation_words(TokenSpec::IsLessThanOrEqual));
        if self.try_match_keyword(&less_or_equal) {
            return Token::IsLessThanOrEqual;
        }
        let greater = ["is", "greater", "than"];
        assert(words_view(greater@) =~= relation_words(TokenSpec::IsGreaterThan));
        if self.try_match_keyword(&greater) {
            return Token::IsGreaterThan;
        }
        let less = ["is", "less", "than"];
        assert(words_view(less@) =~= relation_words(TokenSpec::IsLessThan));
        if self.try_match_keyword(&less) {
            return Token::IsLessThan;
        }
        let not_equal = ["is", "not", "equal"];
        assert(words_view(not_equal@) =~= relation_words(TokenSpec::IsNotEqual));
        if self.try_match_keyword(&not_equal) {
            return Token::IsNotEqual;
        }
        let equal = ["is", "equal"];
        assert(words_view(equal@) =~= relation_words(TokenSpec::IsEqual));
        if self.try_match_keyword(&equal) {
            return Token::IsEqual;
        }
        let word = self.read_identifier();
        word_to_token(word)
    }

    /// Reads the line feed under the cursor and the indentation of the line
    /// that it begins, and brings the indentation stack in line with it.
    /// Returns `Newline` and the tokens that mark the change of indentation.
    fn handle_newline_and_indentation(&mut self) -> (tokens: Vec<Token>)
        requires
            old(self).wf(),
            old(self).position < old(self).input@.len(),
        ensures
            final(self).wf(),
            final(self).input == old(self).input,
            final(self).position == indentation_end(old(self).input@, old(self).position + 1),
            ({
                let width = indentation_width(
                    old(self).input@,
                    old(self).position + 1,
                    indentation_end(old(self).input@, old(self).position + 1),
                );
                &&& final(self).indentation() == reindented(old(self).indentation(), width)
                &&& tokens_view(tokens@) == seq![TokenSpec::Newline] + indentation_marks(
                    old(self).indentation(),
                    width,
                )
            }),
    {
        let mut tokens: Vec<Token> = Vec::new();
        tokens.push(Token::Newline);
        assert(tokens_view(tokens@) =~= seq![TokenSpec::Newline]);
        self.advance();
        let ghost start = self.position as int;
        let mut indent_level: usize = 0;
        while self.position < self.input.len() && CharClass::Indentation.contains(
            self.input[self.position],
        )
            invariant
                old(self).reaches(*self, self.position as int),
                start == old(self).position + 1,
                start <= self.position,
                forall|i: int|
                    start <= i < self.position ==> CharClass::Indentation.holds(
                        #[trigger] self.input@[i],
                    ),
                indent_level == indentation_width(self.input@, start, self.position as int),
                indent_level <= 4 * (self.position - start),
            decreases self.input@.len() - self.position,
        {
            if self.input[self.position] == '\t' {
                indent_level = indent_level + 4;
            } else {
                indent_level = indent_level + 1;
            }
            self.advance();
        }
        proof {
            lemma_run_end_from_inside(
                self.input@,
                start,
                self.position as int,
                CharClass::Indentation,
            );
        }
        let ghost stack = self.indentation();
        let current_indent = self.indent_stack[self.indent_stack.len() - 1];
        assert(current_indent == stack.last());
        if indent_level > current_indent {
            self.indent_stack.push(indent_level);
            tokens.push(Token::Indent);
            proof {
                assert(self.indentation() =~= stack.push(indent_level as nat));
                assert(tokens_view(tokens@) =~= seq![TokenSpec::Newline] + seq![TokenSpec::Indent]);
            }
        } else {
            assert(tokens_view(tokens@) =~= seq![TokenSpec::Newline] + dedents(0));
            while self.indent_stack[self.indent_stack.len() - 1] > indent_level
                invariant
                    self.wf(),
                    self.input == old(self).input,
                    self.position == indentation_end(old(self).input@, old(self).position + 1),
                    self.indent_stack@.len() <= stack.len(),
                    unindented(self.indentation(), indent_level as nat) == unindented(
                        stack,
                        indent_level as nat,
                    ),
                    tokens_view(tokens@) == seq![TokenSpec::Newline] + dedents(
                        (stack.len() - self.indent_stack@.len()) as nat,
                    ),
                decreases self.indent_stack@.len(),
            {
                let ghost widths = self.indentation();
                let ghost marks = tokens_view(tokens@);
                let ghost count = (stack.len() - self.indent_stack@.len()) as nat;
                assert(widths.last() > indent_level);
                assert(widths[0] == 0);
                self.indent_stack.pop();
                tokens.push(Token::Dedent);
                proof {
                    assert(self.indentation() =~= widths.drop_last());
                    assert(tokens_view(tokens@) =~= marks.push(TokenSpec::Dedent));
                    assert(dedents(count).push(TokenSpec::Dedent) =~= dedents(count + 1));
                    assert(marks.push(TokenSpec::Dedent) =~= seq![TokenSpec::Newline] + dedents(
                        count + 1,
                    ));
                }
            }
        }
        tokens
    }

    /// Reads the rest of the text and returns its tokens, closed by `Eof`.
    ///
    /// The tokens are those that [`tokens_from`] gives for the text from the
    /// cursor on; on a fresh lexer, those of the whole text. Reading stops at
    /// the first character with which no token can start, at a text literal
    /// that is not closed and at a backslash that escapes nothing.
    ///
    /// The tokens close every block: they hold as many `Dedent` as `Indent`
    /// and one more for each block that was open at the cursor, and no start
    /// of them closes a block that is not open. They never hold
    /// `IsGreaterThan` or `IsLessThan` with the identifiers `or` and `equal`
    /// directly behind it.
    pub fn tokenize(&mut self) -> (result: Result<Vec<Token>, LexError>)
        requires
            old(self).wf(),
        ensures
            final(self).wf(),
            final(self).input() == old(self).input(),
            match tokens_from(old(self).input(), old(self).position(), old(self).indentation()) {
                Ok(tokens) => {
                    &&& result is Ok
                    &&& tokens_view(result->Ok_0@) == tokens
                    &&& final(self).position() == final(self).input().len()
                    &&& final(self).indentation() == seq![0nat]
                    &&& occurrences(tokens, TokenSpec::Dedent) == occurrences(
                        tokens,
                        TokenSpec::Indent,
                    ) + old(self).indentation().len() - 1
                    &&& closes_only_open_blocks(tokens, old(self).indentation().len() - 1)
                    &&& forall|i: int| !is_split_relation(tokens, i)
                },
                Err(error) => result == Err::<Vec<Token>, LexError>(error),
            },
    {
        proof {
            let input = old(self).input();
            let from = old(self).position();
            let stack = old(self).indentation();
            if tokens_from(input, from, stack) is Ok {
                lemma_dedents_close_blocks(input, from, stack);
                lemma_only_open_blocks_are_closed(input, from, stack);
                lemma_relations_are_not_split_from(input, from, stack);
            }
        }
        let mut tokens: Vec<Token> = Vec::new();
        let ghost whole = tokens_from(
            old(self).input(),
            old(self).position(),
            old(self).indentation(),
        );
        assert(tokens_view(tokens@) =~= Seq::empty());
        assert(whole == tokens_then(tokens_view(tokens@), whole)) by {
            if whole is Ok {
                assert(Seq::<TokenSpec>::empty() + whole->Ok_0 =~= whole->Ok_0);
            }
        }
        while self.position < self.input.len()
            invariant
                self.wf(),
                self.input == old(self).input,
                whole == tokens_from(
                    old(self).input(),
                    old(self).position(),
                    old(self).indentation(),
                ),
                whole == tokens_then(
                    tokens_view(tokens@),
                    tokens_from(self.input@, self.position as int, self.indentation()),
                ),
            decreases self.input@.len() - self.position,
        {
            let ghost here = self.position as int;
            let ghost read = tokens_view(tokens@);
            let ghost stack = self.indentation();
            let ch = self.input[self.position];
            if ch == ' ' || ch == '\t' {
                proof {
                    lemma_run_end(self.input@, here + 1, CharClass::Blank);
                }
                self.skip_whitespace();
            } else if ch == '\n' {
                proof {
                    lemma_run_end(self.input@, here + 1, CharClass::Indentation);
                }
                let mut marks = self.handle_newline_and_indentation();
                let ghost added = tokens_view(marks@);
                tokens.append(&mut marks);
                proof {
                    assert(tokens_view(tokens@) =~= read + added);
                    lemma_tokens_then_twice(
                        read,
                        added,
                        tokens_from(self.input@, self.position as int, self.indentation()),
                    );
                }
            } else if ch == '"' {
                match self.read_string() {
                    Ok(text) => {
                        proof {
                            lemma_text_from_ends_later(self.input@, here + 1);
                        }
                        let token = Token::String(text);
                        proof {
                            self.lemma_token_read(read, token@, whole, here);
                        }
                        tokens.push(token);
                        assert(tokens_view(tokens@) =~= read + seq![token@]);
                    },
                    Err(error) => {
                        return Err(error);
                    },
                }
            } else if digit(ch) {
                proof {
                    lemma_run_end(self.input@, here + 1, CharClass::Number);
                }
                let token = Token::Number(self.read_number());
                proof {
                    self.lemma_token_read(read, token@, whole, here);
                }
                tokens.push(token);
                assert(tokens_view(tokens@) =~= read + seq![token@]);
            } else if letter(ch) || ch == '_' {
                proof {
                    lemma_word_token_ends_later(self.input@, here);
                }
                let token = self.keyword_or_identifier();
                proof {
                    self.lemma_token_read(read, token@, whole, here);
                }
                tokens.push(token);
                assert(tokens_view(tokens@) =~= read + seq![token@]);
            } else if ch == '+' || ch == '-' || ch == '*' || ch == '/' {
                let token = if ch == '+' {
                    Token::Plus
                } else if ch == '-' {
                    Token::Minus
                } else if ch == '*' {
                    Token::Multiply
                } else {
                    Token::Divide
                };
                self.advance();
                proof {
                    self.lemma_token_read(read, token@, whole, here);
                }
                tokens.push(token);
                assert(tokens_view(tokens@) =~= read + seq![token@]);
            } else {
                return Err(
                    LexError::UnexpectedCharacter {
                        character: ch,
                        line: self.line,
                        column: self.column,
                    },
                );
            }
        }
        let ghost read = tokens_view(tokens@);
        let ghost stack = self.indentation();
        assert(tokens_view(tokens@) =~= read + dedents(0));
        while self.indent_stack.len() > 1
            invariant
                self.wf(),
                self.input == old(self).input,
                self.position == self.input@.len(),
                1 <= self.indent_stack@.len() <= stack.len(),
                whole == tokens_from(
                    old(self).input(),
                    old(self).position(),
                    old(self).indentation(),
                ),
                whole == Ok::<Seq<TokenSpec>, LexError>(
                    read + (dedents((stack.len() - 1) as nat) + seq![TokenSpec::Eof]),
                ),
                tokens_view(tokens@) == read + dedents(
                    (stack.len() - self.indent_stack@.len()) as nat,
                ),
            decreases self.indent_stack@.len(),
        {
            let ghost widths = self.indentation();
            let ghost marks = tokens_view(tokens@);
            let ghost count = (stack.len() - self.indent_stack@.len()) as nat;
            self.indent_stack.pop();
            tokens.push(Token::Dedent);
            proof {
                assert(self.indentation() =~= widths.drop_last());
                assert(tokens_view(tokens@) =~= marks.push(TokenSpec::Dedent));
                assert(dedents(count).push(TokenSpec::Dedent) =~= dedents(count + 1));
                assert(marks.push(TokenSpec::Dedent) =~= read + dedents(count + 1));
            }
        }
        let ghost closed = tokens_view(tokens@);
        tokens.push(Token::Eof);
        proof {
            assert(self.indent_stack@.len() == 1);
            assert(tokens_view(tokens@) =~= closed.push(TokenSpec::Eof));
            assert(closed.push(TokenSpec::Eof) =~= read + (dedents((stack.len() - 1) as nat)
                + seq![TokenSpec::Eof]));
            assert(self.indentation() =~= seq![0nat]);
        }
        Ok(tokens)
    }

    /// After `token` has been read at `here`, what was read before, `token`
    /// and the tokens from the cursor on make up the whole.
    proof fn lemma_token_read(
        &self,
        read: Seq<TokenSpec>,
        token: TokenSpec,
        whole: Result<Seq<TokenSpec>, LexError>,
        here: int,
    )
        requires
            whole == tokens_then(
                read,
                tokens_then(
                    seq![token],
                    tokens_from(self.input@, self.position as int, self.indentation()),
                ),
            ),
        ensures
            whole == tokens_then(
                read + seq![token],
                tokens_from(self.input@, self.position as int, self.indentation()),
            ),
    {
        lemma_tokens_then_twice(
            read,
            seq![token],
            tokens_from(self.input@, self.position as int, self.indentation()),
        );
    }
}

} // verus!
