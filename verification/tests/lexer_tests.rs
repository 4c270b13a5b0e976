use delta_lang::lexer::{LexError, Lexer, Token};

fn tokens_of(source: &str) -> Vec<Token> {
    Lexer::new(source).tokenize().unwrap()
}

fn identifier(name: &str) -> Token {
    Token::Identifier(name.to_string())
}

fn number(lexeme: &str) -> Token {
    Token::Number(lexeme.to_string())
}

fn text(value: &str) -> Token {
    Token::String(value.to_string())
}

fn count(tokens: &[Token], wanted: &Token) -> usize {
    tokens.iter().filter(|token| *token == wanted).count()
}

#[test]
fn tokenizes_a_let_statement() {
    assert_eq!(
        tokens_of("let x be 5"),
        vec![Token::Let, identifier("x"), Token::Be, number("5"), Token::Eof]
    );
}

#[test]
fn empty_text_is_just_the_end() {
    assert_eq!(tokens_of(""), vec![Token::Eof]);
}

#[test]
fn every_keyword_is_recognized() {
    assert_eq!(
        tokens_of("let be when then otherwise show define with end"),
        vec![
            Token::Let,
            Token::Be,
            Token::When,
            Token::Then,
            Token::Otherwise,
            Token::Show,
            Token::Define,
            Token::With,
            Token::End,
            Token::Eof,
        ]
    );
}

#[test]
fn keywords_are_case_sensitive() {
    assert_eq!(tokens_of("Let LET"), vec![identifier("Let"), identifier("LET"), Token::Eof]);
}

#[test]
fn operators_are_single_characters() {
    assert_eq!(
        tokens_of("1+2-3*4/5"),
        vec![
            number("1"),
            Token::Plus,
            number("2"),
            Token::Minus,
            number("3"),
            Token::Multiply,
            number("4"),
            Token::Divide,
            number("5"),
            Token::Eof,
        ]
    );
}

#[test]
fn every_relation_is_one_token() {
    assert_eq!(
        tokens_of("a is greater than b"),
        vec![identifier("a"), Token::IsGreaterThan, identifier("b"), Token::Eof]
    );
    assert_eq!(
        tokens_of("a is less than b"),
        vec![identifier("a"), Token::IsLessThan, identifier("b"), Token::Eof]
    );
    assert_eq!(
        tokens_of("a is less than or equal b"),
        vec![identifier("a"), Token::IsLessThanOrEqual, identifier("b"), Token::Eof]
    );
    assert_eq!(
        tokens_of("a is equal b"),
        vec![identifier("a"), Token::IsEqual, identifier("b"), Token::Eof]
    );
    assert_eq!(
        tokens_of("a is not equal b"),
        vec![identifier("a"), Token::IsNotEqual, identifier("b"), Token::Eof]
    );
}

#[test]
fn greater_than_or_equal_is_one_token() {
    assert_eq!(
        tokens_of("x is greater than or equal y"),
        vec![identifier("x"), Token::IsGreaterThanOrEqual, identifier("y"), Token::Eof]
    );
    assert_eq!(
        tokens_of("is greater than or equal"),
        vec![Token::IsGreaterThanOrEqual, Token::Eof]
    );
    assert_eq!(
        tokens_of("3 is greater than or equal+4"),
        vec![number("3"), Token::IsGreaterThanOrEqual, Token::Plus, number("4"), Token::Eof]
    );
}

#[test]
fn a_shorter_relation_is_read_when_the_longer_one_breaks_off() {
    assert_eq!(
        tokens_of("x is greater than or y"),
        vec![
            identifier("x"),
            Token::IsGreaterThan,
            identifier("or"),
            identifier("y"),
            Token::Eof,
        ]
    );
    assert_eq!(
        tokens_of("x is greater than 5"),
        vec![identifier("x"), Token::IsGreaterThan, number("5"), Token::Eof]
    );
}

#[test]
fn a_relation_needs_whole_words() {
    assert_eq!(
        tokens_of("is equality"),
        vec![identifier("is"), identifier("equality"), Token::Eof]
    );
    assert_eq!(
        tokens_of("is greater thanx"),
        vec![identifier("is"), identifier("greater"), identifier("thanx"), Token::Eof]
    );
}

#[test]
fn the_words_of_a_relation_may_be_far_apart() {
    assert_eq!(
        tokens_of("a is   not \t equal b"),
        vec![identifier("a"), Token::IsNotEqual, identifier("b"), Token::Eof]
    );
}

#[test]
fn a_relation_does_not_run_over_a_line_break() {
    assert_eq!(
        tokens_of("is\nequal"),
        vec![identifier("is"), Token::Newline, identifier("equal"), Token::Eof]
    );
}

#[test]
fn identifiers_take_letters_digits_and_underscores() {
    assert_eq!(
        tokens_of("_a1 b_2 c3d"),
        vec![identifier("_a1"), identifier("b_2"), identifier("c3d"), Token::Eof]
    );
}

#[test]
fn identifiers_go_on_over_letters_beyond_ascii() {
    assert_eq!(tokens_of("caf\u{e9} x"), vec![identifier("caf\u{e9}"), identifier("x"), Token::Eof]);
}

#[test]
fn an_identifier_cannot_start_beyond_ascii() {
    assert_eq!(
        Lexer::new("\u{e9}").tokenize(),
        Err(LexError::UnexpectedCharacter { character: '\u{e9}', line: 1, column: 0 })
    );
}

#[test]
fn an_identifier_stops_at_a_symbol_beyond_ascii() {
    assert_eq!(
        Lexer::new("x\u{2192}").tokenize(),
        Err(LexError::UnexpectedCharacter { character: '\u{2192}', line: 1, column: 1 })
    );
}

#[test]
fn blanks_beyond_ascii_are_passed_over_with_the_others() {
    assert_eq!(tokens_of("x \u{a0}y"), vec![identifier("x"), identifier("y"), Token::Eof]);
    assert_eq!(
        tokens_of("a is\u{a0}equal b"),
        vec![identifier("a"), Token::IsEqual, identifier("b"), Token::Eof]
    );
}

#[test]
fn a_blank_beyond_ascii_starts_no_token() {
    assert_eq!(
        Lexer::new("\u{a0}x").tokenize(),
        Err(LexError::UnexpectedCharacter { character: '\u{a0}', line: 1, column: 0 })
    );
}

#[test]
fn a_carriage_return_is_passed_over_behind_a_space() {
    assert_eq!(
        tokens_of("x \r\ny"),
        vec![identifier("x"), Token::Newline, identifier("y"), Token::Eof]
    );
}

#[test]
fn numbers_keep_what_was_written() {
    assert_eq!(tokens_of("5"), vec![number("5"), Token::Eof]);
    assert_eq!(tokens_of("3.14"), vec![number("3.14"), Token::Eof]);
    assert_eq!(tokens_of("007"), vec![number("007"), Token::Eof]);
    assert_eq!(tokens_of("5."), vec![number("5."), Token::Eof]);
}

#[test]
fn a_number_takes_every_digit_and_point_that_follows() {
    assert_eq!(tokens_of("1.2.3"), vec![number("1.2.3"), Token::Eof]);
    assert_eq!(tokens_of("1..2 x"), vec![number("1..2"), identifier("x"), Token::Eof]);
}

#[test]
fn a_number_ends_at_a_letter() {
    assert_eq!(tokens_of("12ab"), vec![number("12"), identifier("ab"), Token::Eof]);
}

#[test]
fn a_point_starts_no_token() {
    assert_eq!(
        Lexer::new(".5").tokenize(),
        Err(LexError::UnexpectedCharacter { character: '.', line: 1, column: 0 })
    );
}

#[test]
fn text_literals_are_read_without_their_quotes() {
    assert_eq!(tokens_of("\"abc\""), vec![text("abc"), Token::Eof]);
    assert_eq!(tokens_of("\"\""), vec![text(""), Token::Eof]);
    assert_eq!(tokens_of("\"a b\"x"), vec![text("a b"), identifier("x"), Token::Eof]);
}

#[test]
fn text_literals_resolve_their_escapes() {
    assert_eq!(
        tokens_of("\"a\\nb\\tc\\rd\\\\e\\\"f\""),
        vec![text("a\nb\tc\rd\\e\"f"), Token::Eof]
    );
}

#[test]
fn a_text_literal_may_hold_a_line_break() {
    assert_eq!(tokens_of("\"a\nb\" x"), vec![text("a\nb"), identifier("x"), Token::Eof]);
}

#[test]
fn unterminated_text_is_an_error() {
    assert_eq!(Lexer::new("show \"abc").tokenize(), Err(LexError::UnterminatedString));
    assert_eq!(Lexer::new("\"").tokenize(), Err(LexError::UnterminatedString));
}

#[test]
fn an_unknown_escape_is_an_error() {
    assert_eq!(Lexer::new("\"a\\qb\"").tokenize(), Err(LexError::InvalidEscape));
}

#[test]
fn a_backslash_at_the_end_is_an_invalid_escape() {
    assert_eq!(Lexer::new("\"abc\\").tokenize(), Err(LexError::InvalidEscape));
}

#[test]
fn an_unexpected_character_is_reported_with_its_place() {
    assert_eq!(
        Lexer::new("let x be 5\nshow x\n  ? 1").tokenize(),
        Err(LexError::UnexpectedCharacter { character: '?', line: 3, column: 2 })
    );
    assert_eq!(
        Lexer::new("x (").tokenize(),
        Err(LexError::UnexpectedCharacter { character: '(', line: 1, column: 2 })
    );
}

#[test]
fn the_column_counts_characters_not_bytes() {
    assert_eq!(
        Lexer::new("\"\u{e9}\u{e9}\" #").tokenize(),
        Err(LexError::UnexpectedCharacter { character: '#', line: 1, column: 5 })
    );
}

#[test]
fn a_line_break_in_a_text_literal_counts_as_a_line() {
    assert_eq!(
        Lexer::new("\"a\nb\" #").tokenize(),
        Err(LexError::UnexpectedCharacter { character: '#', line: 2, column: 3 })
    );
}

#[test]
fn a_deeper_line_opens_a_block() {
    assert_eq!(
        tokens_of("a\n  b"),
        vec![
            identifier("a"),
            Token::Newline,
            Token::Indent,
            identifier("b"),
            Token::Dedent,
            Token::Eof,
        ]
    );
}

#[test]
fn a_shallower_line_closes_blocks() {
    assert_eq!(
        tokens_of("a\n  b\n    c\nd"),
        vec![
            identifier("a"),
            Token::Newline,
            Token::Indent,
            identifier("b"),
            Token::Newline,
            Token::Indent,
            identifier("c"),
            Token::Newline,
            Token::Dedent,
            Token::Dedent,
            identifier("d"),
            Token::Eof,
        ]
    );
}

#[test]
fn an_equally_deep_line_changes_nothing() {
    assert_eq!(
        tokens_of("a\n  b\n  c"),
        vec![
            identifier("a"),
            Token::Newline,
            Token::Indent,
            identifier("b"),
            Token::Newline,
            identifier("c"),
            Token::Dedent,
            Token::Eof,
        ]
    );
}

#[test]
fn a_tab_counts_for_four_columns() {
    assert_eq!(
        tokens_of("a\n\tb\n    c\n  d"),
        vec![
            identifier("a"),
            Token::Newline,
            Token::Indent,
            identifier("b"),
            Token::Newline,
            identifier("c"),
            Token::Newline,
            Token::Dedent,
            identifier("d"),
            Token::Eof,
        ]
    );
}

#[test]
fn a_line_between_two_depths_closes_the_deeper_block_only() {
    assert_eq!(
        tokens_of("a\n    b\n  c\nd"),
        vec![
            identifier("a"),
            Token::Newline,
            Token::Indent,
            identifier("b"),
            Token::Newline,
            Token::Dedent,
            identifier("c"),
            Token::Newline,
            identifier("d"),
            Token::Eof,
        ]
    );
}

#[test]
fn an_empty_line_counts_as_a_line_of_no_indentation() {
    assert_eq!(
        tokens_of("a\n  b\n\n  c"),
        vec![
            identifier("a"),
            Token::Newline,
            Token::Indent,
            identifier("b"),
            Token::Newline,
            Token::Dedent,
            Token::Newline,
            Token::Indent,
            identifier("c"),
            Token::Dedent,
            Token::Eof,
        ]
    );
}

#[test]
fn blocks_left_open_are_closed_at_the_end() {
    assert_eq!(
        tokens_of("a\n b\n  c\n   d"),
        vec![
            identifier("a"),
            Token::Newline,
            Token::Indent,
            identifier("b"),
            Token::Newline,
            Token::Indent,
            identifier("c"),
            Token::Newline,
            Token::Indent,
            identifier("d"),
            Token::Dedent,
            Token::Dedent,
            Token::Dedent,
            Token::Eof,
        ]
    );
}

#[test]
fn indents_and_dedents_balance() {
    let sources = [
        "",
        "a",
        "a\n  b",
        "a\n  b\n    c\n  d\ne",
        "a\n\tb\n\t\tc\n d\n",
        "when x then\n    show 1\n    otherwise\n        show 2\nshow 3",
        "\n\n   a\n b\n      c\n\n",
        "a\n        b\n    c\n  d\n      e",
    ];
    for source in sources {
        let tokens = tokens_of(source);
        assert_eq!(count(&tokens, &Token::Indent), count(&tokens, &Token::Dedent));
        assert_eq!(tokens.last(), Some(&Token::Eof));
    }
}

#[test]
fn no_dedent_comes_before_its_indent() {
    let sources = [
        "a\n  b\n    c\n  d\ne",
        "a\n\tb\n\t\tc\n d\n",
        "\n\n   a\n b\n      c\n\n",
        "a\n        b\n    c\n  d\n      e",
        "  a\nb\n  c\n\n\n    d",
    ];
    for source in sources {
        let tokens = tokens_of(source);
        for length in 0..=tokens.len() {
            let start = &tokens[..length];
            assert!(count(start, &Token::Dedent) <= count(start, &Token::Indent));
        }
    }
}

#[test]
fn the_dedents_of_open_blocks_stand_before_the_end() {
    let tokens = tokens_of("a\n b\n  c\n   d e");
    let length = tokens.len();
    assert_eq!(
        tokens[length - 5..],
        [identifier("e"), Token::Dedent, Token::Dedent, Token::Dedent, Token::Eof]
    );
}

#[test]
fn a_three_word_relation_is_never_followed_by_or_and_equal() {
    let sources = [
        "a is greater than or equal b",
        "a is greater than   or \t equal b",
        "a is less than or    equal b",
        "a is greater than or\u{a0}equal b",
        "is greater than or equal or equal",
        "is less than is greater than or equal",
        "a is greater than or equals b",
        "a is greater than or\nequal b",
        "a is less than or \"x\" equal",
        "or equal is greater than or equal",
    ];
    for source in sources {
        let tokens = tokens_of(source);
        for window in tokens.windows(3) {
            let relation = window[0] == Token::IsGreaterThan || window[0] == Token::IsLessThan;
            assert!(
                !(relation && window[1] == identifier("or") && window[2] == identifier("equal"))
            );
        }
    }
    assert_eq!(
        tokens_of("a is greater than   or \t equal b"),
        vec![identifier("a"), Token::IsGreaterThanOrEqual, identifier("b"), Token::Eof]
    );
    assert_eq!(
        tokens_of("a is greater than or\nequal b"),
        vec![
            identifier("a"),
            Token::IsGreaterThan,
            identifier("or"),
            Token::Newline,
            identifier("equal"),
            identifier("b"),
            Token::Eof,
        ]
    );
}

#[test]
fn tokenizing_again_gives_the_end_only() {
    let mut lexer = Lexer::new("a\n  b");
    assert_eq!(lexer.tokenize().unwrap().len(), 6);
    assert_eq!(lexer.tokenize(), Ok(vec![Token::Eof]));
}

#[test]
fn peek_gives_the_character_behind_the_cursor() {
    assert_eq!(Lexer::new("ab").peek(), Some('b'));
    assert_eq!(Lexer::new("a").peek(), None);
    assert_eq!(Lexer::new("").peek(), None);
    let mut lexer = Lexer::new("ab");
    lexer.tokenize().unwrap();
    assert_eq!(lexer.peek(), None);
}
