//! What holds of the lexer, the parser and the evaluator on every input.
use vstd::prelude::*;
use crate::ast::{Program, StatementSpec};
use crate::evaluator::{Action, Evaluator};
use crate::grammar::{
    after_newlines, block_at, lemma_after_newlines, lemma_block_advances,
    lemma_when_head_advances, otherwise_at, program_of, statement_at, token_at, when_head_at,
    BlockKind,
};
use crate::lexer::{
    blanks_end, dedents, indentation_end, indentation_marks, indentation_width,
    lemma_phrase_end_bounds, lemma_text_from_ends_later, lemma_word_token_ends_later, number_end,
    operator_token, phrase_end, reindented, relation_end, relation_words, text_from, tokens_from,
    tokens_of, tokens_then, unindented, word_end, word_token_at, TokenSpec,
};
use crate::parser::{parsed_view, ParseError};
use crate::semantics::{
    interpret, interpret_block, interpret_statement, Bindings, Event, Numerics, RuntimeError,
};
use crate::text::{
    is_digit, is_letter, is_word_char, lemma_run_end, lemma_run_end_from_inside, run_end,
    CharClass,
};

verus! {

/// How often `token` occurs in `tokens`.
pub open spec fn occurrences(tokens: Seq<TokenSpec>, token: TokenSpec) -> nat
    decreases tokens.len(),
{
    if tokens.len() == 0 {
        0
    } else {
        occurrences(tokens.drop_last(), token) + if tokens.last() == token {
            1nat
        } else {
            0nat
        }
    }
}

/// A token occurs in two sequences joined as often as in both together.
pub proof fn lemma_occurrences_add(first: Seq<TokenSpec>, second: Seq<TokenSpec>, token: TokenSpec)
    ensures
        occurrences(first + second, token) == occurrences(first, token) + occurrences(
            second,
            token,
        ),
    decreases second.len(),
{
    if second.len() == 0 {
        assert(first + second =~= first);
    } else {
        assert((first + second).drop_last() =~= first + second.drop_last());
        lemma_occurrences_add(first, second.drop_last(), token);
    }
}

/// In `count` tokens `Dedent`, `Dedent` occurs `count` times and `Indent`
/// never.
pub proof fn lemma_occurrences_in_dedents(count: nat)
    ensures
        occurrences(dedents(count), TokenSpec::Dedent) == count,
        occurrences(dedents(count), TokenSpec::Indent) == 0,
    decreases count,
{
    if count > 0 {
        assert(dedents(count).drop_last() =~= dedents((count - 1) as nat));
        lemma_occurrences_in_dedents((count - 1) as nat);
    }
}

/// Leaving blocks leaves the base of the stack in place.
pub proof fn lemma_unindented_bounds(stack: Seq<nat>, width: nat)
    requires
        stack.len() >= 1,
    ensures
        1 <= unindented(stack, width).len() <= stack.len(),
    decreases stack.len(),
{
    if stack.len() > 1 && stack.last() > width {
        lemma_unindented_bounds(stack.drop_last(), width);
    }
}

/// In a single token, a token occurs once if it is that one, and else never.
pub proof fn lemma_occurrences_in_one(single: TokenSpec, token: TokenSpec)
    ensures
        occurrences(seq![single], token) == if single == token {
            1nat
        } else {
            0nat
        },
{
    assert(seq![single].drop_last() =~= Seq::<TokenSpec>::empty());
    assert(occurrences(Seq::<TokenSpec>::empty(), token) == 0);
}

/// In one token that is neither `Indent` nor `Dedent`, followed by `rest`,
/// the two occur as often as in `rest`.
proof fn lemma_occurrences_behind(token: TokenSpec, rest: Seq<TokenSpec>)
    requires
        !(token is Indent),
        !(token is Dedent),
    ensures
        occurrences(seq![token] + rest, TokenSpec::Indent) == occurrences(rest, TokenSpec::Indent),
        occurrences(seq![token] + rest, TokenSpec::Dedent) == occurrences(rest, TokenSpec::Dedent),
{
    lemma_occurrences_add(seq![token], rest, TokenSpec::Indent);
    lemma_occurrences_add(seq![token], rest, TokenSpec::Dedent);
    lemma_occurrences_in_one(token, TokenSpec::Indent);
    lemma_occurrences_in_one(token, TokenSpec::Dedent);
}

/// From any point of a text on, with `stack.len() - 1` blocks open, the
/// tokens hold as many `Dedent` as `Indent` and one more for every open
/// block.
pub proof fn lemma_dedents_close_blocks(input: Seq<char>, from: int, stack: Seq<nat>)
    requires
        stack.len() >= 1,
        tokens_from(input, from, stack) is Ok,
    ensures
        occurrences(tokens_from(input, from, stack)->Ok_0, TokenSpec::Dedent) == occurrences(
            tokens_from(input, from, stack)->Ok_0,
            TokenSpec::Indent,
        ) + stack.len() - 1,
    decreases input.len() - from,
{
    let tokens = tokens_from(input, from, stack)->Ok_0;
    if !(0 <= from < input.len()) {
        let closing = dedents((stack.len() - 1) as nat);
        lemma_occurrences_in_dedents((stack.len() - 1) as nat);
        lemma_occurrences_add(closing, seq![TokenSpec::Eof], TokenSpec::Dedent);
        lemma_occurrences_add(closing, seq![TokenSpec::Eof], TokenSpec::Indent);
        lemma_occurrences_in_one(TokenSpec::Eof, TokenSpec::Indent);
        lemma_occurrences_in_one(TokenSpec::Eof, TokenSpec::Dedent);
    } else {
        let ch = input[from];
        if ch == ' ' || ch == '\t' {
            lemma_run_end(input, from + 1, CharClass::Blank);
            lemma_dedents_close_blocks(input, blanks_end(input, from), stack);
        } else if ch == '\n' {
            lemma_run_end(input, from + 1, CharClass::Indentation);
            let end = indentation_end(input, from + 1);
            let width = indentation_width(input, from + 1, end);
            let marks = indentation_marks(stack, width);
            let after = reindented(stack, width);
            lemma_unindented_bounds(stack, width);
            lemma_dedents_close_blocks(input, end, after);
            let rest = tokens_from(input, end, after)->Ok_0;
            assert(tokens == (seq![TokenSpec::Newline] + marks) + rest);
            assert((seq![TokenSpec::Newline] + marks) + rest =~= seq![TokenSpec::Newline] + (marks
                + rest));
            lemma_occurrences_behind(TokenSpec::Newline, marks + rest);
            lemma_occurrences_add(marks, rest, TokenSpec::Indent);
            lemma_occurrences_add(marks, rest, TokenSpec::Dedent);
            if width > stack.last() {
                lemma_occurrences_in_one(TokenSpec::Indent, TokenSpec::Indent);
                lemma_occurrences_in_one(TokenSpec::Indent, TokenSpec::Dedent);
                assert(after =~= stack.push(width));
            } else {
                lemma_occurrences_in_dedents((stack.len() - after.len()) as nat);
            }
        } else if ch == '"' {
            let (text, end) = text_from(input, from + 1)->Ok_0;
            lemma_text_from_ends_later(input, from + 1);
            lemma_dedents_close_blocks(input, end, stack);
            lemma_occurrences_behind(TokenSpec::String(text), tokens_from(input, end, stack)->Ok_0);
        } else if is_digit(ch) {
            lemma_run_end(input, from + 1, CharClass::Number);
            let end = number_end(input, from);
            lemma_dedents_close_blocks(input, end, stack);
            lemma_occurrences_behind(
                TokenSpec::Number(input.subrange(from, end)),
                tokens_from(input, end, stack)->Ok_0,
            );
        } else if is_letter(ch) || ch == '_' {
            lemma_word_token_ends_later(input, from);
            let (token, end) = word_token_at(input, from);
            lemma_dedents_close_blocks(input, end, stack);
            lemma_occurrences_behind(token, tokens_from(input, end, stack)->Ok_0);
        } else {
            lemma_dedents_close_blocks(input, from + 1, stack);
            lemma_occurrences_behind(
                operator_token(ch)->0,
                tokens_from(input, from + 1, stack)->Ok_0,
            );
        }
    }
}

/// The tokens of a text hold as many `Indent` as `Dedent`: every block that
/// is opened is closed, at the latest at the end of the text.
pub proof fn lemma_indents_match_dedents(input: Seq<char>)
    requires
        tokens_of(input) is Ok,
    ensures
        occurrences(tokens_of(input)->Ok_0, TokenSpec::Indent) == occurrences(
            tokens_of(input)->Ok_0,
            TokenSpec::Dedent,
        ),
{
    lemma_dedents_close_blocks(input, 0, seq![0nat]);
}

/// A token occurs in the start of a sequence at most as often as in the
/// whole.
pub proof fn lemma_occurrences_in_a_start(tokens: Seq<TokenSpec>, length: int, token: TokenSpec)
    requires
        0 <= length <= tokens.len(),
    ensures
        occurrences(tokens.take(length), token) <= occurrences(tokens, token),
    decreases tokens.len(),
{
    if length == tokens.len() {
        assert(tokens.take(length) =~= tokens);
    } else {
        assert(tokens.take(length) =~= tokens.drop_last().take(length));
        lemma_occurrences_in_a_start(tokens.drop_last(), length, token);
    }
}

/// No start of the tokens holds more `Dedent` than `Indent` and `open`
/// together: no block is closed that was not opened before, or open at the
/// outset.
pub open spec fn closes_only_open_blocks(tokens: Seq<TokenSpec>, open: int) -> bool {
    forall|length: int|
        0 <= length <= tokens.len() ==> occurrences(
            #[trigger] tokens.take(length),
            TokenSpec::Dedent,
        ) <= occurrences(tokens.take(length), TokenSpec::Indent) + open
}

/// Tokens that close at most `open` blocks, followed by tokens that close
/// only blocks which are open behind the first ones, close only open blocks.
proof fn lemma_closes_only_open_blocks_join(
    first: Seq<TokenSpec>,
    rest: Seq<TokenSpec>,
    open: int,
)
    requires
        occurrences(first, TokenSpec::Dedent) <= open,
        closes_only_open_blocks(
            rest,
            open + occurrences(first, TokenSpec::Indent) - occurrences(first, TokenSpec::Dedent),
        ),
    ensures
        closes_only_open_blocks(first + rest, open),
{
    let whole = first + rest;
    assert forall|length: int| 0 <= length <= whole.len() implies occurrences(
        #[trigger] whole.take(length),
        TokenSpec::Dedent,
    ) <= occurrences(whole.take(length), TokenSpec::Indent) + open by {
        if length <= first.len() {
            assert(whole.take(length) =~= first.take(length));
            lemma_occurrences_in_a_start(first, length, TokenSpec::Dedent);
        } else {
            let more = rest.take(length - first.len());
            assert(whole.take(length) =~= first + more);
            lemma_occurrences_add(first, more, TokenSpec::Dedent);
            lemma_occurrences_add(first, more, TokenSpec::Indent);
        }
    }
}

/// From any point of a text on, the tokens close only blocks that are open:
/// no start of them holds more `Dedent` than `Indent` and the
/// `stack.len() - 1` blocks that are open at that point together.
pub proof fn lemma_only_open_blocks_are_closed(input: Seq<char>, from: int, stack: Seq<nat>)
    requires
        stack.len() >= 1,
        tokens_from(input, from, stack) is Ok,
    ensures
        closes_only_open_blocks(tokens_from(input, from, stack)->Ok_0, stack.len() - 1),
    decreases input.len() - from,
{
    let open = stack.len() - 1;
    let indent = TokenSpec::Indent;
    let dedent = TokenSpec::Dedent;
    let nothing = Seq::<TokenSpec>::empty();
    assert(closes_only_open_blocks(nothing, 0)) by {
        assert forall|length: int| 0 <= length <= nothing.len() implies occurrences(
            #[trigger] nothing.take(length),
            dedent,
        ) <= occurrences(nothing.take(length), indent) by {
            assert(nothing.take(length) =~= nothing);
        }
    }
    if !(0 <= from < input.len()) {
        let closing = dedents(open as nat) + seq![TokenSpec::Eof];
        lemma_occurrences_in_dedents(open as nat);
        lemma_occurrences_add(dedents(open as nat), seq![TokenSpec::Eof], dedent);
        lemma_occurrences_add(dedents(open as nat), seq![TokenSpec::Eof], indent);
        lemma_occurrences_in_one(TokenSpec::Eof, dedent);
        lemma_occurrences_in_one(TokenSpec::Eof, indent);
        lemma_closes_only_open_blocks_join(closing, nothing, open);
        assert(closing + nothing =~= closing);
    } else {
        let ch = input[from];
        if ch == ' ' || ch == '\t' {
            lemma_run_end(input, from + 1, CharClass::Blank);
            lemma_only_open_blocks_are_closed(input, blanks_end(input, from), stack);
        } else if ch == '\n' {
            lemma_run_end(input, from + 1, CharClass::Indentation);
            let end = indentation_end(input, from + 1);
            let width = indentation_width(input, from + 1, end);
            let marks = indentation_marks(stack, width);
            let after = reindented(stack, width);
            let first = seq![TokenSpec::Newline] + marks;
            lemma_unindented_bounds(stack, width);
            lemma_only_open_blocks_are_closed(input, end, after);
            lemma_occurrences_add(seq![TokenSpec::Newline], marks, indent);
            lemma_occurrences_add(seq![TokenSpec::Newline], marks, dedent);
            lemma_occurrences_in_one(TokenSpec::Newline, indent);
            lemma_occurrences_in_one(TokenSpec::Newline, dedent);
            if width > stack.last() {
                lemma_occurrences_in_one(indent, indent);
                lemma_occurrences_in_one(indent, dedent);
                assert(after =~= stack.push(width));
            } else {
                lemma_occurrences_in_dedents((stack.len() - after.len()) as nat);
            }
            lemma_closes_only_open_blocks_join(
                first,
                tokens_from(input, end, after)->Ok_0,
                open,
            );
        } else {
            let (token, end) = if ch == '"' {
                lemma_text_from_ends_later(input, from + 1);
                (
                    TokenSpec::String(text_from(input, from + 1)->Ok_0.0),
                    text_from(input, from + 1)->Ok_0.1,
                )
            } else if is_digit(ch) {
                lemma_run_end(input, from + 1, CharClass::Number);
                (
                    TokenSpec::Number(input.subrange(from, number_end(input, from))),
                    number_end(input, from),
                )
            } else if is_letter(ch) || ch == '_' {
                lemma_word_token_ends_later(input, from);
                word_token_at(input, from)
            } else {
                (operator_token(ch)->0, from + 1)
            };
            lemma_only_open_blocks_are_closed(input, end, stack);
            lemma_occurrences_in_one(token, indent);
            lemma_occurrences_in_one(token, dedent);
            lemma_closes_only_open_blocks_join(
                seq![token],
                tokens_from(input, end, stack)->Ok_0,
                open,
            );
        }
    }
}

/// In the tokens of a text, no start holds more `Dedent` than `Indent`:
/// every `Dedent` closes a block that an `Indent` before it has opened.
pub proof fn lemma_dedents_follow_their_indents(input: Seq<char>)
    requires
        tokens_of(input) is Ok,
    ensures
        closes_only_open_blocks(tokens_of(input)->Ok_0, 0),
{
    lemma_only_open_blocks_are_closed(input, 0, seq![0nat]);
}

/// The tokens of a text end with `Eof`, and `Eof` stands nowhere else in
/// them.
pub proof fn lemma_eof_ends_the_tokens(input: Seq<char>, from: int, stack: Seq<nat>)
    requires
        tokens_from(input, from, stack) is Ok,
    ensures
        tokens_from(input, from, stack)->Ok_0.len() > 0,
        tokens_from(input, from, stack)->Ok_0.last() == TokenSpec::Eof,
        occurrences(tokens_from(input, from, stack)->Ok_0, TokenSpec::Eof) == 1,
    decreases input.len() - from,
{
    let eof = TokenSpec::Eof;
    if !(0 <= from < input.len()) {
        let closing = dedents((stack.len() - 1) as nat);
        lemma_occurrences_add(closing, seq![eof], eof);
        lemma_occurrences_in_one(eof, eof);
        lemma_no_occurrence(closing, eof);
    } else {
        let ch = input[from];
        if ch == ' ' || ch == '\t' {
            lemma_run_end(input, from + 1, CharClass::Blank);
            lemma_eof_ends_the_tokens(input, blanks_end(input, from), stack);
        } else if ch == '\n' {
            lemma_run_end(input, from + 1, CharClass::Indentation);
            let end = indentation_end(input, from + 1);
            let width = indentation_width(input, from + 1, end);
            let marks = seq![TokenSpec::Newline] + indentation_marks(stack, width);
            lemma_eof_ends_the_tokens(input, end, reindented(stack, width));
            let rest = tokens_from(input, end, reindented(stack, width))->Ok_0;
            lemma_occurrences_add(marks, rest, eof);
            lemma_no_occurrence(marks, eof);
        } else if ch == '"' {
            let (text, end) = text_from(input, from + 1)->Ok_0;
            lemma_text_from_ends_later(input, from + 1);
            lemma_eof_ends_the_tokens(input, end, stack);
            let token = TokenSpec::String(text);
            lemma_occurrences_add(seq![token], tokens_from(input, end, stack)->Ok_0, eof);
            lemma_occurrences_in_one(token, eof);
        } else if is_digit(ch) {
            lemma_run_end(input, from + 1, CharClass::Number);
            let end = number_end(input, from);
            let token = TokenSpec::Number(input.subrange(from, end));
            lemma_eof_ends_the_tokens(input, end, stack);
            lemma_occurrences_add(seq![token], tokens_from(input, end, stack)->Ok_0, eof);
            lemma_occurrences_in_one(token, eof);
        } else if is_letter(ch) || ch == '_' {
            lemma_word_token_ends_later(input, from);
            let (token, end) = word_token_at(input, from);
            lemma_eof_ends_the_tokens(input, end, stack);
            lemma_occurrences_add(seq![token], tokens_from(input, end, stack)->Ok_0, eof);
            lemma_occurrences_in_one(token, eof);
        } else {
            let token = operator_token(ch)->0;
            lemma_eof_ends_the_tokens(input, from + 1, stack);
            lemma_occurrences_add(seq![token], tokens_from(input, from + 1, stack)->Ok_0, eof);
            lemma_occurrences_in_one(token, eof);
        }
    }
}

/// A token that stands nowhere in a sequence occurs in it no times.
pub proof fn lemma_no_occurrence(tokens: Seq<TokenSpec>, token: TokenSpec)
    requires
        forall|i: int| 0 <= i < tokens.len() ==> tokens[i] != token,
    ensures
        occurrences(tokens, token) == 0,
    decreases tokens.len(),
{
    if tokens.len() > 0 {
        lemma_no_occurrence(tokens.drop_last(), token);
    }
}

/// Once a statement of a block has failed, nothing that stands behind it in
/// the block is run: statements added at the end of a block that fails
/// change nothing.
pub proof fn lemma_nothing_runs_after_a_failure(
    block: Seq<StatementSpec>,
    more: Seq<StatementSpec>,
    from: int,
    bindings: Bindings,
    numerics: Numerics,
)
    requires
        0 <= from,
        interpret_block(block, from, bindings, numerics).failure is Some,
    ensures
        interpret_block(block + more, from, bindings, numerics) == interpret_block(
            block,
            from,
            bindings,
            numerics,
        ),
    decreases block.len() - from,
{
    if from < block.len() {
        let first = interpret_statement(block[from], bindings, numerics);
        assert((block + more)[from] == block[from]);
        if first.failure is None {
            lemma_nothing_runs_after_a_failure(block, more, from + 1, first.bindings, numerics);
        }
    }
}

/// The words from `index` on, with one space between every two of them.
pub open spec fn spaced(words: Seq<Seq<char>>, index: int) -> Seq<char>
    decreases words.len() - index,
{
    if index < 0 || index >= words.len() {
        Seq::empty()
    } else if index + 1 == words.len() {
        words[index]
    } else {
        words[index] + seq![' '] + spaced(words, index + 1)
    }
}

/// A word that is not empty and made of ASCII letters.
pub open spec fn is_plain_word(word: Seq<char>) -> bool {
    word.len() > 0 && forall|i: int| 0 <= i < word.len() ==> is_letter(#[trigger] word[i])
}

/// `text` stands in `input` at `at`, and no character of which words are
/// made follows it.
pub open spec fn stands_alone_at(input: Seq<char>, at: int, text: Seq<char>) -> bool {
    &&& 0 <= at
    &&& at + text.len() <= input.len()
    &&& input.subrange(at, at + text.len()) == text
    &&& at + text.len() == input.len() || !is_word_char(input[at + text.len()])
}

/// Where the words from `index` on stand with single spaces between them,
/// the word read at that place is the first of them, and the phrase made of
/// the others is found behind it.
pub proof fn lemma_spaced_words_are_found(
    input: Seq<char>,
    start: int,
    words: Seq<Seq<char>>,
    index: int,
)
    requires
        0 <= index < words.len(),
        forall|k: int| 0 <= k < words.len() ==> is_plain_word(#[trigger] words[k]),
        stands_alone_at(input, start, spaced(words, index)),
    ensures
        word_end(input, start) == start + words[index].len(),
        input.subrange(start, word_end(input, start)) == words[index],
        phrase_end(input, word_end(input, start), words, index + 1) == Some(
            start + spaced(words, index).len(),
        ),
    decreases words.len() - index,
{
    let word = words[index];
    let text = spaced(words, index);
    let end = start + word.len();
    assert(is_plain_word(word));
    assert forall|i: int| start <= i < end implies CharClass::Word.holds(#[trigger] input[i]) by {
        assert(input[i] == input.subrange(start, start + text.len())[i - start]);
        assert(text[i - start] == word[i - start]);
        assert(is_letter(word[i - start]));
    }
    lemma_run_end_from_inside(input, start, end, CharClass::Word);
    if index + 1 == words.len() {
        assert(text == word);
        assert(run_end(input, end, CharClass::Word) == end);
        assert(input.subrange(start, end) =~= word);
    } else {
        let rest = spaced(words, index + 1);
        let next = words[index + 1];
        assert(is_plain_word(next));
        assert(text =~= word + seq![' '] + rest);
        assert(rest.len() >= next.len() > 0) by {
            if index + 2 == words.len() {
                assert(rest == next);
            } else {
                assert(rest == next + seq![' '] + spaced(words, index + 2));
            }
        }
        assert(input[end] == ' ') by {
            assert(input[end] == input.subrange(start, start + text.len())[end - start]);
        }
        assert(run_end(input, end, CharClass::Word) == end);
        assert(input.subrange(start, end) =~= word) by {
            assert forall|i: int| 0 <= i < word.len() implies input.subrange(start, end)[i]
                == word[i] by {
                assert(input[start + i] == input.subrange(start, start + text.len())[i]);
            }
        }
        assert(input[end + 1] == next[0]) by {
            assert(input[end + 1] == input.subrange(start, start + text.len())[end + 1 - start]);
            assert(rest[0] == next[0]);
        }
        assert(is_letter(next[0]));
        assert(blanks_end(input, end) == end + 1) by {
            assert(run_end(input, end + 1, CharClass::Blank) == end + 1);
        }
        assert(stands_alone_at(input, end + 1, rest)) by {
            assert(input.subrange(end + 1, end + 1 + rest.len()) =~= rest) by {
                assert forall|i: int| 0 <= i < rest.len() implies input.subrange(
                    end + 1,
                    end + 1 + rest.len(),
                )[i] == rest[i] by {
                    assert(input[end + 1 + i] == input.subrange(start, start + text.len())[end + 1
                        + i - start]);
                }
            }
        }
        lemma_spaced_words_are_found(input, end + 1, words, index + 1);
    }
}

/// Where the words of a phrase stand with single spaces between them, and
/// no character of which words are made follows, the phrase is found, and it
/// ends behind its last word.
pub proof fn lemma_spaced_phrase_is_found(input: Seq<char>, from: int, words: Seq<Seq<char>>)
    requires
        words.len() > 0,
        forall|k: int| 0 <= k < words.len() ==> is_plain_word(#[trigger] words[k]),
        stands_alone_at(input, from, spaced(words, 0)),
    ensures
        phrase_end(input, from, words, 0) == Some(from + spaced(words, 0).len()),
{
    lemma_spaced_words_are_found(input, from, words, 0);
}

/// Wherever `is greater than or equal` stands in a text and no character of
/// which words are made follows, the lexer reads the one token
/// `IsGreaterThanOrEqual` there, which ends behind `equal`: never
/// `IsGreaterThan` and the words `or` and `equal`.
pub proof fn lemma_longest_relation_is_one_token(input: Seq<char>, from: int)
    requires
        stands_alone_at(input, from, "is greater than or equal"@),
    ensures
        word_token_at(input, from) == (TokenSpec::IsGreaterThanOrEqual, from + 24),
        forall|stack: Seq<nat>| #[trigger]
            tokens_from(input, from, stack) == tokens_then(
                seq![TokenSpec::IsGreaterThanOrEqual],
                tokens_from(input, from + 24, stack),
            ),
{
    let words = relation_words(TokenSpec::IsGreaterThanOrEqual);
    reveal_strlit("is greater than or equal");
    reveal_strlit("is");
    reveal_strlit("greater");
    reveal_strlit("than");
    reveal_strlit("or");
    reveal_strlit("equal");
    assert forall|k: int| 0 <= k < words.len() implies is_plain_word(#[trigger] words[k]) by {
        if k == 0 {
            assert(words[k] == "is"@);
        } else if k == 1 {
            assert(words[k] == "greater"@);
        } else if k == 2 {
            assert(words[k] == "than"@);
        } else if k == 3 {
            assert(words[k] == "or"@);
        } else {
            assert(words[k] == "equal"@);
        }
    }
    assert(spaced(words, 4) == "equal"@);
    assert(spaced(words, 3) =~= "or"@ + seq![' '] + "equal"@);
    assert(spaced(words, 2) =~= "than"@ + seq![' '] + spaced(words, 3));
    assert(spaced(words, 1) =~= "greater"@ + seq![' '] + spaced(words, 2));
    assert(spaced(words, 0) =~= "is"@ + seq![' '] + spaced(words, 1));
    assert(spaced(words, 0) =~= "is greater than or equal"@);
    lemma_spaced_phrase_is_found(input, from, words);
    assert(input[from] == 'i') by {
        assert(input[from] == input.subrange(from, from + 24)[0]);
    }
}

/// At index `i` of the tokens stand `IsGreaterThan` or `IsLessThan` and,
/// directly behind it, the identifiers `or` and `equal`.
pub open spec fn is_split_relation(tokens: Seq<TokenSpec>, i: int) -> bool {
    &&& 0 <= i
    &&& i + 2 < tokens.len()
    &&& (tokens[i] is IsGreaterThan || tokens[i] is IsLessThan)
    &&& tokens[i + 1] == TokenSpec::Identifier("or"@)
    &&& tokens[i + 2] == TokenSpec::Identifier("equal"@)
}

/// A phrase that begins with the words of a shorter one is found where the
/// shorter one is found and its other words follow.
pub proof fn lemma_phrase_goes_on(
    input: Seq<char>,
    from: int,
    short: Seq<Seq<char>>,
    long: Seq<Seq<char>>,
    index: int,
)
    requires
        short.len() <= long.len(),
        forall|i: int| 0 <= i < short.len() ==> short[i] == long[i],
        0 <= index <= short.len(),
        phrase_end(input, from, short, index) is Some,
    ensures
        phrase_end(input, from, long, index) == phrase_end(
            input,
            phrase_end(input, from, short, index)->0,
            long,
            short.len() as int,
        ),
    decreases short.len() - index,
{
    if index < short.len() {
        let start = if index > 0 {
            blanks_end(input, from)
        } else {
            from
        };
        lemma_phrase_goes_on(input, word_end(input, start), short, long, index + 1);
    }
}

/// Where the first token read from `from` on is an identifier, and no space
/// or tab stands at `from`, a letter or an underscore stands there, the
/// identifier is the word that starts there, and the other tokens are those
/// read from the end of the word on.
proof fn lemma_identifier_is_the_word(
    input: Seq<char>,
    from: int,
    stack: Seq<nat>,
    word: Seq<char>,
)
    requires
        0 <= from <= input.len(),
        !(from < input.len() && (input[from] == ' ' || input[from] == '\t')),
        tokens_from(input, from, stack) is Ok,
        tokens_from(input, from, stack)->Ok_0.len() > 0,
        tokens_from(input, from, stack)->Ok_0[0] == TokenSpec::Identifier(word),
    ensures
        from < word_end(input, from) <= input.len(),
        is_letter(input[from]) || input[from] == '_',
        input.subrange(from, word_end(input, from)) == word,
        tokens_from(input, word_end(input, from), stack) is Ok,
        tokens_from(input, from, stack)->Ok_0 =~= seq![TokenSpec::Identifier(word)] + tokens_from(
            input,
            word_end(input, from),
            stack,
        )->Ok_0,
{
    let tokens = tokens_from(input, from, stack)->Ok_0;
    if !(from < input.len()) {
        let closing = dedents((stack.len() - 1) as nat);
        assert(tokens == closing + seq![TokenSpec::Eof]);
        if closing.len() > 0 {
            assert(tokens[0] == closing[0]);
        } else {
            assert(tokens[0] == TokenSpec::Eof);
        }
    } else {
        let ch = input[from];
        if ch == '\n' {
            let end = indentation_end(input, from + 1);
            let width = indentation_width(input, from + 1, end);
            let first = seq![TokenSpec::Newline] + indentation_marks(stack, width);
            assert(tokens[0] == first[0]);
        } else if ch == '"' {
        } else if is_digit(ch) {
        } else if is_letter(ch) || ch == '_' {
            lemma_word_token_ends_later(input, from);
            lemma_run_end(input, from + 1, CharClass::Word);
            let (token, end) = word_token_at(input, from);
            assert(tokens[0] == token);
        } else {
        }
    }
}

/// Where the first token read from `from` on is an identifier, it is the
/// word that starts behind the blanks at `from`, and the other tokens are
/// those read from the end of the word on.
proof fn lemma_identifier_follows_blanks(
    input: Seq<char>,
    from: int,
    stack: Seq<nat>,
    word: Seq<char>,
)
    requires
        0 <= from <= input.len(),
        tokens_from(input, from, stack) is Ok,
        tokens_from(input, from, stack)->Ok_0.len() > 0,
        tokens_from(input, from, stack)->Ok_0[0] == TokenSpec::Identifier(word),
    ensures
        ({
            let start = blanks_end(input, from);
            let end = word_end(input, start);
            &&& from <= start < end <= input.len()
            &&& input.subrange(start, end) == word
            &&& tokens_from(input, end, stack) is Ok
            &&& tokens_from(input, from, stack)->Ok_0 =~= seq![TokenSpec::Identifier(word)]
                + tokens_from(input, end, stack)->Ok_0
        }),
{
    lemma_run_end(input, from, CharClass::Blank);
    if from < input.len() && (input[from] == ' ' || input[from] == '\t') {
        lemma_run_end(input, from + 1, CharClass::Blank);
        lemma_identifier_is_the_word(input, blanks_end(input, from), stack, word);
    } else {
        lemma_identifier_is_the_word(input, from, stack, word);
    }
}

/// Where the words `or` and `equal` are the two tokens behind a phrase of
/// three words, the phrase of five words that ends with them stands where
/// the phrase of three stands.
proof fn lemma_or_equal_complete_the_phrase(
    input: Seq<char>,
    from: int,
    stack: Seq<nat>,
    short: TokenSpec,
    long: TokenSpec,
)
    requires
        0 <= from <= input.len(),
        short == TokenSpec::IsGreaterThan && long == TokenSpec::IsGreaterThanOrEqual || short
            == TokenSpec::IsLessThan && long == TokenSpec::IsLessThanOrEqual,
        relation_end(input, from, short) is Some,
        ({
            let rest = tokens_from(input, relation_end(input, from, short)->0, stack);
            &&& rest is Ok
            &&& rest->Ok_0.len() >= 2
            &&& rest->Ok_0[0] == TokenSpec::Identifier("or"@)
            &&& rest->Ok_0[1] == TokenSpec::Identifier("equal"@)
        }),
    ensures
        relation_end(input, from, long) is Some,
{
    let end = relation_end(input, from, short)->0;
    let words = relation_words(long);
    lemma_phrase_end_bounds(input, from, relation_words(short), 0);
    lemma_phrase_goes_on(input, from, relation_words(short), words, 0);
    lemma_identifier_follows_blanks(input, end, stack, "or"@);
    let or_end = word_end(input, blanks_end(input, end));
    let rest = tokens_from(input, end, stack)->Ok_0;
    let behind = tokens_from(input, or_end, stack)->Ok_0;
    assert(behind[0] == rest[1]);
    lemma_identifier_follows_blanks(input, or_end, stack, "equal"@);
    let equal_end = word_end(input, blanks_end(input, or_end));
    assert(words[3] == "or"@);
    assert(words[4] == "equal"@);
    assert(phrase_end(input, equal_end, words, 5) == Some(equal_end));
    assert(phrase_end(input, or_end, words, 4) == Some(equal_end));
    assert(phrase_end(input, end, words, 3) == Some(equal_end));
}

/// From any point of a text on, the tokens never hold `IsGreaterThan` or
/// `IsLessThan` with the identifiers `or` and `equal` directly behind it.
pub proof fn lemma_relations_are_not_split_from(input: Seq<char>, from: int, stack: Seq<nat>)
    requires
        0 <= from <= input.len(),
        tokens_from(input, from, stack) is Ok,
    ensures
        forall|i: int| !is_split_relation(tokens_from(input, from, stack)->Ok_0, i),
    decreases input.len() - from,
{
    let tokens = tokens_from(input, from, stack)->Ok_0;
    if !(from < input.len()) {
        let closing = dedents((stack.len() - 1) as nat);
        assert forall|i: int| !is_split_relation(tokens, i) by {
            if 0 <= i < tokens.len() {
                if i < closing.len() {
                    assert(tokens[i] == closing[i]);
                } else {
                    assert(tokens[i] == TokenSpec::Eof);
                }
            }
        }
    } else {
        let ch = input[from];
        if ch == ' ' || ch == '\t' {
            lemma_run_end(input, from + 1, CharClass::Blank);
            lemma_relations_are_not_split_from(input, blanks_end(input, from), stack);
        } else if ch == '\n' {
            lemma_run_end(input, from + 1, CharClass::Indentation);
            let end = indentation_end(input, from + 1);
            let width = indentation_width(input, from + 1, end);
            let marks = indentation_marks(stack, width);
            let first = seq![TokenSpec::Newline] + marks;
            let rest = tokens_from(input, end, reindented(stack, width))->Ok_0;
            lemma_relations_are_not_split_from(input, end, reindented(stack, width));
            assert forall|i: int| !is_split_relation(tokens, i) by {
                if is_split_relation(tokens, i) {
                    if i < first.len() {
                        assert(tokens[i] == first[i]);
                        if i > 0 {
                            assert(first[i] == marks[i - 1]);
                        }
                    } else {
                        assert(is_split_relation(rest, i - first.len()));
                    }
                }
            }
        } else {
            let (token, end) = if ch == '"' {
                lemma_text_from_ends_later(input, from + 1);
                (
                    TokenSpec::String(text_from(input, from + 1)->Ok_0.0),
                    text_from(input, from + 1)->Ok_0.1,
                )
            } else if is_digit(ch) {
                lemma_run_end(input, from + 1, CharClass::Number);
                (
                    TokenSpec::Number(input.subrange(from, number_end(input, from))),
                    number_end(input, from),
                )
            } else if is_letter(ch) || ch == '_' {
                lemma_word_token_ends_later(input, from);
                word_token_at(input, from)
            } else {
                (operator_token(ch)->0, from + 1)
            };
            let rest = tokens_from(input, end, stack)->Ok_0;
            assert(tokens == seq![token] + rest);
            lemma_relations_are_not_split_from(input, end, stack);
            assert forall|i: int| !is_split_relation(tokens, i) by {
                if is_split_relation(tokens, i) {
                    if i == 0 {
                        assert(tokens[0] == token);
                        assert(tokens[1] == rest[0]);
                        assert(tokens[2] == rest[1]);
                        assert(is_letter(ch) || ch == '_');
                        if token is IsGreaterThan {
                            lemma_or_equal_complete_the_phrase(
                                input,
                                from,
                                stack,
                                TokenSpec::IsGreaterThan,
                                TokenSpec::IsGreaterThanOrEqual,
                            );
                        } else {
                            lemma_or_equal_complete_the_phrase(
                                input,
                                from,
                                stack,
                                TokenSpec::IsLessThan,
                                TokenSpec::IsLessThanOrEqual,
                            );
                        }
                    } else {
                        assert(is_split_relation(rest, i - 1));
                    }
                }
            }
        }
    }
}

/// The tokens of a text never hold `IsGreaterThan` or `IsLessThan` with the
/// identifiers `or` and `equal` directly behind it: where the five words of
/// the longer relation follow one another, however far apart on their line,
/// they are read as the one token of that relation.
pub proof fn lemma_relations_are_not_split(input: Seq<char>)
    requires
        tokens_of(input) is Ok,
    ensures
        forall|i: int| !is_split_relation(tokens_of(input)->Ok_0, i),
{
    lemma_relations_are_not_split_from(input, 0, seq![0nat]);
}

/// An `otherwise` that stands under a `when`, behind the `Dedent` that ends
/// its block, belongs to that `when`: the statement goes on behind the
/// `Dedent` and has a second block, whatever stands around it.
pub proof fn lemma_otherwise_goes_with_the_when_above_it(tokens: Seq<TokenSpec>, at: int)
    requires
        0 <= at,
        token_at(tokens, at) is When,
        when_head_at(tokens, at) is Ok,
        block_at(tokens, when_head_at(tokens, at)->Ok_0.1, BlockKind::Then) is Ok,
        ({
            let then_end = block_at(
                tokens,
                when_head_at(tokens, at)->Ok_0.1,
                BlockKind::Then,
            )->Ok_0.1;
            token_at(tokens, then_end) is Dedent && token_at(tokens, then_end + 1) is Otherwise
        }),
        statement_at(tokens, at) is Ok,
    ensures
        ({
            let then_end = block_at(
                tokens,
                when_head_at(tokens, at)->Ok_0.1,
                BlockKind::Then,
            )->Ok_0.1;
            let second = block_at(
                tokens,
                after_newlines(tokens, then_end + 2) + 1,
                BlockKind::Otherwise,
            );
            &&& otherwise_at(tokens, then_end) == Some(then_end + 1)
            &&& second is Ok
            &&& statement_at(tokens, at)->Ok_0.0 is When
            &&& statement_at(tokens, at)->Ok_0.0->otherwise_block == Some(second->Ok_0.0)
            &&& statement_at(tokens, at)->Ok_0.1 > then_end + 2
        }),
{
    let block_start = when_head_at(tokens, at)->Ok_0.1;
    let then_end = block_at(tokens, block_start, BlockKind::Then)->Ok_0.1;
    lemma_when_head_advances(tokens, at);
    lemma_block_advances(tokens, block_start, BlockKind::Then);
    lemma_after_newlines(tokens, then_end + 2);
    let start = after_newlines(tokens, then_end + 2) + 1;
    lemma_block_advances(tokens, start, BlockKind::Otherwise);
}

/// Parsing the same tokens twice gives the same tree twice, node for node
/// and character for character, or the same error twice.
pub proof fn lemma_parsing_is_repeatable(
    tokens: Seq<TokenSpec>,
    first: Result<Program, ParseError>,
    second: Result<Program, ParseError>,
)
    requires
        parsed_view(first) == program_of(tokens),
        parsed_view(second) == program_of(tokens),
    ensures
        parsed_view(first) == parsed_view(second),
        first is Ok <==> second is Ok,
        first is Ok ==> first->Ok_0@ == second->Ok_0@,
{
}

/// One step of a run: the machine before it, what the step returned, and
/// the machine after it.
pub struct Turn<'a> {
    pub before: Evaluator<'a>,
    pub action: Action,
    pub after: Evaluator<'a>,
}

/// What an action makes visible.
pub open spec fn shown_by(action: Action) -> Seq<Event> {
    match action {
        Action::Show(text) => seq![Event::Line(text@)],
        Action::Define(name) => seq![Event::Defined(name@)],
        _ => Seq::empty(),
    }
}

/// What the steps of a run make visible, in order.
pub open spec fn shown_in(turns: Seq<Turn>) -> Seq<Event>
    decreases turns.len(),
{
    if turns.len() == 0 {
        Seq::empty()
    } else {
        shown_in(turns.drop_last()) + shown_by(turns.last().action)
    }
}

/// The steps are those of one run on a host whose arithmetic is `numerics`:
/// each is a step of the machine, and between two steps the machine is left
/// alone or given an answer that agrees with `numerics`, so that the rest of
/// its run stays what it was.
pub open spec fn is_run(turns: Seq<Turn>, numerics: Numerics) -> bool {
    &&& forall|i: int|
        0 <= i < turns.len() ==> (#[trigger] turns[i]).before.yields(turns[i].action, turns[i].after)
    &&& forall|i: int|
        0 < i < turns.len() ==> (#[trigger] turns[i]).before.remaining(numerics) == turns[i
            - 1].after.remaining(numerics)
}

/// What a step makes visible, followed by what is still to come behind it,
/// is what was to come before it; and the run will end as it was going to
/// end before the step.
pub proof fn lemma_step_follows_the_meaning(
    before: Evaluator,
    action: Action,
    after: Evaluator,
    numerics: Numerics,
)
    requires
        before.yields(action, after),
    ensures
        before.remaining(numerics).events == shown_by(action) + after.remaining(numerics).events,
        before.remaining(numerics).failure == after.remaining(numerics).failure,
        before.remaining(numerics).bindings == after.remaining(numerics).bindings,
{
    let rest = after.remaining(numerics);
    assert(before.remaining(numerics).events =~= shown_by(action) + rest.events);
}

/// A run without its last step is a run.
proof fn lemma_run_without_its_last_step(turns: Seq<Turn>, numerics: Numerics)
    requires
        is_run(turns, numerics),
        turns.len() > 0,
    ensures
        is_run(turns.drop_last(), numerics),
{
    let earlier = turns.drop_last();
    assert forall|i: int| 0 <= i < earlier.len() implies (#[trigger] earlier[i]).before.yields(
        earlier[i].action,
        earlier[i].after,
    ) by {
        assert(earlier[i] == turns[i]);
    }
    assert forall|i: int| 0 < i < earlier.len() implies (#[trigger] earlier[i]).before.remaining(
        numerics,
    ) == earlier[i - 1].after.remaining(numerics) by {
        assert(earlier[i] == turns[i]);
        assert(earlier[i - 1] == turns[i - 1]);
    }
}

/// What a run has made visible so far, followed by what is still to come, is
/// what was to come when the run began; and the run will end as it was going
/// to end then.
pub proof fn lemma_run_follows_the_meaning(turns: Seq<Turn>, numerics: Numerics)
    requires
        turns.len() > 0,
        is_run(turns, numerics),
    ensures
        turns[0].before.remaining(numerics).events == shown_in(turns)
            + turns.last().after.remaining(numerics).events,
        turns[0].before.remaining(numerics).failure == turns.last().after.remaining(
            numerics,
        ).failure,
        turns[0].before.remaining(numerics).bindings == turns.last().after.remaining(
            numerics,
        ).bindings,
    decreases turns.len(),
{
    let last = turns.last();
    let earlier = turns.drop_last();
    let after = last.after.remaining(numerics);
    assert(last == turns[turns.len() - 1]);
    lemma_step_follows_the_meaning(last.before, last.action, last.after, numerics);
    if earlier.len() == 0 {
        assert(shown_in(earlier) =~= Seq::<Event>::empty());
        assert(shown_in(turns) =~= shown_by(last.action));
    } else {
        lemma_run_without_its_last_step(turns, numerics);
        lemma_run_follows_the_meaning(earlier, numerics);
        assert(earlier.last() == turns[turns.len() - 2]);
        assert(earlier[0] == turns[0]);
        assert(shown_in(earlier) + (shown_by(last.action) + after.events) =~= shown_in(turns)
            + after.events);
    }
}

/// A run of a program that has come to its end has made visible exactly
/// what the program means, in that order, and has failed exactly if the
/// program fails, with that error.
pub proof fn lemma_finished_run_is_the_meaning(
    program: Seq<StatementSpec>,
    turns: Seq<Turn>,
    numerics: Numerics,
)
    requires
        turns.len() > 0,
        is_run(turns, numerics),
        turns[0].before.remaining(numerics) == interpret(program, numerics),
        turns.last().action is Finished || turns.last().action is Failed,
    ensures
        interpret(program, numerics).events == shown_in(turns),
        interpret(program, numerics).failure == match turns.last().action {
            Action::Failed(error) => Some(error),
            _ => None::<RuntimeError>,
        },
{
    lemma_run_follows_the_meaning(turns, numerics);
    let last = turns.last();
    assert(last.before.yields(last.action, last.after));
    let after = last.after.remaining(numerics);
    assert(after.events =~= Seq::<Event>::empty() && after.failure == match last.action {
        Action::Failed(error) => Some(error),
        _ => None::<RuntimeError>,
    }) by {
        assert(last.after.remaining(numerics) == after);
    }
    assert(shown_in(turns) + after.events =~= shown_in(turns));
}

} // verus!
