//! Characters and strings: what the rest of the library needs of them.
use vstd::prelude::*;

verus! {

/// `String::push` appends one character to the end of the string.
pub assume_specification[ std::string::String::push ](s: &mut std::string::String, ch: char)
    ensures
        final(s)@ == old(s)@.push(ch),
;

/// Whether a character beyond ASCII is alphanumeric, as `char::is_alphanumeric`
/// has it.
pub uninterp spec fn unicode_alphanumeric(ch: char) -> bool;

/// Whether a character beyond ASCII is white space, as `char::is_whitespace`
/// has it.
pub uninterp spec fn unicode_whitespace(ch: char) -> bool;

/// `char::is_alphanumeric`: whether the character is a letter or a number in
/// the sense of Unicode. Nothing is claimed but that the answer depends on
/// the character alone.
#[verifier::external_body]
fn is_unicode_alphanumeric(ch: char) -> (answer: bool)
    ensures
        answer == unicode_alphanumeric(ch),
{
    ch.is_alphanumeric()
}

/// `char::is_whitespace`: whether Unicode counts the character as white
/// space. Nothing is claimed but that the answer depends on the character
/// alone.
#[verifier::external_body]
fn is_unicode_whitespace(ch: char) -> (answer: bool)
    ensures
        answer == unicode_whitespace(ch),
{
    ch.is_whitespace()
}

/// One of the digits `0` to `9`.
pub open spec fn is_digit(ch: char) -> bool {
    '0' <= ch <= '9'
}

/// One of the letters `a` to `z` and `A` to `Z`.
pub open spec fn is_letter(ch: char) -> bool {
    'a' <= ch <= 'z' || 'A' <= ch <= 'Z'
}

/// A character of which identifiers are made: an underscore, an ASCII letter
/// or digit, or a character beyond ASCII that Unicode counts as alphanumeric.
pub open spec fn is_word_char(ch: char) -> bool {
    ch == '_' || if ch <= '\u{7f}' {
        is_digit(ch) || is_letter(ch)
    } else {
        unicode_alphanumeric(ch)
    }
}

/// White space within a line: a space, a tab, a vertical tab, a form feed, a
/// carriage return, or white space beyond ASCII. A line feed is not blank.
pub open spec fn is_blank(ch: char) -> bool {
    if ch <= '\u{7f}' {
        ch == ' ' || ch == '\t' || ch == '\u{b}' || ch == '\u{c}' || ch == '\r'
    } else {
        unicode_whitespace(ch)
    }
}

/// A character of which numbers are made: a digit or a decimal point.
pub open spec fn is_number_char(ch: char) -> bool {
    is_digit(ch) || ch == '.'
}

/// Whether `ch` is one of the digits `0` to `9`.
pub fn digit(ch: char) -> (answer: bool)
    ensures
        answer == is_digit(ch),
{
    '0' <= ch && ch <= '9'
}

/// Whether `ch` is an ASCII letter.
pub fn letter(ch: char) -> (answer: bool)
    ensures
        answer == is_letter(ch),
{
    ('a' <= ch && ch <= 'z') || ('A' <= ch && ch <= 'Z')
}

/// Whether identifiers are made of `ch`.
pub fn word_char(ch: char) -> (answer: bool)
    ensures
        answer == is_word_char(ch),
{
    if ch == '_' {
        true
    } else if ch <= '\u{7f}' {
        digit(ch) || letter(ch)
    } else {
        is_unicode_alphanumeric(ch)
    }
}

/// Whether `ch` is white space within a line.
pub fn blank(ch: char) -> (answer: bool)
    ensures
        answer == is_blank(ch),
{
    if ch <= '\u{7f}' {
        ch == ' ' || ch == '\t' || ch == '\u{b}' || ch == '\u{c}' || ch == '\r'
    } else {
        is_unicode_whitespace(ch)
    }
}

/// The kinds of character of which the lexer reads runs.
#[derive(Debug, Clone, Copy, PartialEq, Eq, Structural)]
pub enum CharClass {
    /// White space within a line.
    Blank,
    /// What identifiers are made of.
    Word,
    /// What numbers are made of.
    Number,
    /// What indentation is made of: spaces and tabs.
    Indentation,
}

impl CharClass {
    /// Whether `ch` is of this class.
    pub open spec fn holds(self, ch: char) -> bool {
        match self {
            CharClass::Blank => is_blank(ch),
            CharClass::Word => is_word_char(ch),
            CharClass::Number => is_number_char(ch),
            CharClass::Indentation => ch == ' ' || ch == '\t',
        }
    }

    /// Whether `ch` is of this class.
    pub fn contains(self, ch: char) -> (answer: bool)
        ensures
            answer == self.holds(ch),
    {
        match self {
            CharClass::Blank => blank(ch),
            CharClass::Word => word_char(ch),
            CharClass::Number => digit(ch) || ch == '.',
            CharClass::Indentation => ch == ' ' || ch == '\t',
        }
    }
}

/// The index at which the run of characters of `class` that starts at `from`
/// ends: the first index from `from` on whose character is not of the class,
/// or the length of `input`.
pub open spec fn run_end(input: Seq<char>, from: int, class: CharClass) -> int
    decreases input.len() - from,
{
    if 0 <= from < input.len() && class.holds(input[from]) {
        run_end(input, from + 1, class)
    } else {
        from
    }
}

/// A run ends at or after its start, within the input, and holds characters
/// of its class only.
pub proof fn lemma_run_end(input: Seq<char>, from: int, class: CharClass)
    requires
        0 <= from <= input.len(),
    ensures
        from <= run_end(input, from, class) <= input.len(),
        forall|i: int| from <= i < run_end(input, from, class) ==> class.holds(#[trigger] input[i]),
        run_end(input, from, class) < input.len() ==> !class.holds(
            input[run_end(input, from, class)],
        ),
    decreases input.len() - from,
{
    if from < input.len() && class.holds(input[from]) {
        lemma_run_end(input, from + 1, class);
    }
}

/// The run that starts inside a run ends where that one ends.
pub proof fn lemma_run_end_from_inside(input: Seq<char>, from: int, inside: int, class: CharClass)
    requires
        0 <= from <= inside <= input.len(),
        forall|i: int| from <= i < inside ==> class.holds(#[trigger] input[i]),
    ensures
        run_end(input, from, class) == run_end(input, inside, class),
    decreases inside - from,
{
    if from < inside {
        lemma_run_end_from_inside(input, from + 1, inside, class);
    }
}

/// The characters of `text`, in order.
pub fn chars_of(text: &str) -> (chars: Vec<char>)
    ensures
        chars@ == text@,
{
    let mut chars: Vec<char> = Vec::new();
    for ch in iter: text.chars()
        invariant
            iter.seq() == text@,
            chars@ == text@.take(iter.index() as int),
    {
        chars.push(ch);
    }
    chars
}

/// The string made of `chars[from..to]`.
pub fn string_of(chars: &Vec<char>, from: usize, to: usize) -> (text: String)
    requires
        from <= to <= chars@.len(),
    ensures
        text@ == chars@.subrange(from as int, to as int),
{
    let mut text = String::new();
    let mut i: usize = from;
    while i < to
        invariant
            from <= i <= to <= chars@.len(),
            text@ == chars@.subrange(from as int, i as int),
        decreases to - i,
    {
        text.push(chars[i]);
        i = i + 1;
    }
    text
}

} // verus!
