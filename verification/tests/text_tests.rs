use delta_lang::text::{blank, chars_of, digit, letter, string_of, word_char, CharClass};

#[test]
fn chars_of_gives_the_characters_in_order() {
    assert_eq!(chars_of(""), Vec::<char>::new());
    assert_eq!(chars_of("abc"), vec!['a', 'b', 'c']);
    assert_eq!(chars_of("h\u{e9}\u{4e16}!"), vec!['h', '\u{e9}', '\u{4e16}', '!']);
}

#[test]
fn string_of_gives_the_part_asked_for() {
    let chars = vec!['h', '\u{e9}', 'l', 'l', 'o'];
    assert_eq!(string_of(&chars, 0, 5), "h\u{e9}llo");
    assert_eq!(string_of(&chars, 1, 3), "\u{e9}l");
    assert_eq!(string_of(&chars, 2, 2), "");
    assert_eq!(string_of(&chars, 5, 5), "");
    assert_eq!(string_of(&chars, 4, 5), "o");
}

#[test]
fn digits_are_zero_to_nine() {
    for ch in '\0'..='\u{ff}' {
        assert_eq!(digit(ch), ch.is_ascii_digit());
    }
    assert!(!digit('\u{663}'));
}

#[test]
fn letters_are_the_ascii_letters() {
    for ch in '\0'..='\u{ff}' {
        assert_eq!(letter(ch), ch.is_ascii_alphabetic());
    }
}

#[test]
fn word_characters_are_alphanumeric_or_underscores() {
    for ch in '\0'..='\u{2fff}' {
        assert_eq!(word_char(ch), ch == '_' || ch.is_alphanumeric());
    }
    assert!(word_char('\u{4e16}'));
    assert!(!word_char('\u{1f600}'));
}

#[test]
fn blanks_are_white_space_but_line_feeds() {
    for ch in '\0'..='\u{3fff}' {
        assert_eq!(blank(ch), ch.is_whitespace() && ch != '\n');
    }
    assert!(blank(' '));
    assert!(blank('\t'));
    assert!(blank('\r'));
    assert!(blank('\u{a0}'));
    assert!(blank('\u{3000}'));
    assert!(!blank('\n'));
    assert!(!blank('a'));
}

#[test]
fn classes_hold_their_characters() {
    assert!(CharClass::Blank.contains(' '));
    assert!(!CharClass::Blank.contains('\n'));
    assert!(CharClass::Word.contains('_'));
    assert!(CharClass::Word.contains('z'));
    assert!(CharClass::Word.contains('7'));
    assert!(!CharClass::Word.contains('.'));
    assert!(CharClass::Number.contains('7'));
    assert!(CharClass::Number.contains('.'));
    assert!(!CharClass::Number.contains('a'));
    assert!(!CharClass::Number.contains('-'));
    assert!(CharClass::Indentation.contains(' '));
    assert!(CharClass::Indentation.contains('\t'));
    assert!(!CharClass::Indentation.contains('\r'));
    assert!(!CharClass::Indentation.contains('\u{a0}'));
}
