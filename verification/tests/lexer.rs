use lang::lexer::{classify, lex, Class};
use lang::syntax::Kind;

fn texts(lexemes: &[(Kind, &str)]) -> String {
    let mut joined = String::new();
    for (_, text) in lexemes {
        joined.push_str(text);
    }
    joined
}

#[test]
fn lex_empty_input() {
    assert_eq!(lex(""), vec![]);
}

#[test]
fn lex_binary_expression() {
    assert_eq!(lex("1+2"), vec![(Kind::Number, "1"), (Kind::Plus, "+"), (Kind::Number, "2")]);
}

#[test]
fn lex_every_operator() {
    assert_eq!(
        lex("+-*/()"),
        vec![
            (Kind::Plus, "+"),
            (Kind::Minus, "-"),
            (Kind::Star, "*"),
            (Kind::Slash, "/"),
            (Kind::LParen, "("),
            (Kind::RParen, ")"),
        ]
    );
}

#[test]
fn lex_takes_the_longest_match() {
    assert_eq!(lex("1234"), vec![(Kind::Number, "1234")]);
    assert_eq!(lex("counter"), vec![(Kind::Ident, "counter")]);
    assert_eq!(lex(" \t\n\r "), vec![(Kind::Whitespace, " \t\n\r ")]);
}

#[test]
fn lex_identifier_may_hold_digits() {
    assert_eq!(lex("foo42"), vec![(Kind::Ident, "foo42")]);
}

#[test]
fn lex_number_ends_at_a_letter() {
    assert_eq!(lex("12ab"), vec![(Kind::Number, "12"), (Kind::Ident, "ab")]);
}

#[test]
fn lex_keeps_whitespace() {
    assert_eq!(
        lex("a  + 1"),
        vec![
            (Kind::Ident, "a"),
            (Kind::Whitespace, "  "),
            (Kind::Plus, "+"),
            (Kind::Whitespace, " "),
            (Kind::Number, "1"),
        ]
    );
}

#[test]
fn lex_unknown_characters_one_by_one() {
    assert_eq!(lex("$="), vec![(Kind::Error, "$"), (Kind::Error, "=")]);
}

#[test]
fn lex_character_of_several_bytes() {
    assert_eq!(
        lex("1é€2"),
        vec![(Kind::Number, "1"), (Kind::Error, "é"), (Kind::Error, "€"), (Kind::Number, "2")]
    );
}

#[test]
fn lex_loses_nothing() {
    for input in ["", "1+2", " ( a1 * -20 )\n/ x ", "$? é 12ab", "((((((10))))))"] {
        assert_eq!(texts(&lex(input)), input);
    }
}

#[test]
fn classify_first_characters() {
    assert_eq!(classify(' '), (Kind::Whitespace, Some(Class::Space)));
    assert_eq!(classify('7'), (Kind::Number, Some(Class::Digit)));
    assert_eq!(classify('Z'), (Kind::Ident, Some(Class::Word)));
    assert_eq!(classify('*'), (Kind::Star, None));
    assert_eq!(classify('_'), (Kind::Error, None));
}

#[test]
fn class_membership() {
    assert!(Class::Space.has('\t'));
    assert!(!Class::Space.has('a'));
    assert!(Class::Digit.has('0'));
    assert!(Class::Digit.has('9'));
    assert!(!Class::Digit.has('a'));
    assert!(Class::Word.has('a'));
    assert!(Class::Word.has('Q'));
    assert!(Class::Word.has('5'));
    assert!(!Class::Word.has('-'));
}
