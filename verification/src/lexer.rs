//! The lexer: cuts source text into lexemes, longest match first, and loses nothing.

use vstd::prelude::*;
use vstd::string::StrSliceExecFns;
use crate::parser::lexemes_view;
use crate::syntax::Kind;

verus! {

/// The classes of characters that a lexeme of more than one character is made of.
#[derive(Debug, Clone, Copy, PartialEq, Eq, Structural)]
pub enum Class {
    /// Blanks, tabs and line ends.
    Space,
    /// The digits `0` to `9`.
    Digit,
    /// The letters `a` to `z` and `A` to `Z`, and the digits.
    Word,
}

impl Class {
    pub open spec fn holds(self, c: char) -> bool {
        match self {
            Class::Space => c == ' ' || c == '\t' || c == '\n' || c == '\r',
            Class::Digit => '0' <= c <= '9',
            Class::Word => 'a' <= c <= 'z' || 'A' <= c <= 'Z' || '0' <= c <= '9',
        }
    }

    pub fn has(self, c: char) -> (holds: bool)
        ensures
            holds == self.holds(c),
    {
        match self {
            Class::Space => c == ' ' || c == '\t' || c == '\n' || c == '\r',
            Class::Digit => '0' <= c && c <= '9',
            Class::Word => ('a' <= c && c <= 'z') || ('A' <= c && c <= 'Z') || ('0' <= c && c
                <= '9'),
        }
    }
}

/// How many characters of the class stand in a row at `from`.
pub open spec fn run_len(text: Seq<char>, from: nat, class: Class) -> nat
    decreases text.len() - from,
{
    if from < text.len() && class.holds(text[from as int]) {
        1 + run_len(text, from + 1, class)
    } else {
        0
    }
}

/// The kind of the lexeme that begins with the character `c`, and the class that the
/// lexeme goes on with, if it can be longer than that one character.
pub open spec fn begins(c: char) -> (Kind, Option<Class>) {
    if Class::Space.holds(c) {
        (Kind::Whitespace, Some(Class::Space))
    } else if Class::Digit.holds(c) {
        (Kind::Number, Some(Class::Digit))
    } else if Class::Word.holds(c) {
        (Kind::Ident, Some(Class::Word))
    } else if c == '+' {
        (Kind::Plus, None)
    } else if c == '-' {
        (Kind::Minus, None)
    } else if c == '*' {
        (Kind::Star, None)
    } else if c == '/' {
        (Kind::Slash, None)
    } else if c == '(' {
        (Kind::LParen, None)
    } else if c == ')' {
        (Kind::RParen, None)
    } else {
        (Kind::Error, None)
    }
}

/// The length of the lexeme that begins at `at`: as long as its class goes on, or one
/// character.
pub open spec fn lexeme_len(text: Seq<char>, at: nat) -> nat {
    match begins(text[at as int]).1 {
        Some(class) => 1 + run_len(text, at + 1, class),
        None => 1,
    }
}

/// The lexemes of the text from `at` on.
pub open spec fn lex_from(text: Seq<char>, at: nat) -> Seq<(Kind, Seq<char>)>
    decreases
        (if at <= text.len() {
            text.len() - at
        } else {
            0
        }),
{
    if at >= text.len() {
        Seq::empty()
    } else {
        let end = at + lexeme_len(text, at);
        seq![(begins(text[at as int]).0, text.subrange(at as int, end as int))] + lex_from(
            text,
            end,
        )
    }
}

/// The lexemes of a text.
pub open spec fn lexemes_of(text: Seq<char>) -> Seq<(Kind, Seq<char>)> {
    lex_from(text, 0)
}

/// A run of a class ends within the text.
pub proof fn lemma_run_len_bound(text: Seq<char>, from: nat, class: Class)
    requires
        from <= text.len(),
    ensures
        from + run_len(text, from, class) <= text.len(),
    decreases text.len() - from,
{
    if from < text.len() && class.holds(text[from as int]) {
        lemma_run_len_bound(text, from + 1, class);
    }
}

/// What begins with the character `c`.
pub fn classify(c: char) -> (begun: (Kind, Option<Class>))
    ensures
        begun == begins(c),
{
    if Class::Space.has(c) {
        (Kind::Whitespace, Some(Class::Space))
    } else if Class::Digit.has(c) {
        (Kind::Number, Some(Class::Digit))
    } else if Class::Word.has(c) {
        (Kind::Ident, Some(Class::Word))
    } else if c == '+' {
        (Kind::Plus, None)
    } else if c == '-' {
        (Kind::Minus, None)
    } else if c == '*' {
        (Kind::Star, None)
    } else if c == '/' {
        (Kind::Slash, None)
    } else if c == '(' {
        (Kind::LParen, None)
    } else if c == ')' {
        (Kind::RParen, None)
    } else {
        (Kind::Error, None)
    }
}

/// Cuts the input into its lexemes. Every character of the input ends up in exactly
/// one lexeme, blanks too.
pub fn lex<'input>(input: &'input str) -> (lexemes: Vec<(Kind, &'input str)>)
    ensures
        lexemes_view(lexemes@) == lexemes_of(input@),
{
    let len = input.unicode_len();
    let mut lexemes: Vec<(Kind, &'input str)> = Vec::new();
    let mut at: usize = 0;
    proof {
        assert(lexemes_view(lexemes@) =~= Seq::<(Kind, Seq<char>)>::empty());
    }
    while at < len
        invariant
            len == input@.len(),
            at <= len,
            lexemes_view(lexemes@) + lex_from(input@, at as nat) == lexemes_of(input@),
        decreases len - at,
    {
        let (kind, class) = classify(input.get_char(at));
        let mut end: usize = at + 1;
        match class {
            Some(class) => {
                while end < len && class.has(input.get_char(end))
                    invariant
                        len == input@.len(),
                        at < end <= len,
                        end + run_len(input@, end as nat, class) == at + 1 + run_len(
                            input@,
                            (at + 1) as nat,
                            class,
                        ),
                    decreases len - end,
                {
                    end += 1;
                }
            },
            None => {},
        }
        let text = input.substring_char(at, end);
        let ghost before = lexemes@;
        lexemes.push((kind, text));
        proof {
            assert(end == at + lexeme_len(input@, at as nat));
            assert(lexemes_view(lexemes@) =~= lexemes_view(before).push((kind, text@)));
            assert(lexemes_view(lexemes@) + lex_from(input@, end as nat) =~= lexemes_view(before)
                + lex_from(input@, at as nat));
        }
        at = end;
    }
    proof {
        assert(lexemes_view(lexemes@) + lex_from(input@, at as nat) =~= lexemes_view(lexemes@));
    }
    lexemes
}

} // verus!
