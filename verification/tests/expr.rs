use expect_test::{Expect, Position};
use lang::parser::parse;

fn expect(data: &'static str) -> Expect {
    Expect { position: Position { file: "", line: 0, column: 0 }, data, indent: true }
}

fn check(input: &str, expected_tree: Expect) {
    let parse = parse(input);
    expected_tree.assert_eq(&parse.debug_tree());
}

#[test]
fn parse_number() {
    check(
        "123",
        expect(
            r#"
Root@0..3
  Number@0..3 "123""#,
        ),
    );
}

#[test]
fn parse_variable_ref() {
    check(
        "counter",
        expect(
            r#"
Root@0..7
  Ident@0..7 "counter""#,
        ),
    );
}

#[test]
fn parse_nested_parentheses() {
    check(
        "((((((10))))))",
        expect(
            r#"
Root@0..14
  LParen@0..1 "("
  LParen@1..2 "("
  LParen@2..3 "("
  LParen@3..4 "("
  LParen@4..5 "("
  LParen@5..6 "("
  Number@6..8 "10"
  RParen@8..9 ")"
  RParen@9..10 ")"
  RParen@10..11 ")"
  RParen@11..12 ")"
  RParen@12..13 ")"
  RParen@13..14 ")""#,
        ),
    );
}

#[test]
fn parentheses_affect_precedence() {
    check(
        "5*(2+1)",
        expect(
            r#"
Root@0..7
  BinaryExpr@0..7
    Number@0..1 "5"
    Star@1..2 "*"
    LParen@2..3 "("
    BinaryExpr@3..6
      Number@3..4 "2"
      Plus@4..5 "+"
      Number@5..6 "1"
    RParen@6..7 ")""#,
        ),
    );
}
