use expect_test::{Expect, Position};
use lang::parser::parse;

fn expect(data: &'static str) -> Expect {
    Expect { position: Position { file: "", line: 0, column: 0 }, data, indent: true }
}

fn check(input: &str, expected_tree: Expect) {
    let parse = parse(input);
    expected_tree.assert_eq(&parse.debug_tree());
}

#[test]
fn parse_nothing() {
    check("", expect(r#"Root@0..0"#));
}

#[test]
fn parse_simple_binary_expression() {
    check(
        "1+2",
        expect(
            r#"
Root@0..3
  BinaryExpr@0..3
    Number@0..1 "1"
    Plus@1..2 "+"
    Number@2..3 "2""#,
        ),
    );
}

#[test]
fn parse_left_associative_binary_expression() {
    check(
        "1+2+3+4",
        expect(
            r#"
Root@0..7
  BinaryExpr@0..7
    BinaryExpr@0..5
      BinaryExpr@0..3
        Number@0..1 "1"
        Plus@1..2 "+"
        Number@2..3 "2"
      Plus@3..4 "+"
      Number@4..5 "3"
    Plus@5..6 "+"
    Number@6..7 "4""#,
        ),
    );
}

#[test]
fn parse_binary_expression_with_mixed_binding_power() {
    check(
        "1+2*3-4",
        expect(
            r#"
Root@0..7
  BinaryExpr@0..7
    BinaryExpr@0..5
      Number@0..1 "1"
      Plus@1..2 "+"
      BinaryExpr@2..5
        Number@2..3 "2"
        Star@3..4 "*"
        Number@4..5 "3"
    Minus@5..6 "-"
    Number@6..7 "4""#,
        ),
    );
}

#[test]
fn parse_negation() {
    check(
        "-10",
        expect(
            r#"
Root@0..3
  PrefixExpr@0..3
    Minus@0..1 "-"
    Number@1..3 "10""#,
        ),
    );
}

#[test]
fn negation_has_higher_binding_power_than_infix_operators() {
    check(
        "-20+20",
        expect(
            r#"
Root@0..6
  BinaryExpr@0..6
    PrefixExpr@0..3
      Minus@0..1 "-"
      Number@1..3 "20"
    Plus@3..4 "+"
    Number@4..6 "20""#,
        ),
    );
}
