use expect_test::{Expect, Position};
use lang::parser::parse;

fn expect(data: &'static str) -> Expect {
    Expect { position: Position { file: "", line: 0, column: 0 }, data, indent: true }
}

fn check(input: &str, expected_tree: Expect) {
    let parse = parse(input);
    expected_tree.assert_eq(&parse.debug_tree());
}

#[test]
fn expr_parse_number() {
    check(
        "123",
        expect(
            r#"
Root@0..3
  Number@0..3 "123""#,
        ),
    );
}

#[test]
fn parse_binding_usage() {
    check(
        "counter",
        expect(
            r#"
Root@0..7
  Ident@0..7 "counter""#,
        ),
    );
}
