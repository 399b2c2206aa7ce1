use lang::parser::parse;
use lang::syntax::Lang;
use rowan::{NodeOrToken, SyntaxNode};

fn text_of(input: &str) -> String {
    parse(input).green_node().to_string()
}

fn spans_nest(node: &SyntaxNode<Lang>) {
    let outer = node.text_range();
    let mut end_of_last = outer.start();
    for child in node.children_with_tokens() {
        let span = child.text_range();
        assert!(outer.start() <= span.start());
        assert!(span.end() <= outer.end());
        assert!(end_of_last <= span.start());
        assert!(span.start() <= span.end());
        end_of_last = span.end();
        if let NodeOrToken::Node(inner) = child {
            spans_nest(&inner);
        }
    }
}

#[test]
fn leaves_spell_the_input() {
    for input in [
        "",
        "123",
        "counter",
        "1+2+3+4",
        "1+2*3-4",
        "-20+20",
        "5*(2+1)",
        "((((((10))))))",
        " 1 + 2 ",
        "( a1 * - 20 )\n/ x\t",
        "   ",
        "-(-(-x))",
    ] {
        assert_eq!(text_of(input), input);
    }
}

#[test]
fn leaves_spell_what_was_consumed() {
    assert_eq!(text_of("1 2"), "1 ");
    assert_eq!(text_of("1)"), "1");
    assert_eq!(text_of(")"), "");
    assert_eq!(text_of("1 $ 2"), "1 ");
    assert_eq!(text_of("(1"), "(1");
    assert_eq!(text_of("1+"), "1+");
}

#[test]
fn spans_of_children_lie_in_order_within_their_node() {
    for input in ["", "1+2*3-4", " ( a1 * - 20 )\n/ x\t", "-20+20", "((((((10))))))", "1 + é"] {
        let parse = parse(input);
        spans_nest(&SyntaxNode::new_root(parse.green_node().clone()));
    }
}

#[test]
fn root_spans_the_consumed_text() {
    let parse = parse("12 * (3 + x)");
    let root: SyntaxNode<Lang> = SyntaxNode::new_root(parse.green_node().clone());
    assert_eq!(u32::from(root.text_range().start()), 0);
    assert_eq!(u32::from(root.text_range().end()), 12);
}

#[test]
fn whitespace_stays_where_it_stands() {
    assert_eq!(
        parse("1 + 2").debug_tree(),
        r#"Root@0..5
  BinaryExpr@0..5
    Number@0..1 "1"
    Whitespace@1..2 " "
    Plus@2..3 "+"
    Whitespace@3..4 " "
    Number@4..5 "2""#
    );
}

#[test]
fn whitespace_does_not_change_precedence() {
    assert_eq!(
        parse(" 1+ 2 *3 ").debug_tree(),
        r#"Root@0..9
  BinaryExpr@0..9
    Whitespace@0..1 " "
    Number@1..2 "1"
    Plus@2..3 "+"
    BinaryExpr@3..9
      Whitespace@3..4 " "
      Number@4..5 "2"
      Whitespace@5..6 " "
      Star@6..7 "*"
      Number@7..8 "3"
      Whitespace@8..9 " ""#
    );
}

#[test]
fn only_whitespace() {
    assert_eq!(
        parse(" \n").debug_tree(),
        r#"Root@0..2
  Whitespace@0..2 " \n""#
    );
}

#[test]
fn negation_binds_tighter_than_multiplication() {
    assert_eq!(
        parse("-a*b").debug_tree(),
        r#"Root@0..4
  BinaryExpr@0..4
    PrefixExpr@0..2
      Minus@0..1 "-"
      Ident@1..2 "a"
    Star@2..3 "*"
    Ident@3..4 "b""#
    );
}

#[test]
fn subtraction_and_division_associate_to_the_left() {
    assert_eq!(
        parse("8/4/2").debug_tree(),
        r#"Root@0..5
  BinaryExpr@0..5
    BinaryExpr@0..3
      Number@0..1 "8"
      Slash@1..2 "/"
      Number@2..3 "4"
    Slash@3..4 "/"
    Number@4..5 "2""#
    );
}

#[test]
fn unclosed_parenthesis_ends_with_its_expression() {
    assert_eq!(
        parse("(1+2").debug_tree(),
        r#"Root@0..4
  LParen@0..1 "("
  BinaryExpr@1..4
    Number@1..2 "1"
    Plus@2..3 "+"
    Number@3..4 "2""#
    );
}

#[test]
fn dangling_operator_has_no_right_side() {
    assert_eq!(
        parse("1+").debug_tree(),
        r#"Root@0..2
  BinaryExpr@0..2
    Number@0..1 "1"
    Plus@1..2 "+""#
    );
}

#[test]
fn what_follows_a_whole_expression_is_left_out() {
    assert_eq!(
        parse("1)").debug_tree(),
        r#"Root@0..1
  Number@0..1 "1""#
    );
}

#[test]
fn spans_count_bytes() {
    assert_eq!(
        parse("é").debug_tree(),
        "Root@0..0"
    );
    assert_eq!(
        parse("a +é").debug_tree(),
        r#"Root@0..3
  BinaryExpr@0..3
    Ident@0..1 "a"
    Whitespace@1..2 " "
    Plus@2..3 "+""#
    );
}

#[test]
fn cut_last_drops_one_character() {
    assert_eq!(lang::parser::cut_last("Root@0..0\n"), "Root@0..0");
    assert_eq!(lang::parser::cut_last("x"), "");
    assert_eq!(lang::parser::cut_last("aé"), "a");
}
