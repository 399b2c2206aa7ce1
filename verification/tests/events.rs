use lang::lexer::lex;
use lang::parser::event::Event;
use lang::parser::expr::{expr, expr_binding_power, InfixOp, PrefixOp};
use lang::parser::sink::{reconcile, Sink};
use lang::parser::{is_trivia, Parser};
use lang::syntax::Kind;

fn token(kind: Kind, text: &str) -> Event {
    Event::AddToken { kind, text: text.to_string() }
}

#[test]
fn binding_powers() {
    assert_eq!(InfixOp::Add.binding_power(), (1, 2));
    assert_eq!(InfixOp::Sub.binding_power(), (1, 2));
    assert_eq!(InfixOp::Mul.binding_power(), (3, 4));
    assert_eq!(InfixOp::Div.binding_power(), (3, 4));
    assert_eq!(PrefixOp::Neg.binding_power(), ((), 5));
}

#[test]
fn only_whitespace_is_trivia() {
    assert!(is_trivia(Kind::Whitespace));
    assert!(!is_trivia(Kind::Number));
    assert!(!is_trivia(Kind::Error));
    assert!(!is_trivia(Kind::Root));
}

#[test]
fn new_parser_has_recorded_nothing() {
    let lexemes = lex("1+2");
    let parser = Parser::new(&lexemes);
    assert_eq!(parser.checkpoint(), 0);
}

#[test]
fn peek_shows_the_next_kind_and_consumes_nothing_else() {
    let lexemes = lex("1+2");
    let mut parser = Parser::new(&lexemes);
    assert_eq!(parser.peek(), Some(Kind::Number));
    assert_eq!(parser.peek(), Some(Kind::Number));
    assert_eq!(parser.checkpoint(), 0);
}

#[test]
fn peek_records_trivia_on_the_way() {
    let lexemes = lex("  x");
    let mut parser = Parser::new(&lexemes);
    assert_eq!(parser.peek(), Some(Kind::Ident));
    assert_eq!(parser.checkpoint(), 1);
    parser.bump();
    assert_eq!(parser.peek(), None);
    assert_eq!(parser.checkpoint(), 2);
}

#[test]
fn peek_at_the_end() {
    let lexemes = lex("");
    let mut parser = Parser::new(&lexemes);
    assert_eq!(parser.peek(), None);
}

#[test]
fn primitives_append_their_events() {
    let lexemes = lex("7");
    let mut parser = Parser::new(&lexemes);
    parser.start_node(Kind::Root);
    let checkpoint = parser.checkpoint();
    parser.bump();
    parser.start_node_at(checkpoint, Kind::PrefixExpr);
    parser.finish_node();
    parser.finish_node();
    assert_eq!(checkpoint, 1);
    assert_eq!(parser.checkpoint(), 5);
}

#[test]
fn log_of_a_binary_expression() {
    let lexemes = lex("1+2");
    let events = Parser::new(&lexemes).parse();
    assert_eq!(
        events,
        vec![
            Event::StartNode { kind: Kind::Root },
            token(Kind::Number, "1"),
            token(Kind::Plus, "+"),
            Event::StartNodeAt { kind: Kind::BinaryExpr, checkpoint: 1 },
            token(Kind::Number, "2"),
            Event::FinishNode,
            Event::FinishNode,
        ]
    );
}

#[test]
fn log_of_a_left_nested_expression_reuses_the_checkpoint() {
    let lexemes = lex("1+2+3");
    let events = Parser::new(&lexemes).parse();
    assert_eq!(
        events,
        vec![
            Event::StartNode { kind: Kind::Root },
            token(Kind::Number, "1"),
            token(Kind::Plus, "+"),
            Event::StartNodeAt { kind: Kind::BinaryExpr, checkpoint: 1 },
            token(Kind::Number, "2"),
            Event::FinishNode,
            token(Kind::Plus, "+"),
            Event::StartNodeAt { kind: Kind::BinaryExpr, checkpoint: 1 },
            token(Kind::Number, "3"),
            Event::FinishNode,
            Event::FinishNode,
        ]
    );
}

#[test]
fn log_of_a_negation() {
    let lexemes = lex("-x");
    let events = Parser::new(&lexemes).parse();
    assert_eq!(
        events,
        vec![
            Event::StartNode { kind: Kind::Root },
            token(Kind::Minus, "-"),
            Event::StartNodeAt { kind: Kind::PrefixExpr, checkpoint: 1 },
            token(Kind::Ident, "x"),
            Event::FinishNode,
            Event::FinishNode,
        ]
    );
}

#[test]
fn expr_stops_before_a_closing_parenthesis() {
    let lexemes = lex("1)");
    let mut parser = Parser::new(&lexemes);
    expr(&mut parser);
    assert_eq!(parser.checkpoint(), 1);
    assert_eq!(parser.peek(), Some(Kind::RParen));
}

#[test]
fn expr_binding_power_leaves_a_weaker_operator() {
    let lexemes = lex("1*2+3");
    let mut parser = Parser::new(&lexemes);
    expr_binding_power(&mut parser, 3);
    assert_eq!(parser.peek(), Some(Kind::Plus));
    assert_eq!(parser.checkpoint(), 5);
}

#[test]
fn reconcile_moves_deferred_starts_to_their_checkpoints() {
    let events = vec![
        Event::StartNode { kind: Kind::Root },
        token(Kind::Number, "1"),
        token(Kind::Plus, "+"),
        Event::StartNodeAt { kind: Kind::BinaryExpr, checkpoint: 1 },
        token(Kind::Number, "2"),
        Event::FinishNode,
        token(Kind::Plus, "+"),
        Event::StartNodeAt { kind: Kind::BinaryExpr, checkpoint: 1 },
        token(Kind::Number, "3"),
        Event::FinishNode,
        Event::FinishNode,
    ];
    assert_eq!(
        reconcile(events),
        vec![
            Event::StartNode { kind: Kind::Root },
            Event::StartNode { kind: Kind::BinaryExpr },
            Event::StartNode { kind: Kind::BinaryExpr },
            token(Kind::Number, "1"),
            token(Kind::Plus, "+"),
            token(Kind::Number, "2"),
            Event::FinishNode,
            token(Kind::Plus, "+"),
            token(Kind::Number, "3"),
            Event::FinishNode,
            Event::FinishNode,
        ]
    );
}

#[test]
fn reconcile_keeps_a_log_without_deferred_starts() {
    let events = vec![
        Event::StartNode { kind: Kind::Root },
        token(Kind::Ident, "x"),
        Event::FinishNode,
    ];
    assert_eq!(reconcile(events.clone()), events);
    assert_eq!(reconcile(vec![]), vec![]);
}

#[test]
fn sink_builds_the_tree_of_a_log() {
    let lexemes = lex("-x");
    let events = vec![
        Event::StartNode { kind: Kind::Root },
        token(Kind::Minus, "-"),
        Event::StartNodeAt { kind: Kind::PrefixExpr, checkpoint: 1 },
        token(Kind::Ident, "x"),
        Event::FinishNode,
        Event::FinishNode,
    ];
    let node = Sink::new(&lexemes, events).finish();
    assert_eq!(node.kind(), rowan::SyntaxKind(10));
    assert_eq!(node.children().len(), 1);
    assert_eq!(node.to_string(), "-x");
    let child = node.children().next().unwrap();
    let prefix = child.into_node().unwrap();
    assert_eq!(prefix.kind(), rowan::SyntaxKind(12));
    assert_eq!(prefix.children().len(), 2);
    let kinds: Vec<rowan::SyntaxKind> = prefix.children().map(|child| child.kind()).collect();
    assert_eq!(kinds, vec![rowan::SyntaxKind(4), rowan::SyntaxKind(1)]);
}

#[test]
fn log_of_nothing() {
    let lexemes = lex("");
    let events = Parser::new(&lexemes).parse();
    assert_eq!(events, vec![Event::StartNode { kind: Kind::Root }, Event::FinishNode]);
}

#[test]
fn log_of_mixed_binding_power() {
    let lexemes = lex("1+2*3-4");
    let events = Parser::new(&lexemes).parse();
    assert_eq!(
        events,
        vec![
            Event::StartNode { kind: Kind::Root },
            token(Kind::Number, "1"),
            token(Kind::Plus, "+"),
            Event::StartNodeAt { kind: Kind::BinaryExpr, checkpoint: 1 },
            token(Kind::Number, "2"),
            token(Kind::Star, "*"),
            Event::StartNodeAt { kind: Kind::BinaryExpr, checkpoint: 4 },
            token(Kind::Number, "3"),
            Event::FinishNode,
            Event::FinishNode,
            token(Kind::Minus, "-"),
            Event::StartNodeAt { kind: Kind::BinaryExpr, checkpoint: 1 },
            token(Kind::Number, "4"),
            Event::FinishNode,
            Event::FinishNode,
        ]
    );
}

#[test]
fn log_of_a_negation_under_a_sum() {
    let lexemes = lex("-20+20");
    let events = Parser::new(&lexemes).parse();
    assert_eq!(
        events,
        vec![
            Event::StartNode { kind: Kind::Root },
            token(Kind::Minus, "-"),
            Event::StartNodeAt { kind: Kind::PrefixExpr, checkpoint: 1 },
            token(Kind::Number, "20"),
            Event::FinishNode,
            token(Kind::Plus, "+"),
            Event::StartNodeAt { kind: Kind::BinaryExpr, checkpoint: 1 },
            token(Kind::Number, "20"),
            Event::FinishNode,
            Event::FinishNode,
        ]
    );
}

#[test]
fn log_of_a_group() {
    let lexemes = lex("5*(2+1)");
    let events = Parser::new(&lexemes).parse();
    assert_eq!(
        events,
        vec![
            Event::StartNode { kind: Kind::Root },
            token(Kind::Number, "5"),
            token(Kind::Star, "*"),
            Event::StartNodeAt { kind: Kind::BinaryExpr, checkpoint: 1 },
            token(Kind::LParen, "("),
            token(Kind::Number, "2"),
            token(Kind::Plus, "+"),
            Event::StartNodeAt { kind: Kind::BinaryExpr, checkpoint: 5 },
            token(Kind::Number, "1"),
            Event::FinishNode,
            token(Kind::RParen, ")"),
            Event::FinishNode,
            Event::FinishNode,
        ]
    );
}

#[test]
fn log_with_trivia_holds_one_deferred_start() {
    let lexemes = lex("1 + 2");
    let events = Parser::new(&lexemes).parse();
    assert_eq!(
        events,
        vec![
            Event::StartNode { kind: Kind::Root },
            token(Kind::Number, "1"),
            token(Kind::Whitespace, " "),
            token(Kind::Plus, "+"),
            Event::StartNodeAt { kind: Kind::BinaryExpr, checkpoint: 1 },
            token(Kind::Whitespace, " "),
            token(Kind::Number, "2"),
            Event::FinishNode,
            Event::FinishNode,
        ]
    );
}

#[test]
fn parse_keeps_what_was_recorded_before() {
    let lexemes = lex("x");
    let mut parser = Parser::new(&lexemes);
    parser.start_node(Kind::Root);
    let events = parser.parse();
    assert_eq!(
        events,
        vec![
            Event::StartNode { kind: Kind::Root },
            Event::StartNode { kind: Kind::Root },
            token(Kind::Ident, "x"),
            Event::FinishNode,
        ]
    );
}
