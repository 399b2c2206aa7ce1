use lang::syntax::{Kind, Lang};
use rowan::Language;

const KINDS: [Kind; 13] = [
    Kind::Whitespace,
    Kind::Ident,
    Kind::Number,
    Kind::Plus,
    Kind::Minus,
    Kind::Star,
    Kind::Slash,
    Kind::LParen,
    Kind::RParen,
    Kind::Error,
    Kind::Root,
    Kind::BinaryExpr,
    Kind::PrefixExpr,
];

#[test]
fn kinds_are_numbered_in_order() {
    for (number, kind) in KINDS.iter().enumerate() {
        assert_eq!(kind.to_raw(), number as u16);
    }
}

#[test]
fn raw_round_trip() {
    for kind in KINDS {
        assert_eq!(Kind::from_raw(kind.to_raw()), kind);
    }
}

#[test]
fn unknown_number_reads_as_error() {
    assert_eq!(Kind::from_raw(9), Kind::Error);
    assert_eq!(Kind::from_raw(13), Kind::Error);
    assert_eq!(Kind::from_raw(u16::MAX), Kind::Error);
}

#[test]
fn language_goes_through_raw_numbers() {
    assert_eq!(Lang::kind_to_raw(Kind::Root), rowan::SyntaxKind(10));
    assert_eq!(Lang::kind_from_raw(rowan::SyntaxKind(11)), Kind::BinaryExpr);
    assert_eq!(Lang::kind_from_raw(rowan::SyntaxKind(500)), Kind::Error);
}
