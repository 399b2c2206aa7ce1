//! The kinds of tokens and nodes, and how the tree stores them.

use vstd::prelude::*;

verus! {

/// `rowan::SyntaxKind`: the number that a green tree keeps for each token and node.
#[verifier::external_type_specification]
pub struct ExRawKind(rowan::SyntaxKind);

/// The tag of a leaf token or of an inner node of the syntax tree.
#[derive(Debug, Clone, Copy, PartialEq, Eq, PartialOrd, Ord, Hash, Structural)]
pub enum Kind {
    Whitespace,
    Ident,
    Number,
    Plus,
    Minus,
    Star,
    Slash,
    LParen,
    RParen,
    Error,
    Root,
    BinaryExpr,
    PrefixExpr,
}

impl Kind {
    /// The number under which the tree stores this kind.
    pub open spec fn raw(self) -> u16 {
        match self {
            Kind::Whitespace => 0,
            Kind::Ident => 1,
            Kind::Number => 2,
            Kind::Plus => 3,
            Kind::Minus => 4,
            Kind::Star => 5,
            Kind::Slash => 6,
            Kind::LParen => 7,
            Kind::RParen => 8,
            Kind::Error => 9,
            Kind::Root => 10,
            Kind::BinaryExpr => 11,
            Kind::PrefixExpr => 12,
        }
    }

    /// The kind that a stored number stands for. A number that stands for no kind
    /// reads as `Error`.
    pub open spec fn of_raw(raw: u16) -> Kind {
        if raw == 0 {
            Kind::Whitespace
        } else if raw == 1 {
            Kind::Ident
        } else if raw == 2 {
            Kind::Number
        } else if raw == 3 {
            Kind::Plus
        } else if raw == 4 {
            Kind::Minus
        } else if raw == 5 {
            Kind::Star
        } else if raw == 6 {
            Kind::Slash
        } else if raw == 7 {
            Kind::LParen
        } else if raw == 8 {
            Kind::RParen
        } else if raw == 10 {
            Kind::Root
        } else if raw == 11 {
            Kind::BinaryExpr
        } else if raw == 12 {
            Kind::PrefixExpr
        } else {
            Kind::Error
        }
    }

    /// Whether this kind tags an inner node. Every other kind tags a leaf token.
    pub open spec fn is_node(self) -> bool {
        self == Kind::Root || self == Kind::BinaryExpr || self == Kind::PrefixExpr
    }

    /// Whether this kind tags a leaf token.
    pub open spec fn is_token(self) -> bool {
        !self.is_node()
    }

    /// Whether this kind is trivia, which the parser carries along without looking at it.
    pub open spec fn is_trivia(self) -> bool {
        self == Kind::Whitespace
    }

    pub fn to_raw(self) -> (raw: u16)
        ensures
            raw == self.raw(),
    {
        match self {
            Kind::Whitespace => 0,
            Kind::Ident => 1,
            Kind::Number => 2,
            Kind::Plus => 3,
            Kind::Minus => 4,
            Kind::Star => 5,
            Kind::Slash => 6,
            Kind::LParen => 7,
            Kind::RParen => 8,
            Kind::Error => 9,
            Kind::Root => 10,
            Kind::BinaryExpr => 11,
            Kind::PrefixExpr => 12,
        }
    }

    pub fn from_raw(raw: u16) -> (kind: Kind)
        ensures
            kind == Kind::of_raw(raw),
    {
        match raw {
            0 => Kind::Whitespace,
            1 => Kind::Ident,
            2 => Kind::Number,
            3 => Kind::Plus,
            4 => Kind::Minus,
            5 => Kind::Star,
            6 => Kind::Slash,
            7 => Kind::LParen,
            8 => Kind::RParen,
            10 => Kind::Root,
            11 => Kind::BinaryExpr,
            12 => Kind::PrefixExpr,
            _ => Kind::Error,
        }
    }
}

/// Reading back the number of a kind gives that kind, so no two kinds share a number.
pub proof fn lemma_raw_round_trip(kind: Kind)
    ensures
        Kind::of_raw(kind.raw()) == kind,
{
}

/// The language that the syntax tree is typed by: its kinds are `Kind`.
#[derive(Debug, Clone, Copy, PartialEq, Eq, PartialOrd, Ord, Hash)]
pub struct Lang;

impl rowan::Language for Lang {
    type Kind = Kind;

    fn kind_from_raw(raw: rowan::SyntaxKind) -> (kind: Kind)
        ensures
            kind == Kind::of_raw(raw.0),
    {
        Kind::from_raw(raw.0)
    }

    fn kind_to_raw(kind: Kind) -> (raw: rowan::SyntaxKind)
        ensures
            raw.0 == kind.raw(),
    {
        rowan::SyntaxKind(kind.to_raw())
    }
}

} // verus!
