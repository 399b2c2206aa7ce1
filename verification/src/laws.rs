//! What holds of every syntax tree that the parser makes.

use vstd::prelude::*;
use vstd::utf8::encode_utf8;
use crate::lexer::{begins, lemma_run_len_bound, lex_from, lexeme_len, lexemes_of};
use crate::parser::expr::{expr_bp, infix, leaf, leaves, left, primary, InfixOp};
use crate::parser::sink::lemma_forest_len_split;
use crate::parser::{consumed, syntax_tree, trivia_run};
use crate::syntax::Kind;
use crate::tree::{forest_len, forest_text, Element};

verus! {

/// The texts of `count` lexemes in a row, the first at `from`, joined.
pub open spec fn texts(lexemes: Seq<(Kind, Seq<char>)>, from: nat, count: nat) -> Seq<char>
    decreases count,
{
    if count == 0 {
        Seq::empty()
    } else {
        texts(lexemes, from, (count - 1) as nat) + lexemes[from + count - 1].1
    }
}

/// The text of all lexemes, joined.
pub open spec fn source(lexemes: Seq<(Kind, Seq<char>)>) -> Seq<char> {
    texts(lexemes, 0, lexemes.len())
}

/// Joined texts can be cut at any lexeme.
pub proof fn lemma_texts_split(lexemes: Seq<(Kind, Seq<char>)>, from: nat, a: nat, b: nat)
    ensures
        texts(lexemes, from, a + b) == texts(lexemes, from, a) + texts(lexemes, from + a, b),
    decreases b,
{
    if b == 0 {
        assert(texts(lexemes, from, a) + texts(lexemes, from + a, b) =~= texts(lexemes, from, a));
    } else {
        lemma_texts_split(lexemes, from, a, (b - 1) as nat);
        assert(texts(lexemes, from, a + b) =~= texts(lexemes, from, a) + texts(
            lexemes,
            from + a,
            b,
        ));
    }
}

/// The text of two runs of siblings, one after the other, is the two texts joined.
pub proof fn lemma_forest_text_concat(a: Seq<Element>, b: Seq<Element>)
    ensures
        forest_text(a + b) == forest_text(a) + forest_text(b),
    decreases b.len(),
{
    if b.len() == 0 {
        assert(a + b =~= a);
        assert(forest_text(a) + forest_text(b) =~= forest_text(a));
    } else {
        lemma_forest_text_concat(a, b.drop_last());
        assert((a + b).drop_last() =~= a + b.drop_last());
        assert((a + b).last() == b.last());
        assert(forest_text(a + b) =~= forest_text(a) + forest_text(b));
    }
}

/// The text of a run of one element is that element's text.
pub proof fn lemma_forest_text_one(element: Element)
    ensures
        forest_text(seq![element]) == element.text(),
{
    let one = seq![element];
    assert(one.drop_last().len() == 0);
    assert(forest_text(one.drop_last()) =~= Seq::<char>::empty());
    assert(one.last() == element);
    assert(forest_text(one) =~= element.text());
}

/// The text of leaves is the joined text of their lexemes.
pub proof fn lemma_leaves_text(lexemes: Seq<(Kind, Seq<char>)>, from: nat, count: nat)
    ensures
        forest_text(leaves(lexemes, from, count)) == texts(lexemes, from, count),
    decreases count,
{
    if count > 0 {
        lemma_leaves_text(lexemes, from, (count - 1) as nat);
        let all = leaves(lexemes, from, count);
        assert(all.drop_last() =~= leaves(lexemes, from, (count - 1) as nat));
        assert(all.last() == leaf(lexemes[from + count - 1]));
        assert(forest_text(all) == forest_text(all.drop_last()) + all.last().text());
    } else {
        assert(leaves(lexemes, from, count).len() == 0);
    }
}

/// A run of trivia ends within the lexemes.
pub proof fn lemma_trivia_run_bound(lexemes: Seq<(Kind, Seq<char>)>, cursor: nat)
    requires
        cursor <= lexemes.len(),
    ensures
        cursor + trivia_run(lexemes, cursor) <= lexemes.len(),
    decreases lexemes.len() - cursor,
{
    if cursor < lexemes.len() && lexemes[cursor as int].0.is_trivia() {
        lemma_trivia_run_bound(lexemes, cursor + 1);
    }
}

/// An operand is made of the lexemes it consumed, all of them, in order; and it
/// consumes no more than there are.
pub proof fn lemma_primary_text(lexemes: Seq<(Kind, Seq<char>)>, cursor: nat)
    requires
        cursor <= lexemes.len(),
    ensures
        cursor + primary(lexemes, cursor).used <= lexemes.len(),
        forest_text(primary(lexemes, cursor).forest) == texts(
            lexemes,
            cursor,
            primary(lexemes, cursor).used,
        ),
    decreases left(lexemes, cursor), 0int,
{
    let gap = trivia_run(lexemes, cursor);
    let at = cursor + gap;
    let lead = leaves(lexemes, cursor, gap);
    lemma_trivia_run_bound(lexemes, cursor);
    lemma_leaves_text(lexemes, cursor, gap);
    if at < lexemes.len() {
        let kind = lexemes[at as int].0;
        let token = leaf(lexemes[at as int]);
        let head = lead.push(token);
        assert(head =~= lead + seq![token]);
        lemma_forest_text_concat(lead, seq![token]);
        lemma_forest_text_one(token);
        lemma_texts_split(lexemes, cursor, gap, 1);
        assert(texts(lexemes, at, 1) =~= lexemes[at as int].1) by {
            assert(texts(lexemes, at, 0) =~= Seq::<char>::empty());
        }
        assert(forest_text(head) == texts(lexemes, cursor, gap + 1));
        if kind == Kind::Number || kind == Kind::Ident {
        } else if kind == Kind::Minus {
            let operand = expr_bp(lexemes, at + 1, 5);
            lemma_expr_text(lexemes, at + 1, 5);
            let node = Element::Node { kind: Kind::PrefixExpr, children: head + operand.forest };
            lemma_forest_text_one(node);
            lemma_forest_text_concat(head, operand.forest);
            lemma_texts_split(lexemes, cursor, gap + 1, operand.used);
        } else if kind == Kind::LParen {
            let inner = expr_bp(lexemes, at + 1, 0);
            lemma_expr_text(lexemes, at + 1, 0);
            let after = at + 1 + inner.used;
            let gap2 = trivia_run(lexemes, after);
            let close = after + gap2;
            let tail = leaves(lexemes, after, gap2);
            let body = head + inner.forest + tail;
            lemma_trivia_run_bound(lexemes, after);
            lemma_leaves_text(lexemes, after, gap2);
            lemma_forest_text_concat(head, inner.forest);
            lemma_forest_text_concat(head + inner.forest, tail);
            lemma_texts_split(lexemes, cursor, gap + 1, inner.used);
            lemma_texts_split(lexemes, cursor, gap + 1 + inner.used, gap2);
            assert(forest_text(body) == texts(lexemes, cursor, gap + 1 + inner.used + gap2));
            if close < lexemes.len() && lexemes[close as int].0 == Kind::RParen {
                let last = leaf(lexemes[close as int]);
                assert(body.push(last) =~= body + seq![last]);
                lemma_forest_text_concat(body, seq![last]);
                lemma_forest_text_one(last);
                lemma_texts_split(lexemes, cursor, gap + 1 + inner.used + gap2, 1);
                assert(texts(lexemes, close, 1) =~= lexemes[close as int].1) by {
                    assert(texts(lexemes, close, 0) =~= Seq::<char>::empty());
                }
            }
        }
    }
}

/// An expression is made of the lexemes it consumed, all of them, in order; and it
/// consumes no more than there are.
pub proof fn lemma_expr_text(lexemes: Seq<(Kind, Seq<char>)>, cursor: nat, min_bp: u8)
    requires
        cursor <= lexemes.len(),
    ensures
        cursor + expr_bp(lexemes, cursor, min_bp).used <= lexemes.len(),
        forest_text(expr_bp(lexemes, cursor, min_bp).forest) == texts(
            lexemes,
            cursor,
            expr_bp(lexemes, cursor, min_bp).used,
        ),
    decreases left(lexemes, cursor), 2int,
{
    let first = primary(lexemes, cursor);
    lemma_primary_text(lexemes, cursor);
    lemma_infix_text(lexemes, cursor, first.used, min_bp, first.forest);
}

/// An expression that goes on from a left side is made of the lexemes of the left
/// side and of those it consumed, all of them, in order.
pub proof fn lemma_infix_text(
    lexemes: Seq<(Kind, Seq<char>)>,
    start: nat,
    before: nat,
    min_bp: u8,
    lhs: Seq<Element>,
)
    requires
        start + before <= lexemes.len(),
        forest_text(lhs) == texts(lexemes, start, before),
    ensures
        start + before + infix(lexemes, start + before, min_bp, lhs).used <= lexemes.len(),
        forest_text(infix(lexemes, start + before, min_bp, lhs).forest) == texts(
            lexemes,
            start,
            before + infix(lexemes, start + before, min_bp, lhs).used,
        ),
    decreases left(lexemes, start + before), 1int,
{
    let cursor = start + before;
    let gap = trivia_run(lexemes, cursor);
    let at = cursor + gap;
    let seen = lhs + leaves(lexemes, cursor, gap);
    lemma_trivia_run_bound(lexemes, cursor);
    lemma_leaves_text(lexemes, cursor, gap);
    lemma_forest_text_concat(lhs, leaves(lexemes, cursor, gap));
    lemma_texts_split(lexemes, start, before, gap);
    assert(forest_text(seen) == texts(lexemes, start, before + gap));
    if at < lexemes.len() {
        match InfixOp::of_kind(lexemes[at as int].0) {
            Some(op) => {
                if op.power().0 >= min_bp {
                    let token = leaf(lexemes[at as int]);
                    let rhs = expr_bp(lexemes, at + 1, op.power().1);
                    lemma_expr_text(lexemes, at + 1, op.power().1);
                    let head = seen.push(token);
                    let node = Element::Node {
                        kind: Kind::BinaryExpr,
                        children: head + rhs.forest,
                    };
                    assert(head =~= seen + seq![token]);
                    lemma_forest_text_concat(seen, seq![token]);
                    lemma_forest_text_one(token);
                    lemma_texts_split(lexemes, start, before + gap, 1);
                    assert(texts(lexemes, at, 1) =~= lexemes[at as int].1) by {
                        assert(texts(lexemes, at, 0) =~= Seq::<char>::empty());
                    }
                    lemma_forest_text_concat(head, rhs.forest);
                    lemma_texts_split(lexemes, start, before + gap + 1, rhs.used);
                    lemma_forest_text_one(node);
                    assert(forest_text(seq![node]) == texts(
                        lexemes,
                        start,
                        before + gap + 1 + rhs.used,
                    ));
                    lemma_infix_text(
                        lexemes,
                        start,
                        before + gap + 1 + rhs.used,
                        min_bp,
                        seq![node],
                    );
                }
            },
            None => {},
        }
    }
}

/// The text under the syntax tree is the text of the lexemes that the tree holds,
/// all of them, in order.
pub proof fn lemma_tree_text(lexemes: Seq<(Kind, Seq<char>)>)
    ensures
        consumed(lexemes) <= lexemes.len(),
        syntax_tree(lexemes).text() == texts(lexemes, 0, consumed(lexemes)),
{
    lemma_expr_text(lexemes, 0, 0);
}

/// Two runs of lexemes with the same texts join to the same text.
pub proof fn lemma_texts_same(
    a: Seq<(Kind, Seq<char>)>,
    from_a: nat,
    b: Seq<(Kind, Seq<char>)>,
    from_b: nat,
    count: nat,
)
    requires
        forall|i: int| 0 <= i < count ==> #[trigger] a[from_a + i].1 == b[from_b + i].1,
    ensures
        texts(a, from_a, count) == texts(b, from_b, count),
    decreases count,
{
    if count > 0 {
        lemma_texts_same(a, from_a, b, from_b, (count - 1) as nat);
        assert(a[from_a + (count - 1)].1 == b[from_b + (count - 1)].1);
    }
}

/// The lexer loses nothing: the lexemes from any place on spell the rest of the text.
pub proof fn lemma_lex_from_source(text: Seq<char>, at: nat)
    requires
        at <= text.len(),
    ensures
        source(lex_from(text, at)) == text.skip(at as int),
    decreases text.len() - at,
{
    if at >= text.len() {
        assert(text.skip(at as int) =~= Seq::<char>::empty());
    } else {
        let end = at + lexeme_len(text, at);
        match begins(text[at as int]).1 {
            Some(class) => {
                lemma_run_len_bound(text, at + 1, class);
            },
            None => {},
        }
        let first = (begins(text[at as int]).0, text.subrange(at as int, end as int));
        let rest = lex_from(text, end);
        let all = seq![first] + rest;
        lemma_lex_from_source(text, end);
        lemma_texts_split(all, 0, 1, rest.len());
        assert(texts(all, 0, 1) =~= first.1) by {
            assert(texts(all, 0, 0) =~= Seq::<char>::empty());
        }
        assert forall|i: int| 0 <= i < rest.len() implies #[trigger] all[1 + i].1 == rest[0 + i].1 by {
        }
        lemma_texts_same(all, 1, rest, 0, rest.len());
        assert(text.subrange(at as int, end as int) + text.skip(end as int) =~= text.skip(
            at as int,
        ));
    }
}

/// The lexer loses nothing: the texts of the lexemes of a text, joined, are the text.
pub proof fn lemma_lex_lossless(text: Seq<char>)
    ensures
        source(lexemes_of(text)) == text,
{
    lemma_lex_from_source(text, 0);
    assert(text.skip(0) =~= text);
}

/// The bytes of two texts, one after the other, are the bytes of the joined text.
pub proof fn lemma_encode_concat(a: Seq<char>, b: Seq<char>)
    ensures
        encode_utf8(a + b) == encode_utf8(a) + encode_utf8(b),
    decreases a.len(),
{
    if a.len() == 0 {
        assert(a + b =~= b);
        assert(encode_utf8(a) + encode_utf8(b) =~= encode_utf8(b));
    } else {
        lemma_encode_concat(a.drop_first(), b);
        assert((a + b).drop_first() =~= a.drop_first() + b);
        assert((a + b)[0] == a[0]);
        assert(encode_utf8(a + b) =~= encode_utf8(a) + encode_utf8(b));
    }
}

/// The length of an element in bytes is the number of bytes of its text.
pub proof fn lemma_text_len(element: Element)
    ensures
        element.text_len() == encode_utf8(element.text()).len(),
    decreases element, 1int,
{
    match element {
        Element::Token { .. } => {},
        Element::Node { children, .. } => {
            lemma_forest_text_len(children);
        },
    }
}

/// The length of a run of siblings in bytes is the number of bytes of its text.
pub proof fn lemma_forest_text_len(forest: Seq<Element>)
    ensures
        forest_len(forest) == encode_utf8(forest_text(forest)).len(),
    decreases forest, 0int,
{
    if forest.len() > 0 {
        lemma_forest_text_len(forest.drop_last());
        lemma_text_len(forest.last());
        lemma_encode_concat(forest_text(forest.drop_last()), forest.last().text());
    }
}

/// The syntax tree takes no more bytes than the text of all lexemes.
pub proof fn lemma_tree_len(lexemes: Seq<(Kind, Seq<char>)>)
    ensures
        syntax_tree(lexemes).text_len() <= encode_utf8(source(lexemes)).len(),
{
    let used = consumed(lexemes);
    lemma_tree_text(lexemes);
    lemma_text_len(syntax_tree(lexemes));
    lemma_texts_split(lexemes, 0, used, (lexemes.len() - used) as nat);
    lemma_encode_concat(
        texts(lexemes, 0, used),
        texts(lexemes, used, (lexemes.len() - used) as nat),
    );
}

/// Losslessness: where the parser consumes every lexeme of a text, the leaves of the
/// syntax tree, read from left to right, spell exactly that text.
pub proof fn lemma_lossless(text: Seq<char>)
    requires
        consumed(lexemes_of(text)) == lexemes_of(text).len(),
    ensures
        syntax_tree(lexemes_of(text)).text() == text,
{
    lemma_tree_text(lexemes_of(text));
    lemma_lex_lossless(text);
}

/// Where the span of the child at `index` begins, in a node whose span begins at
/// `start`: behind the text of the children before it.
pub open spec fn child_start(start: nat, children: Seq<Element>, index: int) -> nat {
    start + forest_len(children.take(index))
}

/// Where the span of the child at `index` ends: behind its own text.
pub open spec fn child_end(start: nat, children: Seq<Element>, index: int) -> nat {
    child_start(start, children, index) + children[index].text_len()
}

/// The bytes of a run of siblings grow with the run.
pub proof fn lemma_forest_len_prefix(forest: Seq<Element>, a: int, b: int)
    requires
        0 <= a <= b <= forest.len(),
    ensures
        forest_len(forest.take(a)) <= forest_len(forest.take(b)) <= forest_len(forest),
{
    lemma_forest_len_split(forest, b);
    lemma_forest_len_split(forest.take(b), a);
    assert(forest.take(b).take(a) =~= forest.take(a));
}

/// Span containment: the span of every child lies within the span of its node, and
/// the spans of two children do not overlap and stand in the order of the children.
pub proof fn lemma_span_containment(start: nat, children: Seq<Element>, i: int, j: int)
    requires
        0 <= i < children.len(),
    ensures
        start <= child_start(start, children, i),
        child_start(start, children, i) <= child_end(start, children, i),
        child_end(start, children, i) <= start + forest_len(children),
        i < j < children.len() ==> child_end(start, children, i) <= child_start(
            start,
            children,
            j,
        ),
{
    assert(children.take(i + 1).drop_last() =~= children.take(i));
    assert(children.take(i + 1).last() == children[i]);
    assert(child_end(start, children, i) == start + forest_len(children.take(i + 1)));
    lemma_forest_len_prefix(children, i + 1, children.len() as int);
    if i < j < children.len() {
        lemma_forest_len_prefix(children, i + 1, j);
    }
}

/// Every element of a run of siblings is well kinded.
pub open spec fn forest_well_kinded(forest: Seq<Element>) -> bool {
    forall|i: int| 0 <= i < forest.len() ==> (#[trigger] forest[i]).well_kinded()
}

/// Every lexeme from `from` on has the kind of a token.
pub open spec fn tokens_only(lexemes: Seq<(Kind, Seq<char>)>, from: nat) -> bool {
    forall|i: int| from <= i < lexemes.len() ==> (#[trigger] lexemes[i]).0.is_token()
}

/// The lexer gives every lexeme the kind of a token.
pub proof fn lemma_lex_tokens_only(text: Seq<char>, at: nat)
    ensures
        tokens_only(lex_from(text, at), 0),
    decreases
        (if at <= text.len() {
            text.len() - at
        } else {
            0
        }),
{
    if at < text.len() {
        let end = at + lexeme_len(text, at);
        let first = (begins(text[at as int]).0, text.subrange(at as int, end as int));
        let rest = lex_from(text, end);
        let all = seq![first] + rest;
        lemma_lex_tokens_only(text, end);
        assert forall|i: int| 0 <= i < all.len() implies (#[trigger] all[i]).0.is_token() by {
            if i > 0 {
                assert(all[i] == rest[i - 1]);
            }
        }
    }
}

/// Two well kinded runs of siblings, one after the other, are a well kinded run.
pub proof fn lemma_kinds_concat(a: Seq<Element>, b: Seq<Element>)
    requires
        forest_well_kinded(a),
        forest_well_kinded(b),
    ensures
        forest_well_kinded(a + b),
{
    let all = a + b;
    assert forall|i: int| 0 <= i < all.len() implies (#[trigger] all[i]).well_kinded() by {
        if i < a.len() {
            assert(all[i] == a[i]);
        } else {
            assert(all[i] == b[i - a.len()]);
        }
    }
}

/// The leaves of tokens are well kinded.
pub proof fn lemma_leaves_kinds(lexemes: Seq<(Kind, Seq<char>)>, from: nat, count: nat)
    requires
        from + count <= lexemes.len(),
        tokens_only(lexemes, 0),
    ensures
        forest_well_kinded(leaves(lexemes, from, count)),
{
    let all = leaves(lexemes, from, count);
    assert forall|i: int| 0 <= i < all.len() implies (#[trigger] all[i]).well_kinded() by {
        assert(lexemes[from + i].0.is_token());
    }
}

/// A well kinded run of children under the kind of a node is a well kinded run of
/// one node.
pub proof fn lemma_node_kinds(kind: Kind, children: Seq<Element>)
    requires
        kind.is_node(),
        forest_well_kinded(children),
    ensures
        forest_well_kinded(seq![Element::Node { kind, children }]),
{
    let node = Element::Node { kind, children };
    assert(node.well_kinded());
}

/// An operand parsed from tokens is well kinded.
pub proof fn lemma_primary_kinds(lexemes: Seq<(Kind, Seq<char>)>, cursor: nat)
    requires
        cursor <= lexemes.len(),
        tokens_only(lexemes, 0),
    ensures
        forest_well_kinded(primary(lexemes, cursor).forest),
    decreases left(lexemes, cursor), 0int,
{
    let gap = trivia_run(lexemes, cursor);
    let at = cursor + gap;
    let lead = leaves(lexemes, cursor, gap);
    lemma_trivia_run_bound(lexemes, cursor);
    lemma_leaves_kinds(lexemes, cursor, gap);
    if at < lexemes.len() {
        let kind = lexemes[at as int].0;
        let head = lead.push(leaf(lexemes[at as int]));
        lemma_leaves_kinds(lexemes, at, 1);
        lemma_kinds_concat(lead, leaves(lexemes, at, 1));
        assert(head =~= lead + leaves(lexemes, at, 1));
        if kind == Kind::Minus {
            let operand = expr_bp(lexemes, at + 1, 5);
            lemma_expr_kinds(lexemes, at + 1, 5);
            lemma_kinds_concat(head, operand.forest);
            lemma_node_kinds(Kind::PrefixExpr, head + operand.forest);
        } else if kind == Kind::LParen {
            let inner = expr_bp(lexemes, at + 1, 0);
            lemma_expr_kinds(lexemes, at + 1, 0);
            lemma_expr_text(lexemes, at + 1, 0);
            let after = at + 1 + inner.used;
            let gap2 = trivia_run(lexemes, after);
            let body = head + inner.forest + leaves(lexemes, after, gap2);
            lemma_trivia_run_bound(lexemes, after);
            lemma_leaves_kinds(lexemes, after, gap2);
            lemma_kinds_concat(head, inner.forest);
            lemma_kinds_concat(head + inner.forest, leaves(lexemes, after, gap2));
            if after + gap2 < lexemes.len() {
                lemma_leaves_kinds(lexemes, after + gap2, 1);
                lemma_kinds_concat(body, leaves(lexemes, after + gap2, 1));
                assert(body.push(leaf(lexemes[(after + gap2) as int])) =~= body + leaves(
                    lexemes,
                    after + gap2,
                    1,
                ));
            }
        }
    }
}

/// An expression parsed from tokens is well kinded.
pub proof fn lemma_expr_kinds(lexemes: Seq<(Kind, Seq<char>)>, cursor: nat, min_bp: u8)
    requires
        cursor <= lexemes.len(),
        tokens_only(lexemes, 0),
    ensures
        forest_well_kinded(expr_bp(lexemes, cursor, min_bp).forest),
    decreases left(lexemes, cursor), 2int,
{
    lemma_primary_kinds(lexemes, cursor);
    lemma_primary_text(lexemes, cursor);
    lemma_infix_kinds(
        lexemes,
        cursor + primary(lexemes, cursor).used,
        min_bp,
        primary(lexemes, cursor).forest,
    );
}

/// An expression that goes on from a well kinded left side is well kinded.
pub proof fn lemma_infix_kinds(
    lexemes: Seq<(Kind, Seq<char>)>,
    cursor: nat,
    min_bp: u8,
    lhs: Seq<Element>,
)
    requires
        cursor <= lexemes.len(),
        tokens_only(lexemes, 0),
        forest_well_kinded(lhs),
    ensures
        forest_well_kinded(infix(lexemes, cursor, min_bp, lhs).forest),
    decreases left(lexemes, cursor), 1int,
{
    let gap = trivia_run(lexemes, cursor);
    let at = cursor + gap;
    let seen = lhs + leaves(lexemes, cursor, gap);
    lemma_trivia_run_bound(lexemes, cursor);
    lemma_leaves_kinds(lexemes, cursor, gap);
    lemma_kinds_concat(lhs, leaves(lexemes, cursor, gap));
    if at < lexemes.len() {
        match InfixOp::of_kind(lexemes[at as int].0) {
            Some(op) => {
                if op.power().0 >= min_bp {
                    let rhs = expr_bp(lexemes, at + 1, op.power().1);
                    lemma_expr_kinds(lexemes, at + 1, op.power().1);
                    lemma_expr_text(lexemes, at + 1, op.power().1);
                    let head = seen.push(leaf(lexemes[at as int]));
                    let node = Element::Node {
                        kind: Kind::BinaryExpr,
                        children: head + rhs.forest,
                    };
                    lemma_leaves_kinds(lexemes, at, 1);
                    lemma_kinds_concat(seen, leaves(lexemes, at, 1));
                    assert(head =~= seen + leaves(lexemes, at, 1));
                    lemma_kinds_concat(head, rhs.forest);
                    lemma_node_kinds(Kind::BinaryExpr, head + rhs.forest);
                    lemma_infix_kinds(lexemes, at + 1 + rhs.used, min_bp, seq![node]);
                }
            },
            None => {},
        }
    }
}

/// In the syntax tree of a text every leaf has the kind of a token and every node
/// the kind of a node.
pub proof fn lemma_tree_kinds(text: Seq<char>)
    ensures
        syntax_tree(lexemes_of(text)).well_kinded(),
{
    lemma_lex_tokens_only(text, 0);
    lemma_expr_kinds(lexemes_of(text), 0, 0);
    lemma_node_kinds(Kind::Root, expr_bp(lexemes_of(text), 0, 0).forest);
    let root = syntax_tree(lexemes_of(text));
    assert(seq![root][0] == root);
}

} // verus!
