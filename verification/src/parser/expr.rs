//! Expressions: what a run of lexemes means as a tree, and the parser that records it.

use vstd::prelude::*;
use crate::parser::event::{
    checkpoints_ok, flatten, flatten_all, lemma_checkpoints_plain, lemma_checkpoints_push,
    lemma_flatten_all_concat, lemma_flatten_all_one, lemma_resolve_plain,
    lemma_resolve_push, plain, resolve, Step,
};
use crate::parser::sink::lemma_resolve_len;
use crate::parser::{token_steps, trivia_run, Parser};
use crate::syntax::Kind;
use crate::tree::Element;

verus! {

/// A binary operator.
#[derive(Debug, Clone, Copy, PartialEq, Eq, Structural)]
pub enum InfixOp {
    Add,
    Sub,
    Mul,
    Div,
}

impl InfixOp {
    /// The operator that a token kind stands for, if it stands for one.
    pub open spec fn of_kind(kind: Kind) -> Option<InfixOp> {
        match kind {
            Kind::Plus => Some(InfixOp::Add),
            Kind::Minus => Some(InfixOp::Sub),
            Kind::Star => Some(InfixOp::Mul),
            Kind::Slash => Some(InfixOp::Div),
            _ => None,
        }
    }

    /// How tightly the operator binds to its left and to its right. The right side
    /// binds tighter by one, which makes the operator associate to the left.
    pub open spec fn power(self) -> (u8, u8) {
        match self {
            InfixOp::Add | InfixOp::Sub => (1, 2),
            InfixOp::Mul | InfixOp::Div => (3, 4),
        }
    }

    pub fn binding_power(&self) -> (power: (u8, u8))
        ensures
            power == self.power(),
    {
        match self {
            Self::Add | Self::Sub => (1, 2),
            Self::Mul | Self::Div => (3, 4),
        }
    }
}

/// A prefix operator.
#[derive(Debug, Clone, Copy, PartialEq, Eq, Structural)]
pub enum PrefixOp {
    Neg,
}

impl PrefixOp {
    /// How tightly the operator binds to its operand: tighter than any binary
    /// operator binds to its left.
    pub open spec fn power(self) -> u8 {
        5
    }

    pub fn binding_power(&self) -> (power: ((), u8))
        ensures
            power.1 == self.power(),
    {
        match self {
            Self::Neg => ((), 5),
        }
    }
}

/// What parsing from some place gives: the elements made, and the number of lexemes
/// consumed for them.
pub struct Parsed {
    pub forest: Seq<Element>,
    pub used: nat,
}

/// A lexeme as a leaf.
pub open spec fn leaf(lexeme: (Kind, Seq<char>)) -> Element {
    Element::Token { kind: lexeme.0, text: lexeme.1 }
}

/// `count` lexemes in a row as leaves, the first at `from`.
pub open spec fn leaves(lexemes: Seq<(Kind, Seq<char>)>, from: nat, count: nat) -> Seq<Element> {
    Seq::new(count, |i: int| leaf(lexemes[from + i]))
}

/// The number of lexemes from `cursor` on.
pub open spec fn left(lexemes: Seq<(Kind, Seq<char>)>, cursor: nat) -> nat {
    if cursor <= lexemes.len() {
        (lexemes.len() - cursor) as nat
    } else {
        0
    }
}

/// The operand that stands at `cursor`, behind any trivia: a number or an identifier;
/// a minus with the operand it negates, as one prefix node; or a parenthesis, the
/// expression in it, and the closing parenthesis if one follows. Where none of these
/// stands, only the trivia is consumed.
pub open spec fn primary(lexemes: Seq<(Kind, Seq<char>)>, cursor: nat) -> Parsed
    decreases left(lexemes, cursor), 0int,
{
    let gap = trivia_run(lexemes, cursor);
    let at = cursor + gap;
    let lead = leaves(lexemes, cursor, gap);
    if at < lexemes.len() {
        let kind = lexemes[at as int].0;
        let head = lead.push(leaf(lexemes[at as int]));
        if kind == Kind::Number || kind == Kind::Ident {
            Parsed { forest: head, used: gap + 1 }
        } else if kind == Kind::Minus {
            let operand = expr_bp(lexemes, at + 1, PrefixOp::Neg.power());
            Parsed {
                forest: seq![
                    Element::Node { kind: Kind::PrefixExpr, children: head + operand.forest },
                ],
                used: gap + 1 + operand.used,
            }
        } else if kind == Kind::LParen {
            let inner = expr_bp(lexemes, at + 1, 0);
            let after = at + 1 + inner.used;
            let gap2 = trivia_run(lexemes, after);
            let close = after + gap2;
            let body = head + inner.forest + leaves(lexemes, after, gap2);
            if close < lexemes.len() && lexemes[close as int].0 == Kind::RParen {
                Parsed {
                    forest: body.push(leaf(lexemes[close as int])),
                    used: gap + 1 + inner.used + gap2 + 1,
                }
            } else {
                Parsed { forest: body, used: gap + 1 + inner.used + gap2 }
            }
        } else {
            Parsed { forest: lead, used: gap }
        }
    } else {
        Parsed { forest: lead, used: gap }
    }
}

/// The expression that stands at `cursor`, as far as its operators bind at least as
/// tightly as `min_bp`.
pub open spec fn expr_bp(lexemes: Seq<(Kind, Seq<char>)>, cursor: nat, min_bp: u8) -> Parsed
    decreases left(lexemes, cursor), 2int,
{
    let first = primary(lexemes, cursor);
    let rest = infix(lexemes, cursor + first.used, min_bp, first.forest);
    Parsed { forest: rest.forest, used: first.used + rest.used }
}

/// The expression whose left side `lhs` is already parsed, continued from `cursor`:
/// while an operator follows that binds to its left at least as tightly as `min_bp`,
/// the left side, the operator and the operand to its right become one binary node,
/// which is the left side from then on.
pub open spec fn infix(
    lexemes: Seq<(Kind, Seq<char>)>,
    cursor: nat,
    min_bp: u8,
    lhs: Seq<Element>,
) -> Parsed
    decreases left(lexemes, cursor), 1int,
{
    let gap = trivia_run(lexemes, cursor);
    let at = cursor + gap;
    let seen = lhs + leaves(lexemes, cursor, gap);
    if at < lexemes.len() {
        match InfixOp::of_kind(lexemes[at as int].0) {
            Some(op) => if op.power().0 >= min_bp {
                let rhs = expr_bp(lexemes, at + 1, op.power().1);
                let node = Element::Node {
                    kind: Kind::BinaryExpr,
                    children: seen.push(leaf(lexemes[at as int])) + rhs.forest,
                };
                let rest = infix(lexemes, at + 1 + rhs.used, min_bp, seq![node]);
                Parsed { forest: rest.forest, used: gap + 1 + rhs.used + rest.used }
            } else {
                Parsed { forest: seen, used: gap }
            },
            None => Parsed { forest: seen, used: gap },
        }
    } else {
        Parsed { forest: seen, used: gap }
    }
}

/// A lexeme as a token event.
pub open spec fn token_step(lexeme: (Kind, Seq<char>)) -> Step {
    Step::Token { kind: lexeme.0, text: lexeme.1 }
}

/// The events recorded for the operand at `cursor`, by a call that began when the log
/// held `at` events: the trivia and the tokens in the order consumed; for a negation,
/// behind the minus, a deferred start of the prefix node at the checkpoint `at`, then
/// the operand's events and a finish.
pub open spec fn primary_log(lexemes: Seq<(Kind, Seq<char>)>, cursor: nat, at: nat) -> Seq<Step>
    decreases left(lexemes, cursor), 0int,
{
    let gap = trivia_run(lexemes, cursor);
    let here = cursor + gap;
    let lead = token_steps(lexemes, cursor, gap);
    if here < lexemes.len() {
        let kind = lexemes[here as int].0;
        let head = lead.push(token_step(lexemes[here as int]));
        if kind == Kind::Number || kind == Kind::Ident {
            head
        } else if kind == Kind::Minus {
            (head.push(Step::StartAt { kind: Kind::PrefixExpr, checkpoint: at }) + expr_log(
                lexemes,
                here + 1,
                PrefixOp::Neg.power(),
                at + gap + 2,
            )).push(Step::Finish)
        } else if kind == Kind::LParen {
            let inner = expr_bp(lexemes, here + 1, 0);
            let after = here + 1 + inner.used;
            let gap2 = trivia_run(lexemes, after);
            let close = after + gap2;
            let body = head + expr_log(lexemes, here + 1, 0, at + gap + 1) + token_steps(
                lexemes,
                after,
                gap2,
            );
            if close < lexemes.len() && lexemes[close as int].0 == Kind::RParen {
                body.push(token_step(lexemes[close as int]))
            } else {
                body
            }
        } else {
            lead
        }
    } else {
        lead
    }
}

/// The events recorded for the expression at `cursor`, by a call that began when the
/// log held `at` events. The call's checkpoint is `at`.
pub open spec fn expr_log(
    lexemes: Seq<(Kind, Seq<char>)>,
    cursor: nat,
    min_bp: u8,
    at: nat,
) -> Seq<Step>
    decreases left(lexemes, cursor), 2int,
{
    let first = primary_log(lexemes, cursor, at);
    first + infix_log(
        lexemes,
        cursor + primary(lexemes, cursor).used,
        min_bp,
        at,
        at + first.len(),
    )
}

/// The events recorded from `cursor` on by a call with the given checkpoint, when the
/// log holds `at` events and the left side is parsed: for each operator that binds
/// tightly enough, its token, a deferred start of the binary node at the checkpoint,
/// the events of the right operand, and a finish.
pub open spec fn infix_log(
    lexemes: Seq<(Kind, Seq<char>)>,
    cursor: nat,
    min_bp: u8,
    checkpoint: nat,
    at: nat,
) -> Seq<Step>
    decreases left(lexemes, cursor), 1int,
{
    let gap = trivia_run(lexemes, cursor);
    let here = cursor + gap;
    let lead = token_steps(lexemes, cursor, gap);
    if here < lexemes.len() {
        match InfixOp::of_kind(lexemes[here as int].0) {
            Some(op) => if op.power().0 >= min_bp {
                let rhs = expr_bp(lexemes, here + 1, op.power().1);
                let wrapped = (lead.push(token_step(lexemes[here as int])).push(
                    Step::StartAt { kind: Kind::BinaryExpr, checkpoint },
                ) + expr_log(lexemes, here + 1, op.power().1, at + gap + 2)).push(Step::Finish);
                wrapped + infix_log(
                    lexemes,
                    here + 1 + rhs.used,
                    min_bp,
                    checkpoint,
                    at + wrapped.len(),
                )
            } else {
                lead
            },
            None => lead,
        }
    } else {
        lead
    }
}

/// Leaves spell out as their token events.
pub proof fn lemma_flatten_leaves(lexemes: Seq<(Kind, Seq<char>)>, from: nat, count: nat)
    ensures
        flatten_all(leaves(lexemes, from, count)) == token_steps(lexemes, from, count),
        plain(token_steps(lexemes, from, count)),
    decreases count,
{
    if count > 0 {
        lemma_flatten_leaves(lexemes, from, (count - 1) as nat);
        let all = leaves(lexemes, from, count);
        assert(all.drop_last() =~= leaves(lexemes, from, (count - 1) as nat));
        assert(all.last() == leaf(lexemes[from + count - 1]));
        assert(flatten(all.last()) =~= seq![token_steps(lexemes, from, count)[count - 1]]);
        assert(flatten_all(all) == flatten_all(all.drop_last()) + flatten(all.last()));
        assert(flatten_all(all) =~= token_steps(lexemes, from, count));
    } else {
        assert(flatten_all(leaves(lexemes, from, count)) =~= token_steps(lexemes, from, count));
    }
}

/// A node put round the elements that a log ends in: the start goes in where they
/// begin, more children follow, and the finish closes it.
pub proof fn lemma_wrap(base: Seq<Step>, a: Seq<Element>, b: Seq<Element>, kind: Kind)
    ensures
        ((base + flatten_all(a)).insert(base.len() as int, Step::Start { kind }) + flatten_all(
            b,
        )).push(Step::Finish) == base + flatten_all(
            seq![Element::Node { kind, children: a + b }],
        ),
{
    let node = Element::Node { kind, children: a + b };
    lemma_flatten_all_one(node);
    lemma_flatten_all_concat(a, b);
    assert(((base + flatten_all(a)).insert(base.len() as int, Step::Start { kind }) + flatten_all(
        b,
    )).push(Step::Finish) =~= base + flatten(node));
}

/// What a call that parses has done to the parser: the lexemes stand, the cursor has
/// moved over those consumed, and the log, once resolved, ends in the events that spell
/// the parsed elements out.
pub open spec fn parsed_from(before: Parser, after: Parser, parsed: Parsed) -> bool {
    &&& after.wf()
    &&& after.lexemes() == before.lexemes()
    &&& after.cursor() == before.cursor() + parsed.used
    &&& checkpoints_ok(after.log())
    &&& resolve(after.log()) == resolve(before.log()) + flatten_all(parsed.forest)
}

/// Token events at the end of a log add their leaves to what the log ends in.
pub proof fn lemma_after_tokens(
    log: Seq<Step>,
    base: Seq<Step>,
    forest: Seq<Element>,
    lexemes: Seq<(Kind, Seq<char>)>,
    from: nat,
    count: nat,
)
    requires
        checkpoints_ok(log),
        resolve(log) == base + flatten_all(forest),
    ensures
        checkpoints_ok(log + token_steps(lexemes, from, count)),
        resolve(log + token_steps(lexemes, from, count)) == base + flatten_all(
            forest + leaves(lexemes, from, count),
        ),
{
    let tokens = token_steps(lexemes, from, count);
    lemma_flatten_leaves(lexemes, from, count);
    lemma_checkpoints_plain(log, tokens);
    lemma_resolve_plain(log, tokens);
    lemma_flatten_all_concat(forest, leaves(lexemes, from, count));
    assert(base + flatten_all(forest) + tokens =~= base + (flatten_all(forest) + tokens));
}

/// One token event at the end of a log adds its leaf to what the log ends in.
pub proof fn lemma_after_token(
    log: Seq<Step>,
    base: Seq<Step>,
    forest: Seq<Element>,
    lexeme: (Kind, Seq<char>),
)
    requires
        checkpoints_ok(log),
        resolve(log) == base + flatten_all(forest),
    ensures
        checkpoints_ok(log.push(Step::Token { kind: lexeme.0, text: lexeme.1 })),
        resolve(log.push(Step::Token { kind: lexeme.0, text: lexeme.1 })) == base + flatten_all(
            forest.push(leaf(lexeme)),
        ),
{
    let step = Step::Token { kind: lexeme.0, text: lexeme.1 };
    lemma_checkpoints_push(log, step);
    lemma_resolve_push(log, step);
    lemma_flatten_all_one(leaf(lexeme));
    lemma_flatten_all_concat(forest, seq![leaf(lexeme)]);
    assert(forest.push(leaf(lexeme)) =~= forest + seq![leaf(lexeme)]);
    assert(flatten(leaf(lexeme)) =~= seq![step]);
    assert((base + flatten_all(forest)).push(step) =~= base + (flatten_all(forest) + seq![step]));
}

/// A deferred start at the checkpoint, then more elements, then a finish: what the log
/// ended in since the checkpoint is now one node with the new elements as its last
/// children.
pub proof fn lemma_after_wrap(
    log: Seq<Step>,
    grown: Seq<Step>,
    base: Seq<Step>,
    a: Seq<Element>,
    b: Seq<Element>,
    kind: Kind,
)
    requires
        checkpoints_ok(log),
        resolve(log) == base + flatten_all(a),
        checkpoints_ok(grown),
        resolve(grown) == resolve(log.push(Step::StartAt { kind, checkpoint: base.len() }))
            + flatten_all(b),
    ensures
        checkpoints_ok(log.push(Step::StartAt { kind, checkpoint: base.len() })),
        checkpoints_ok(grown.push(Step::Finish)),
        resolve(grown.push(Step::Finish)) == base + flatten_all(
            seq![Element::Node { kind, children: a + b }],
        ),
{
    let start = Step::StartAt { kind, checkpoint: base.len() };
    lemma_resolve_len(log);
    lemma_checkpoints_push(log, start);
    lemma_checkpoints_push(grown, Step::Finish);
    lemma_resolve_push(log, start);
    lemma_resolve_push(grown, Step::Finish);
    lemma_wrap(base, a, b, kind);
}

/// Events appended one by one are the same as their run appended at once: a token
/// behind the trivia.
pub proof fn lemma_join_token(log: Seq<Step>, lead: Seq<Step>, token: Step)
    ensures
        log + lead.push(token) == (log + lead).push(token),
        (log + lead).push(token).len() == log.len() + lead.len() + 1,
{
    assert(log + lead.push(token) =~= (log + lead).push(token));
}

/// Events appended one by one are the same as their run appended at once: a token, a
/// deferred start, the events of an operand, and a finish.
pub proof fn lemma_join_wrap(
    log: Seq<Step>,
    lead: Seq<Step>,
    token: Step,
    start: Step,
    inner: Seq<Step>,
)
    ensures
        log + (lead.push(token).push(start) + inner).push(Step::Finish) == ((log + lead).push(
            token,
        ).push(start) + inner).push(Step::Finish),
        (log + lead).push(token).push(start).len() == log.len() + lead.len() + 2,
        (lead.push(token).push(start) + inner).push(Step::Finish).len() == lead.len() + inner.len()
            + 3,
{
    assert(log + (lead.push(token).push(start) + inner).push(Step::Finish) =~= ((log + lead).push(
        token,
    ).push(start) + inner).push(Step::Finish));
}

/// Events appended one by one are the same as their run appended at once: an opening
/// parenthesis, the events of the expression in it, and the trivia behind it.
pub proof fn lemma_join_group(
    log: Seq<Step>,
    lead: Seq<Step>,
    token: Step,
    inner: Seq<Step>,
    tail: Seq<Step>,
    close: Step,
)
    ensures
        log + (lead.push(token) + inner + tail) == (log + lead).push(token) + inner + tail,
        log + (lead.push(token) + inner + tail).push(close) == ((log + lead).push(token) + inner
            + tail).push(close),
        (log + lead).push(token).len() == log.len() + lead.len() + 1,
{
    assert(log + (lead.push(token) + inner + tail) =~= (log + lead).push(token) + inner + tail);
    assert(log + (lead.push(token) + inner + tail).push(close) =~= ((log + lead).push(token)
        + inner + tail).push(close));
}

/// A run appended in two parts is the run appended at once.
pub proof fn lemma_join_rest(log: Seq<Step>, first: Seq<Step>, rest: Seq<Step>)
    ensures
        log + (first + rest) == (log + first) + rest,
        (log + first).len() == log.len() + first.len(),
{
    assert(log + (first + rest) =~= (log + first) + rest);
}

/// The events recorded for an operand resolve to the events that spell the operand
/// out, behind what the log resolved to before.
pub proof fn lemma_primary_resolves(log: Seq<Step>, lexemes: Seq<(Kind, Seq<char>)>, cursor: nat)
    requires
        checkpoints_ok(log),
    ensures
        checkpoints_ok(log + primary_log(lexemes, cursor, log.len())),
        resolve(log + primary_log(lexemes, cursor, log.len())) == resolve(log) + flatten_all(
            primary(lexemes, cursor).forest,
        ),
    decreases left(lexemes, cursor), 0int,
{
    let base = resolve(log);
    let at = log.len();
    let gap = trivia_run(lexemes, cursor);
    let here = cursor + gap;
    let lead = leaves(lexemes, cursor, gap);
    let out = log + primary_log(lexemes, cursor, at);
    lemma_resolve_len(log);
    assert(base + flatten_all(Seq::<Element>::empty()) =~= base);
    lemma_after_tokens(log, base, Seq::empty(), lexemes, cursor, gap);
    assert(Seq::<Element>::empty() + lead =~= lead);
    let l0 = log + token_steps(lexemes, cursor, gap);
    if here < lexemes.len() {
        let kind = lexemes[here as int].0;
        let head = lead.push(leaf(lexemes[here as int]));
        let l1 = l0.push(token_step(lexemes[here as int]));
        lemma_after_token(l0, base, lead, lexemes[here as int]);
        let steps = token_steps(lexemes, cursor, gap);
        let token = token_step(lexemes[here as int]);
        if kind == Kind::Number || kind == Kind::Ident {
            lemma_join_token(log, steps, token);
        } else if kind == Kind::Minus {
            let start = Step::StartAt { kind: Kind::PrefixExpr, checkpoint: at };
            let operand = expr_bp(lexemes, here + 1, 5);
            let l2 = l1.push(start);
            let inner = expr_log(lexemes, here + 1, 5, at + gap + 2);
            lemma_join_wrap(log, steps, token, start, inner);
            lemma_checkpoints_push(l1, start);
            lemma_expr_resolves(l2, lexemes, here + 1, 5);
            let l3 = l2 + inner;
            lemma_after_wrap(l1, l3, base, head, operand.forest, Kind::PrefixExpr);
        } else if kind == Kind::LParen {
            let inner = expr_bp(lexemes, here + 1, 0);
            let after = here + 1 + inner.used;
            let gap2 = trivia_run(lexemes, after);
            let close = after + gap2;
            let body = head + inner.forest + leaves(lexemes, after, gap2);
            let within = expr_log(lexemes, here + 1, 0, at + gap + 1);
            let tail = token_steps(lexemes, after, gap2);
            lemma_join_group(log, steps, token, within, tail, token_step(lexemes[close as int]));
            lemma_expr_resolves(l1, lexemes, here + 1, 0);
            let l2 = l1 + within;
            lemma_flatten_all_concat(head, inner.forest);
            assert(resolve(l2) == base + flatten_all(head + inner.forest)) by {
                assert(base + flatten_all(head) + flatten_all(inner.forest) =~= base + (
                flatten_all(head) + flatten_all(inner.forest)));
            }
            lemma_after_tokens(l2, base, head + inner.forest, lexemes, after, gap2);
            let l3 = l2 + tail;
            if close < lexemes.len() && lexemes[close as int].0 == Kind::RParen {
                lemma_after_token(l3, base, body, lexemes[close as int]);
            }
        }
    }
}

/// The events recorded for an expression resolve to the events that spell the
/// expression out, behind what the log resolved to before; and their checkpoints are
/// sound.
pub proof fn lemma_expr_resolves(
    log: Seq<Step>,
    lexemes: Seq<(Kind, Seq<char>)>,
    cursor: nat,
    min_bp: u8,
)
    requires
        checkpoints_ok(log),
    ensures
        checkpoints_ok(log + expr_log(lexemes, cursor, min_bp, log.len())),
        resolve(log + expr_log(lexemes, cursor, min_bp, log.len())) == resolve(log) + flatten_all(
            expr_bp(lexemes, cursor, min_bp).forest,
        ),
    decreases left(lexemes, cursor), 2int,
{
    let first = primary_log(lexemes, cursor, log.len());
    let operand = primary(lexemes, cursor);
    let l1 = log + first;
    lemma_resolve_len(log);
    lemma_primary_resolves(log, lexemes, cursor);
    lemma_infix_resolves(l1, resolve(log), lexemes, cursor + operand.used, min_bp, operand.forest);
    lemma_join_rest(
        log,
        first,
        infix_log(lexemes, cursor + operand.used, min_bp, log.len(), log.len() + first.len()),
    );
}

/// The events recorded behind a parsed left side resolve to the events that spell the
/// whole expression out, from the checkpoint on.
pub proof fn lemma_infix_resolves(
    log: Seq<Step>,
    base: Seq<Step>,
    lexemes: Seq<(Kind, Seq<char>)>,
    cursor: nat,
    min_bp: u8,
    lhs: Seq<Element>,
)
    requires
        checkpoints_ok(log),
        resolve(log) == base + flatten_all(lhs),
    ensures
        checkpoints_ok(log + infix_log(lexemes, cursor, min_bp, base.len(), log.len())),
        resolve(log + infix_log(lexemes, cursor, min_bp, base.len(), log.len())) == base
            + flatten_all(infix(lexemes, cursor, min_bp, lhs).forest),
    decreases left(lexemes, cursor), 1int,
{
    let at = log.len();
    let gap = trivia_run(lexemes, cursor);
    let here = cursor + gap;
    let seen = lhs + leaves(lexemes, cursor, gap);
    let out = log + infix_log(lexemes, cursor, min_bp, base.len(), at);
    lemma_after_tokens(log, base, lhs, lexemes, cursor, gap);
    let l0 = log + token_steps(lexemes, cursor, gap);
    let wrap = here < lexemes.len() && (InfixOp::of_kind(lexemes[here as int].0) matches Some(op)
        && op.power().0 >= min_bp);
    if wrap {
        let op = InfixOp::of_kind(lexemes[here as int].0)->0;
        let start = Step::StartAt { kind: Kind::BinaryExpr, checkpoint: base.len() };
        let rhs = expr_bp(lexemes, here + 1, op.power().1);
        let head = seen.push(leaf(lexemes[here as int]));
        let steps = token_steps(lexemes, cursor, gap);
        let token = token_step(lexemes[here as int]);
        let inner = expr_log(lexemes, here + 1, op.power().1, at + gap + 2);
        let wrapped = (steps.push(token).push(start) + inner).push(Step::Finish);
        let rest = infix_log(
            lexemes,
            here + 1 + rhs.used,
            min_bp,
            base.len(),
            at + wrapped.len(),
        );
        lemma_join_wrap(log, steps, token, start, inner);
        lemma_join_rest(log, wrapped, rest);
        let l1 = l0.push(token);
        lemma_after_token(l0, base, seen, lexemes[here as int]);
        lemma_resolve_len(l1);
        let l2 = l1.push(start);
        lemma_checkpoints_push(l1, start);
        lemma_expr_resolves(l2, lexemes, here + 1, op.power().1);
        let l3 = l2 + inner;
        lemma_after_wrap(l1, l3, base, head, rhs.forest, Kind::BinaryExpr);
        let l4 = l3.push(Step::Finish);
        let node = Element::Node { kind: Kind::BinaryExpr, children: head + rhs.forest };
        lemma_infix_resolves(l4, base, lexemes, here + 1 + rhs.used, min_bp, seq![node]);
    }
}

/// Parses one expression at the cursor.
pub fn expr(p: &mut Parser)
    requires
        old(p).wf(),
    ensures
        final(p).wf(),
        final(p).lexemes() == old(p).lexemes(),
        final(p).cursor() == old(p).cursor() + expr_bp(old(p).lexemes(), old(p).cursor(), 0).used,
        final(p).log() == old(p).log() + expr_log(
            old(p).lexemes(),
            old(p).cursor(),
            0,
            old(p).log().len(),
        ),
        checkpoints_ok(old(p).log()) ==> parsed_from(
            *old(p),
            *final(p),
            expr_bp(old(p).lexemes(), old(p).cursor(), 0),
        ),
{
    expr_binding_power(p, 0);
}

/// Parses the expression at the cursor as far as its operators bind at least as
/// tightly as `minimum_binding_power`, and records its events behind those of the log.
/// A parenthesis that is never closed ends where its expression ends.
pub fn expr_binding_power(p: &mut Parser, minimum_binding_power: u8)
    requires
        old(p).wf(),
    ensures
        final(p).wf(),
        final(p).lexemes() == old(p).lexemes(),
        final(p).cursor() == old(p).cursor() + expr_bp(
            old(p).lexemes(),
            old(p).cursor(),
            minimum_binding_power,
        ).used,
        final(p).log() == old(p).log() + expr_log(
            old(p).lexemes(),
            old(p).cursor(),
            minimum_binding_power,
            old(p).log().len(),
        ),
        checkpoints_ok(old(p).log()) ==> parsed_from(
            *old(p),
            *final(p),
            expr_bp(old(p).lexemes(), old(p).cursor(), minimum_binding_power),
        ),
    decreases left(old(p).lexemes(), old(p).cursor()),
{
    let ghost lx = p.lexemes();
    let ghost cur0 = p.cursor();
    let ghost log0 = p.log();
    let ghost gap = trivia_run(lx, cur0);
    let ghost at = cur0 + gap;
    let ghost lead = token_steps(lx, cur0, gap);
    let ghost mut lhs: Seq<Element> = leaves(lx, cur0, gap);
    let ghost mut used: nat = gap;
    let checkpoint = p.checkpoint();

    match p.peek() {
        Some(Kind::Number) | Some(Kind::Ident) => {
            p.bump();
            proof {
                lhs = lhs.push(leaf(lx[at as int]));
                used = gap + 1;
                lemma_join_token(log0, lead, token_step(lx[at as int]));
            }
        },
        Some(Kind::Minus) => {
            let op = PrefixOp::Neg;
            let ((), right_binding_power) = op.binding_power();
            let ghost operand = expr_bp(lx, at + 1, 5);

            // Eat the operator's token.
            p.bump();

            p.start_node_at(checkpoint, Kind::PrefixExpr);
            expr_binding_power(p, right_binding_power);
            p.finish_node();
            proof {
                lhs = seq![
                    Element::Node {
                        kind: Kind::PrefixExpr,
                        children: lhs.push(leaf(lx[at as int])) + operand.forest,
                    },
                ];
                used = gap + 1 + operand.used;
                lemma_join_wrap(
                    log0,
                    lead,
                    token_step(lx[at as int]),
                    Step::StartAt { kind: Kind::PrefixExpr, checkpoint: log0.len() },
                    expr_log(lx, at + 1, 5, log0.len() + gap + 2),
                );
            }
        },
        Some(Kind::LParen) => {
            let ghost inner = expr_bp(lx, at + 1, 0);
            let ghost after = at + 1 + inner.used;
            let ghost gap2 = trivia_run(lx, after);
            let ghost body = lhs.push(leaf(lx[at as int])) + inner.forest + leaves(lx, after, gap2);
            proof {
                lemma_join_group(
                    log0,
                    lead,
                    token_step(lx[at as int]),
                    expr_log(lx, at + 1, 0, log0.len() + gap + 1),
                    token_steps(lx, after, gap2),
                    token_step(lx[(after + gap2) as int]),
                );
            }
            p.bump();
            expr_binding_power(p, 0);

            match p.peek() {
                Some(Kind::RParen) => {
                    p.bump();
                    proof {
                        lhs = body.push(leaf(lx[(after + gap2) as int]));
                        used = gap + 1 + inner.used + gap2 + 1;
                    }
                },
                _ => {
                    proof {
                        lhs = body;
                        used = gap + 1 + inner.used + gap2;
                    }
                },
            }
        },
        _ => {},
    }

    proof {
        let first = primary_log(lx, cur0, log0.len());
        assert(p.log() == log0 + first);
        assert(lhs == primary(lx, cur0).forest);
        assert(used == primary(lx, cur0).used);
        lemma_join_rest(
            log0,
            first,
            infix_log(
                lx,
                cur0 + used,
                minimum_binding_power,
                log0.len(),
                log0.len() + first.len(),
            ),
        );
    }

    loop
        invariant
            lx == old(p).lexemes(),
            cur0 == old(p).cursor(),
            log0 == old(p).log(),
            checkpoint == log0.len(),
            p.wf(),
            p.lexemes() == lx,
            p.cursor() == cur0 + used,
            log0 + expr_log(lx, cur0, minimum_binding_power, log0.len()) == p.log() + infix_log(
                lx,
                p.cursor(),
                minimum_binding_power,
                log0.len(),
                p.log().len(),
            ),
            expr_bp(lx, cur0, minimum_binding_power).used == used + infix(
                lx,
                p.cursor(),
                minimum_binding_power,
                lhs,
            ).used,
        decreases left(lx, p.cursor()),
    {
        let ghost cur = p.cursor();
        let ghost before = p.log();
        let ghost gap = trivia_run(lx, cur);
        let ghost at = cur + gap;
        let ghost seen = lhs + leaves(lx, cur, gap);
        let op = match p.peek() {
            Some(Kind::Plus) => InfixOp::Add,
            Some(Kind::Minus) => InfixOp::Sub,
            Some(Kind::Star) => InfixOp::Mul,
            Some(Kind::Slash) => InfixOp::Div,
            _ => {
                proof {
                    if checkpoints_ok(log0) {
                        lemma_expr_resolves(log0, lx, cur0, minimum_binding_power);
                    }
                }
                return ;
            },
        };

        let (left_binding_power, right_binding_power) = op.binding_power();

        if left_binding_power < minimum_binding_power {
            proof {
                if checkpoints_ok(log0) {
                    lemma_expr_resolves(log0, lx, cur0, minimum_binding_power);
                }
            }
            return ;
        }
        let ghost rhs = expr_bp(lx, at + 1, right_binding_power);
        let ghost start = Step::StartAt { kind: Kind::BinaryExpr, checkpoint: log0.len() };
        let ghost inner = expr_log(lx, at + 1, right_binding_power, before.len() + gap + 2);
        let ghost wrapped = (token_steps(lx, cur, gap).push(token_step(lx[at as int])).push(start)
            + inner).push(Step::Finish);
        let ghost rest = infix_log(
            lx,
            at + 1 + rhs.used,
            minimum_binding_power,
            log0.len(),
            before.len() + wrapped.len(),
        );
        proof {
            lemma_join_wrap(
                before,
                token_steps(lx, cur, gap),
                token_step(lx[at as int]),
                start,
                inner,
            );
            lemma_join_rest(before, wrapped, rest);
            assert(infix_log(lx, cur, minimum_binding_power, log0.len(), before.len()) == wrapped
                + rest);
        }

        // Eat the operator's token.
        p.bump();

        p.start_node_at(checkpoint, Kind::BinaryExpr);
        expr_binding_power(p, right_binding_power);
        p.finish_node();
        proof {
            lhs = seq![
                Element::Node {
                    kind: Kind::BinaryExpr,
                    children: seen.push(leaf(lx[at as int])) + rhs.forest,
                },
            ];
            used = used + gap + 1 + rhs.used;
            assert(p.log() == before + wrapped);
        }
    }
}

} // verus!
