//! What holds of the events that the parser records for an expression.

use vstd::prelude::*;
use crate::parser::event::Step;
use crate::parser::expr::{
    expr_bp, expr_log, infix, infix_log, leaf, leaves, left, primary, primary_log, token_step,
    InfixOp,
};
use crate::parser::{root_log, token_steps, trivia_run};
use crate::syntax::Kind;
use crate::tree::Element;

verus! {

/// Whether an event may stand at `place` among the events recorded for an expression:
/// no plain start; a deferred start only for a binary or a prefix node, with a
/// checkpoint from `low` on and strictly before its own place.
pub open spec fn wrap_ok(step: Step, low: nat, place: int) -> bool {
    match step {
        Step::Start { .. } => false,
        Step::StartAt { kind, checkpoint } => low <= checkpoint < place && (kind
            == Kind::BinaryExpr || kind == Kind::PrefixExpr),
        _ => true,
    }
}

/// Every one of the events, the first of which stands at `at`, may stand where it does.
pub open spec fn wraps_ok(events: Seq<Step>, low: nat, at: nat) -> bool {
    forall|i: int| 0 <= i < events.len() ==> wrap_ok(#[trigger] events[i], low, at + i)
}

/// Token events may stand anywhere.
pub proof fn lemma_wraps_tokens(
    lexemes: Seq<(Kind, Seq<char>)>,
    from: nat,
    count: nat,
    low: nat,
    at: nat,
)
    ensures
        wraps_ok(token_steps(lexemes, from, count), low, at),
{
}

/// Two runs that may stand where they do, one behind the other, make one such run.
pub proof fn lemma_wraps_concat(a: Seq<Step>, b: Seq<Step>, low: nat, at: nat)
    requires
        wraps_ok(a, low, at),
        wraps_ok(b, low, at + a.len()),
    ensures
        wraps_ok(a + b, low, at),
{
    let all = a + b;
    assert forall|i: int| 0 <= i < all.len() implies wrap_ok(#[trigger] all[i], low, at + i) by {
        if i < a.len() {
            assert(all[i] == a[i]);
        } else {
            assert(all[i] == b[i - a.len()]);
        }
    }
}

/// One more event that may stand at the end keeps the run as it should be.
pub proof fn lemma_wraps_push(a: Seq<Step>, step: Step, low: nat, at: nat)
    requires
        wraps_ok(a, low, at),
        wrap_ok(step, low, (at + a.len()) as int),
    ensures
        wraps_ok(a.push(step), low, at),
{
    let all = a.push(step);
    assert forall|i: int| 0 <= i < all.len() implies wrap_ok(#[trigger] all[i], low, at + i) by {
        if i < a.len() {
            assert(all[i] == a[i]);
        }
    }
}

/// A run whose checkpoints start at a later place also starts them at an earlier one.
pub proof fn lemma_wraps_lower(a: Seq<Step>, low: nat, higher: nat, at: nat)
    requires
        low <= higher,
        wraps_ok(a, higher, at),
    ensures
        wraps_ok(a, low, at),
{
    assert forall|i: int| 0 <= i < a.len() implies wrap_ok(#[trigger] a[i], low, at + i) by {
        assert(wrap_ok(a[i], higher, at + i));
    }
}

/// The events recorded for an operand hold no plain start, and each deferred start
/// among them has a checkpoint from the call's own on and strictly before its place.
pub proof fn lemma_primary_wraps(lexemes: Seq<(Kind, Seq<char>)>, cursor: nat, at: nat)
    ensures
        wraps_ok(primary_log(lexemes, cursor, at), at, at),
    decreases left(lexemes, cursor), 0int,
{
    let gap = trivia_run(lexemes, cursor);
    let here = cursor + gap;
    let lead = token_steps(lexemes, cursor, gap);
    lemma_wraps_tokens(lexemes, cursor, gap, at, at);
    if here < lexemes.len() {
        let kind = lexemes[here as int].0;
        let head = lead.push(token_step(lexemes[here as int]));
        lemma_wraps_push(lead, token_step(lexemes[here as int]), at, at);
        if kind == Kind::Number || kind == Kind::Ident {
        } else if kind == Kind::Minus {
            let start = Step::StartAt { kind: Kind::PrefixExpr, checkpoint: at };
            let inner = expr_log(lexemes, here + 1, 5, at + gap + 2);
            lemma_wraps_push(head, start, at, at);
            lemma_expr_wraps(lexemes, here + 1, 5, at + gap + 2);
            lemma_wraps_lower(inner, at, at + gap + 2, at + gap + 2);
            lemma_wraps_concat(head.push(start), inner, at, at);
            lemma_wraps_push(head.push(start) + inner, Step::Finish, at, at);
        } else if kind == Kind::LParen {
            let used = expr_bp(lexemes, here + 1, 0).used;
            let after = here + 1 + used;
            let gap2 = trivia_run(lexemes, after);
            let close = after + gap2;
            let inner = expr_log(lexemes, here + 1, 0, at + gap + 1);
            let tail = token_steps(lexemes, after, gap2);
            lemma_expr_wraps(lexemes, here + 1, 0, at + gap + 1);
            lemma_wraps_lower(inner, at, at + gap + 1, at + gap + 1);
            lemma_wraps_concat(head, inner, at, at);
            lemma_wraps_tokens(lexemes, after, gap2, at, at + (head + inner).len());
            lemma_wraps_concat(head + inner, tail, at, at);
            if close < lexemes.len() {
                lemma_wraps_push(head + inner + tail, token_step(lexemes[close as int]), at, at);
            }
        }
    }
}

/// The events recorded for an expression hold no plain start, and each deferred start
/// among them is for a binary or a prefix node, with a checkpoint at or behind the end
/// of the log as it was and strictly before its own place.
pub proof fn lemma_expr_wraps(lexemes: Seq<(Kind, Seq<char>)>, cursor: nat, min_bp: u8, at: nat)
    ensures
        wraps_ok(expr_log(lexemes, cursor, min_bp, at), at, at),
    decreases left(lexemes, cursor), 2int,
{
    let first = primary_log(lexemes, cursor, at);
    let next = cursor + primary(lexemes, cursor).used;
    lemma_primary_wraps(lexemes, cursor, at);
    lemma_infix_wraps(lexemes, next, min_bp, at, at + first.len());
    lemma_wraps_concat(first, infix_log(lexemes, next, min_bp, at, at + first.len()), at, at);
}

/// The events recorded behind a parsed left side hold no plain start, and each
/// deferred start among them has a checkpoint from the call's own on and strictly
/// before its place.
pub proof fn lemma_infix_wraps(
    lexemes: Seq<(Kind, Seq<char>)>,
    cursor: nat,
    min_bp: u8,
    checkpoint: nat,
    at: nat,
)
    requires
        checkpoint <= at,
    ensures
        wraps_ok(infix_log(lexemes, cursor, min_bp, checkpoint, at), checkpoint, at),
    decreases left(lexemes, cursor), 1int,
{
    let gap = trivia_run(lexemes, cursor);
    let here = cursor + gap;
    let lead = token_steps(lexemes, cursor, gap);
    lemma_wraps_tokens(lexemes, cursor, gap, checkpoint, at);
    let wrap = here < lexemes.len() && (InfixOp::of_kind(lexemes[here as int].0) matches Some(op)
        && op.power().0 >= min_bp);
    if wrap {
        let op = InfixOp::of_kind(lexemes[here as int].0)->0;
        let start = Step::StartAt { kind: Kind::BinaryExpr, checkpoint };
        let head = lead.push(token_step(lexemes[here as int]));
        let inner = expr_log(lexemes, here + 1, op.power().1, at + gap + 2);
        let wrapped = (head.push(start) + inner).push(Step::Finish);
        let next = here + 1 + expr_bp(lexemes, here + 1, op.power().1).used;
        lemma_wraps_push(lead, token_step(lexemes[here as int]), checkpoint, at);
        lemma_wraps_push(head, start, checkpoint, at);
        lemma_expr_wraps(lexemes, here + 1, op.power().1, at + gap + 2);
        lemma_wraps_lower(inner, checkpoint, at + gap + 2, at + gap + 2);
        lemma_wraps_concat(head.push(start), inner, checkpoint, at);
        lemma_wraps_push(head.push(start) + inner, Step::Finish, checkpoint, at);
        lemma_infix_wraps(lexemes, next, min_bp, checkpoint, at + wrapped.len());
        lemma_wraps_concat(
            wrapped,
            infix_log(lexemes, next, min_bp, checkpoint, at + wrapped.len()),
            checkpoint,
            at,
        );
    }
}

/// The token events among the events, in order.
pub open spec fn tokens_of(events: Seq<Step>) -> Seq<Step>
    decreases events.len(),
{
    if events.len() == 0 {
        Seq::empty()
    } else if events.last() is Token {
        tokens_of(events.drop_last()).push(events.last())
    } else {
        tokens_of(events.drop_last())
    }
}

/// The token events of a run with one more event.
pub proof fn lemma_tokens_push(a: Seq<Step>, step: Step)
    ensures
        tokens_of(a.push(step)) == if step is Token {
            tokens_of(a).push(step)
        } else {
            tokens_of(a)
        },
{
    assert(a.push(step).drop_last() =~= a);
}

/// The token events of two runs, one behind the other.
pub proof fn lemma_tokens_concat(a: Seq<Step>, b: Seq<Step>)
    ensures
        tokens_of(a + b) == tokens_of(a) + tokens_of(b),
    decreases b.len(),
{
    if b.len() == 0 {
        assert(a + b =~= a);
        assert(tokens_of(a) + tokens_of(b) =~= tokens_of(a));
    } else {
        lemma_tokens_concat(a, b.drop_last());
        assert((a + b).drop_last() =~= a + b.drop_last());
        assert((a + b).last() == b.last());
        assert(tokens_of(a + b) =~= tokens_of(a) + tokens_of(b));
    }
}

/// A run of token events holds token events only.
pub proof fn lemma_tokens_of_tokens(lexemes: Seq<(Kind, Seq<char>)>, from: nat, count: nat)
    ensures
        tokens_of(token_steps(lexemes, from, count)) == token_steps(lexemes, from, count),
    decreases count,
{
    let all = token_steps(lexemes, from, count);
    if count > 0 {
        lemma_tokens_of_tokens(lexemes, from, (count - 1) as nat);
        assert(all.drop_last() =~= token_steps(lexemes, from, (count - 1) as nat));
        assert(tokens_of(all) =~= all);
    } else {
        assert(tokens_of(all) =~= all);
    }
}

/// A run of token events can be cut at any lexeme.
pub proof fn lemma_token_steps_split(lexemes: Seq<(Kind, Seq<char>)>, from: nat, a: nat, b: nat)
    ensures
        token_steps(lexemes, from, a + b) == token_steps(lexemes, from, a) + token_steps(
            lexemes,
            from + a,
            b,
        ),
        token_steps(lexemes, from, a + 1) == token_steps(lexemes, from, a).push(
            token_step(lexemes[(from + a) as int]),
        ),
{
    assert(token_steps(lexemes, from, a + b) =~= token_steps(lexemes, from, a) + token_steps(
        lexemes,
        from + a,
        b,
    ));
    assert(token_steps(lexemes, from, a + 1) =~= token_steps(lexemes, from, a).push(
        token_step(lexemes[(from + a) as int]),
    ));
}

/// The token events recorded for an operand are exactly the lexemes it consumed, in
/// order, each once.
pub proof fn lemma_primary_tokens(lexemes: Seq<(Kind, Seq<char>)>, cursor: nat, at: nat)
    ensures
        tokens_of(primary_log(lexemes, cursor, at)) == token_steps(
            lexemes,
            cursor,
            primary(lexemes, cursor).used,
        ),
    decreases left(lexemes, cursor), 0int,
{
    let gap = trivia_run(lexemes, cursor);
    let here = cursor + gap;
    let lead = token_steps(lexemes, cursor, gap);
    lemma_tokens_of_tokens(lexemes, cursor, gap);
    if here < lexemes.len() {
        let kind = lexemes[here as int].0;
        let token = token_step(lexemes[here as int]);
        let head = lead.push(token);
        lemma_tokens_push(lead, token);
        lemma_token_steps_split(lexemes, cursor, gap, 0);
        assert(tokens_of(head) == token_steps(lexemes, cursor, gap + 1));
        if kind == Kind::Number || kind == Kind::Ident {
        } else if kind == Kind::Minus {
            let start = Step::StartAt { kind: Kind::PrefixExpr, checkpoint: at };
            let inner = expr_log(lexemes, here + 1, 5, at + gap + 2);
            let used = expr_bp(lexemes, here + 1, 5).used;
            lemma_tokens_push(head, start);
            lemma_expr_tokens(lexemes, here + 1, 5, at + gap + 2);
            lemma_tokens_concat(head.push(start), inner);
            lemma_tokens_push(head.push(start) + inner, Step::Finish);
            lemma_token_steps_split(lexemes, cursor, gap + 1, used);
        } else if kind == Kind::LParen {
            let used = expr_bp(lexemes, here + 1, 0).used;
            let after = here + 1 + used;
            let gap2 = trivia_run(lexemes, after);
            let close = after + gap2;
            let inner = expr_log(lexemes, here + 1, 0, at + gap + 1);
            let tail = token_steps(lexemes, after, gap2);
            lemma_expr_tokens(lexemes, here + 1, 0, at + gap + 1);
            lemma_tokens_concat(head, inner);
            lemma_token_steps_split(lexemes, cursor, gap + 1, used);
            lemma_tokens_of_tokens(lexemes, after, gap2);
            lemma_tokens_concat(head + inner, tail);
            lemma_token_steps_split(lexemes, cursor, gap + 1 + used, gap2);
            if close < lexemes.len() && lexemes[close as int].0 == Kind::RParen {
                lemma_tokens_push(head + inner + tail, token_step(lexemes[close as int]));
                lemma_token_steps_split(lexemes, cursor, gap + 1 + used + gap2, 0);
            }
        }
    }
}

/// The token events recorded for an expression are exactly the lexemes it consumed, in
/// order, each once.
pub proof fn lemma_expr_tokens(lexemes: Seq<(Kind, Seq<char>)>, cursor: nat, min_bp: u8, at: nat)
    ensures
        tokens_of(expr_log(lexemes, cursor, min_bp, at)) == token_steps(
            lexemes,
            cursor,
            expr_bp(lexemes, cursor, min_bp).used,
        ),
    decreases left(lexemes, cursor), 2int,
{
    let first = primary_log(lexemes, cursor, at);
    let operand = primary(lexemes, cursor);
    let next = cursor + operand.used;
    lemma_primary_tokens(lexemes, cursor, at);
    lemma_infix_tokens(lexemes, next, min_bp, at, at + first.len(), operand.forest);
    lemma_tokens_concat(first, infix_log(lexemes, next, min_bp, at, at + first.len()));
    lemma_token_steps_split(
        lexemes,
        cursor,
        operand.used,
        infix(lexemes, next, min_bp, operand.forest).used,
    );
}

/// The token events recorded behind a parsed left side are exactly the lexemes
/// consumed behind it, in order, each once.
pub proof fn lemma_infix_tokens(
    lexemes: Seq<(Kind, Seq<char>)>,
    cursor: nat,
    min_bp: u8,
    checkpoint: nat,
    at: nat,
    lhs: Seq<Element>,
)
    ensures
        tokens_of(infix_log(lexemes, cursor, min_bp, checkpoint, at)) == token_steps(
            lexemes,
            cursor,
            infix(lexemes, cursor, min_bp, lhs).used,
        ),
    decreases left(lexemes, cursor), 1int,
{
    let gap = trivia_run(lexemes, cursor);
    let here = cursor + gap;
    let lead = token_steps(lexemes, cursor, gap);
    lemma_tokens_of_tokens(lexemes, cursor, gap);
    let wrap = here < lexemes.len() && (InfixOp::of_kind(lexemes[here as int].0) matches Some(op)
        && op.power().0 >= min_bp);
    if wrap {
        let op = InfixOp::of_kind(lexemes[here as int].0)->0;
        let start = Step::StartAt { kind: Kind::BinaryExpr, checkpoint };
        let token = token_step(lexemes[here as int]);
        let head = lead.push(token);
        let inner = expr_log(lexemes, here + 1, op.power().1, at + gap + 2);
        let wrapped = (head.push(start) + inner).push(Step::Finish);
        let rhs = expr_bp(lexemes, here + 1, op.power().1);
        let next = here + 1 + rhs.used;
        let seen = lhs + leaves(lexemes, cursor, gap);
        let node = Element::Node {
            kind: Kind::BinaryExpr,
            children: seen.push(leaf(lexemes[here as int])) + rhs.forest,
        };
        let rest = infix_log(lexemes, next, min_bp, checkpoint, at + wrapped.len());
        lemma_tokens_push(lead, token);
        lemma_token_steps_split(lexemes, cursor, gap, 0);
        lemma_tokens_push(head, start);
        lemma_expr_tokens(lexemes, here + 1, op.power().1, at + gap + 2);
        lemma_tokens_concat(head.push(start), inner);
        lemma_tokens_push(head.push(start) + inner, Step::Finish);
        lemma_token_steps_split(lexemes, cursor, gap + 1, rhs.used);
        assert(tokens_of(wrapped) == token_steps(lexemes, cursor, gap + 1 + rhs.used));
        lemma_infix_tokens(lexemes, next, min_bp, checkpoint, at + wrapped.len(), seq![node]);
        lemma_tokens_concat(wrapped, rest);
        lemma_token_steps_split(
            lexemes,
            cursor,
            gap + 1 + rhs.used,
            infix(lexemes, next, min_bp, seq![node]).used,
        );
    }
}

/// How many of the events start a node, at once or deferred.
pub open spec fn starts(events: Seq<Step>) -> nat
    decreases events.len(),
{
    if events.len() == 0 {
        0
    } else if events.last() is Start || events.last() is StartAt {
        starts(events.drop_last()) + 1
    } else {
        starts(events.drop_last())
    }
}

/// How many of the events finish a node.
pub open spec fn finishes(events: Seq<Step>) -> nat
    decreases events.len(),
{
    if events.len() == 0 {
        0
    } else if events.last() is Finish {
        finishes(events.drop_last()) + 1
    } else {
        finishes(events.drop_last())
    }
}

/// The starts and the finishes of the events pair up: there are as many of the one as
/// of the other, and up to no place more finishes than starts.
pub open spec fn paired(events: Seq<Step>) -> bool {
    &&& finishes(events) == starts(events)
    &&& forall|k: int|
        0 <= k <= events.len() ==> finishes(#[trigger] events.take(k)) <= starts(events.take(k))
}

/// The starts and finishes of two runs, one behind the other, add up.
pub proof fn lemma_counts_concat(a: Seq<Step>, b: Seq<Step>)
    ensures
        starts(a + b) == starts(a) + starts(b),
        finishes(a + b) == finishes(a) + finishes(b),
    decreases b.len(),
{
    if b.len() == 0 {
        assert(a + b =~= a);
    } else {
        lemma_counts_concat(a, b.drop_last());
        assert((a + b).drop_last() =~= a + b.drop_last());
        assert((a + b).last() == b.last());
    }
}

/// The starts and finishes of a run of one event.
pub proof fn lemma_counts_one(step: Step)
    ensures
        starts(seq![step]) == if step is Start || step is StartAt {
            1nat
        } else {
            0nat
        },
        finishes(seq![step]) == if step is Finish {
            1nat
        } else {
            0nat
        },
{
    let one = seq![step];
    assert(one.drop_last().len() == 0);
    assert(starts(one.drop_last()) == 0);
    assert(finishes(one.drop_last()) == 0);
    assert(one.last() == step);
}

/// Token events start and finish nothing.
pub proof fn lemma_counts_tokens(lexemes: Seq<(Kind, Seq<char>)>, from: nat, count: nat)
    ensures
        starts(token_steps(lexemes, from, count)) == 0,
        finishes(token_steps(lexemes, from, count)) == 0,
    decreases count,
{
    let all = token_steps(lexemes, from, count);
    if count > 0 {
        lemma_counts_tokens(lexemes, from, (count - 1) as nat);
        assert(all.drop_last() =~= token_steps(lexemes, from, (count - 1) as nat));
    }
}

/// In a run of token events the starts and finishes pair up, there being none.
pub proof fn lemma_paired_tokens(lexemes: Seq<(Kind, Seq<char>)>, from: nat, count: nat)
    ensures
        paired(token_steps(lexemes, from, count)),
{
    let all = token_steps(lexemes, from, count);
    lemma_counts_tokens(lexemes, from, count);
    assert forall|k: int| 0 <= k <= all.len() implies finishes(#[trigger] all.take(k)) <= starts(
        all.take(k),
    ) by {
        lemma_counts_tokens(lexemes, from, k as nat);
        assert(all.take(k) =~= token_steps(lexemes, from, k as nat));
    }
}

/// Two runs whose starts and finishes pair up, one behind the other, pair up.
pub proof fn lemma_paired_concat(a: Seq<Step>, b: Seq<Step>)
    requires
        paired(a),
        paired(b),
    ensures
        paired(a + b),
{
    let all = a + b;
    lemma_counts_concat(a, b);
    assert forall|k: int| 0 <= k <= all.len() implies finishes(#[trigger] all.take(k)) <= starts(
        all.take(k),
    ) by {
        if k <= a.len() {
            assert(all.take(k) =~= a.take(k));
        } else {
            assert(all.take(k) =~= a + b.take(k - a.len()));
            lemma_counts_concat(a, b.take(k - a.len()));
            assert(a.take(a.len() as int) =~= a);
        }
    }
}

/// A start, a paired run and a finish pair up.
pub proof fn lemma_paired_around(start: Step, inner: Seq<Step>)
    requires
        start is Start || start is StartAt,
        paired(inner),
    ensures
        paired((seq![start] + inner).push(Step::Finish)),
{
    let head = seq![start];
    let tail = seq![Step::Finish];
    let all = (head + inner).push(Step::Finish);
    lemma_counts_one(start);
    lemma_counts_one(Step::Finish);
    lemma_counts_concat(head, inner);
    lemma_counts_concat(head + inner, tail);
    assert(all =~= head + inner + tail);
    assert forall|k: int| 0 <= k <= all.len() implies finishes(#[trigger] all.take(k)) <= starts(
        all.take(k),
    ) by {
        if k == 0 {
            assert(all.take(k).len() == 0);
        } else if k <= 1 + inner.len() {
            assert(all.take(k) =~= head + inner.take(k - 1));
            lemma_counts_concat(head, inner.take(k - 1));
        } else {
            assert(all.take(k) =~= all);
        }
    }
}

/// A token, then a deferred start, a paired run and a finish, behind trivia: the run
/// that one wrap records pairs up.
pub proof fn lemma_paired_wrap(
    lexemes: Seq<(Kind, Seq<char>)>,
    from: nat,
    count: nat,
    start: Step,
    inner: Seq<Step>,
)
    requires
        start is StartAt,
        paired(inner),
    ensures
        paired(
            (token_steps(lexemes, from, count + 1).push(start) + inner).push(Step::Finish),
        ),
{
    let tokens = token_steps(lexemes, from, count + 1);
    let around = (seq![start] + inner).push(Step::Finish);
    lemma_paired_tokens(lexemes, from, count + 1);
    lemma_paired_around(start, inner);
    lemma_paired_concat(tokens, around);
    assert((tokens.push(start) + inner).push(Step::Finish) =~= tokens + around);
}

/// In the events recorded for an operand the deferred starts pair up with the
/// finishes.
pub proof fn lemma_primary_paired(lexemes: Seq<(Kind, Seq<char>)>, cursor: nat, at: nat)
    ensures
        paired(primary_log(lexemes, cursor, at)),
    decreases left(lexemes, cursor), 0int,
{
    let gap = trivia_run(lexemes, cursor);
    let here = cursor + gap;
    let lead = token_steps(lexemes, cursor, gap);
    lemma_paired_tokens(lexemes, cursor, gap);
    if here < lexemes.len() {
        let kind = lexemes[here as int].0;
        let head = lead.push(token_step(lexemes[here as int]));
        lemma_token_steps_split(lexemes, cursor, gap, 0);
        lemma_paired_tokens(lexemes, cursor, gap + 1);
        if kind == Kind::Number || kind == Kind::Ident {
        } else if kind == Kind::Minus {
            let start = Step::StartAt { kind: Kind::PrefixExpr, checkpoint: at };
            lemma_expr_paired(lexemes, here + 1, 5, at + gap + 2);
            lemma_paired_wrap(
                lexemes,
                cursor,
                gap,
                start,
                expr_log(lexemes, here + 1, 5, at + gap + 2),
            );
        } else if kind == Kind::LParen {
            let used = expr_bp(lexemes, here + 1, 0).used;
            let after = here + 1 + used;
            let gap2 = trivia_run(lexemes, after);
            let close = after + gap2;
            let inner = expr_log(lexemes, here + 1, 0, at + gap + 1);
            let tail = token_steps(lexemes, after, gap2);
            lemma_expr_paired(lexemes, here + 1, 0, at + gap + 1);
            lemma_paired_concat(head, inner);
            lemma_paired_tokens(lexemes, after, gap2);
            lemma_paired_concat(head + inner, tail);
            if close < lexemes.len() {
                lemma_paired_tokens(lexemes, close, 1);
                lemma_paired_concat(head + inner + tail, token_steps(lexemes, close, 1));
                assert((head + inner + tail).push(token_step(lexemes[close as int])) =~= head
                    + inner + tail + token_steps(lexemes, close, 1));
            }
        }
    }
}

/// In the events recorded for an expression the deferred starts pair up with the
/// finishes: there are as many of the one as of the other, and up to no place more
/// finishes than starts.
pub proof fn lemma_expr_paired(lexemes: Seq<(Kind, Seq<char>)>, cursor: nat, min_bp: u8, at: nat)
    ensures
        paired(expr_log(lexemes, cursor, min_bp, at)),
    decreases left(lexemes, cursor), 2int,
{
    let first = primary_log(lexemes, cursor, at);
    let next = cursor + primary(lexemes, cursor).used;
    lemma_primary_paired(lexemes, cursor, at);
    lemma_infix_paired(lexemes, next, min_bp, at, at + first.len());
    lemma_paired_concat(first, infix_log(lexemes, next, min_bp, at, at + first.len()));
}

/// In the events recorded behind a parsed left side the deferred starts pair up with
/// the finishes.
pub proof fn lemma_infix_paired(
    lexemes: Seq<(Kind, Seq<char>)>,
    cursor: nat,
    min_bp: u8,
    checkpoint: nat,
    at: nat,
)
    ensures
        paired(infix_log(lexemes, cursor, min_bp, checkpoint, at)),
    decreases left(lexemes, cursor), 1int,
{
    let gap = trivia_run(lexemes, cursor);
    let here = cursor + gap;
    let lead = token_steps(lexemes, cursor, gap);
    lemma_paired_tokens(lexemes, cursor, gap);
    let wrap = here < lexemes.len() && (InfixOp::of_kind(lexemes[here as int].0) matches Some(op)
        && op.power().0 >= min_bp);
    if wrap {
        let op = InfixOp::of_kind(lexemes[here as int].0)->0;
        let start = Step::StartAt { kind: Kind::BinaryExpr, checkpoint };
        let head = lead.push(token_step(lexemes[here as int]));
        let inner = expr_log(lexemes, here + 1, op.power().1, at + gap + 2);
        let wrapped = (head.push(start) + inner).push(Step::Finish);
        let next = here + 1 + expr_bp(lexemes, here + 1, op.power().1).used;
        lemma_token_steps_split(lexemes, cursor, gap, 0);
        lemma_expr_paired(lexemes, here + 1, op.power().1, at + gap + 2);
        lemma_paired_wrap(lexemes, cursor, gap, start, inner);
        lemma_infix_paired(lexemes, next, min_bp, checkpoint, at + wrapped.len());
        lemma_paired_concat(
            wrapped,
            infix_log(lexemes, next, min_bp, checkpoint, at + wrapped.len()),
        );
    }
}

/// The log that parsing leaves, where nothing was there before: the start of the root
/// comes first and is the only plain start, the finish of the root comes last, every
/// deferred start between them is for a binary or a prefix node and has a checkpoint
/// behind the root's start and strictly before its own place, and the token events
/// are exactly the consumed lexemes.
pub proof fn lemma_root_shape(lexemes: Seq<(Kind, Seq<char>)>, cursor: nat)
    ensures
        root_log(Seq::empty(), lexemes, cursor) == (seq![Step::Start { kind: Kind::Root }]
            + expr_log(lexemes, cursor, 0, 1)).push(Step::Finish),
        wraps_ok(expr_log(lexemes, cursor, 0, 1), 1, 1),
        paired(expr_log(lexemes, cursor, 0, 1)),
        paired(root_log(Seq::empty(), lexemes, cursor)),
        tokens_of(root_log(Seq::empty(), lexemes, cursor)) == token_steps(
            lexemes,
            cursor,
            expr_bp(lexemes, cursor, 0).used,
        ),
{
    let first = Step::Start { kind: Kind::Root };
    let inner = expr_log(lexemes, cursor, 0, 1);
    assert(Seq::<Step>::empty().push(first) =~= seq![first]);
    lemma_expr_wraps(lexemes, cursor, 0, 1);
    lemma_expr_paired(lexemes, cursor, 0, 1);
    lemma_paired_around(first, inner);
    lemma_expr_tokens(lexemes, cursor, 0, 1);
    lemma_tokens_concat(seq![first], inner);
    lemma_tokens_push(seq![first] + inner, Step::Finish);
    lemma_tokens_push(Seq::empty(), first);
    assert(tokens_of(Seq::<Step>::empty()) =~= Seq::<Step>::empty());
    assert(Seq::<Step>::empty() + tokens_of(inner) =~= tokens_of(inner));
}

} // verus!
