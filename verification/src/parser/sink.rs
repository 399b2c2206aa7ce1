//! The sink: resolves the deferred starts of an event log and replays it into a tree.

use vstd::prelude::*;
use crate::parser::event::{checkpoints_ok, log_len, log_tree, log_view, resolve, Build, Event, Step};
use crate::syntax::Kind;
use crate::tree::{
    builder_done, builder_finish, builder_finish_node, builder_new, builder_open,
    builder_start_node, builder_token, forest_len, green_tree, Element,
};

verus! {

/// Resolving keeps the number of events.
pub proof fn lemma_resolve_len(log: Seq<Step>)
    requires
        checkpoints_ok(log),
    ensures
        resolve(log).len() == log.len(),
    decreases log.len(),
{
    if log.len() > 0 {
        let front = log.drop_last();
        assert(front =~= log.take(log.len() - 1));
        lemma_checkpoints_prefix(log, log.len() - 1);
        lemma_resolve_len(front);
        assert(log.last() == log[log.len() - 1]);
    }
}

/// A prefix of a log with sound checkpoints has sound checkpoints.
pub proof fn lemma_checkpoints_prefix(log: Seq<Step>, n: int)
    requires
        checkpoints_ok(log),
        0 <= n <= log.len(),
    ensures
        checkpoints_ok(log.take(n)),
{
    let front = log.take(n);
    assert forall|i: int| 0 <= i < front.len() implies (#[trigger] front[i] matches Step::StartAt {
        checkpoint,
        ..
    } ==> checkpoint <= i) by {
        assert(front[i] == log[i]);
    }
}

/// A log that replays to the end replays up to every place before the end.
pub proof fn lemma_run_prefix(build: Build, log: Seq<Step>, n: int)
    requires
        build.run(log) is Some,
        0 <= n <= log.len(),
    ensures
        build.run(log.take(n)) is Some,
    decreases log.len() - n,
{
    if n == log.len() {
        assert(log.take(n) =~= log);
    } else {
        lemma_run_prefix(build, log, n + 1);
        assert(log.take(n + 1).drop_last() =~= log.take(n));
    }
}

/// The bytes of a run of siblings are those of its two parts, wherever it is cut.
pub proof fn lemma_forest_len_split(forest: Seq<Element>, n: int)
    requires
        0 <= n <= forest.len(),
    ensures
        forest_len(forest) == forest_len(forest.take(n)) + forest_len(forest.skip(n)),
    decreases forest.len(),
{
    if n == forest.len() {
        assert(forest.take(n) =~= forest);
        assert(forest.skip(n).len() == 0);
    } else {
        let front = forest.drop_last();
        lemma_forest_len_split(front, n);
        assert(front.take(n) =~= forest.take(n));
        assert(forest.skip(n).drop_last() =~= front.skip(n));
        assert(forest.skip(n).last() == forest.last());
    }
}

/// Replaying never loses text: what the complete elements hold is what the tokens of
/// the replayed log held, on top of what was there before.
pub proof fn lemma_run_len(build: Build, log: Seq<Step>)
    requires
        build.run(log) is Some,
    ensures
        forest_len(build.run(log)->0.done) == forest_len(build.done) + log_len(log),
    decreases log.len(),
{
    if log.len() > 0 {
        let front = log.drop_last();
        lemma_run_len(build, front);
        let mid = build.run(front)->0;
        let after = build.run(log)->0;
        assert(Some(after) == mid.step(log.last()));
        match log.last() {
            Step::Start { .. } => {
                assert(after.done == mid.done);
            },
            Step::StartAt { .. } => {},
            Step::Token { kind, text } => {
                assert(after.done.drop_last() =~= mid.done);
                assert(after.done.last() == Element::Token { kind, text });
            },
            Step::Finish => {
                let first = mid.open.last().1 as int;
                let node = Element::Node { kind: mid.open.last().0, children: mid.done.skip(first) };
                lemma_forest_len_split(mid.done, first);
                assert(after.done == mid.done.take(first).push(node));
                assert(after.done.drop_last() =~= mid.done.take(first));
                assert(after.done.last() == node);
                assert(node.text_len() == forest_len(mid.done.skip(first)));
            },
        }
    }
}

/// Putting a plain start into a log adds no text.
pub proof fn lemma_log_len_insert(log: Seq<Step>, at: int, kind: Kind)
    requires
        0 <= at <= log.len(),
    ensures
        log_len(log.insert(at, Step::Start { kind })) == log_len(log),
    decreases log.len(),
{
    let put = log.insert(at, Step::Start { kind });
    if at == log.len() {
        assert(put.drop_last() =~= log);
    } else {
        lemma_log_len_insert(log.drop_last(), at, kind);
        assert(put.drop_last() =~= log.drop_last().insert(at, Step::Start { kind }));
        assert(put.last() == log.last());
    }
}

/// Resolving a log neither adds nor loses text.
pub proof fn lemma_resolve_log_len(log: Seq<Step>)
    requires
        checkpoints_ok(log),
    ensures
        log_len(resolve(log)) == log_len(log),
    decreases log.len(),
{
    if log.len() > 0 {
        let front = log.drop_last();
        assert(front =~= log.take(log.len() - 1));
        lemma_checkpoints_prefix(log, log.len() - 1);
        lemma_resolve_log_len(front);
        lemma_resolve_len(front);
        assert(log.last() == log[log.len() - 1]);
        match log.last() {
            Step::StartAt { kind, checkpoint } => {
                lemma_log_len_insert(resolve(front), checkpoint as int, kind);
            },
            step => {
                assert(resolve(log).drop_last() =~= resolve(front));
            },
        }
    }
}

/// The text of a log grows with the log.
pub proof fn lemma_log_len_prefix(log: Seq<Step>, n: int)
    requires
        0 <= n <= log.len(),
    ensures
        log_len(log.take(n)) <= log_len(log),
    decreases log.len() - n,
{
    if n == log.len() {
        assert(log.take(n) =~= log);
    } else {
        lemma_log_len_prefix(log, n + 1);
        assert(log.take(n + 1).drop_last() =~= log.take(n));
    }
}

/// Taking an event out of a log, or putting one in, does the same to the log's values.
pub proof fn lemma_log_view_edit(events: Seq<Event>, at: int, event: Event)
    ensures
        0 <= at < events.len() ==> log_view(events.remove(at)) == log_view(events).remove(at),
        0 <= at <= events.len() ==> log_view(events.insert(at, event)) == log_view(events).insert(
            at,
            event@,
        ),
{
    if 0 <= at < events.len() {
        assert(log_view(events.remove(at)) =~= log_view(events).remove(at));
    }
    if 0 <= at <= events.len() {
        assert(log_view(events.insert(at, event)) =~= log_view(events).insert(at, event@));
    }
}

/// Moves every deferred start of the log to the place that its checkpoint marks, where
/// it becomes a plain start.
pub fn reconcile(events: Vec<Event>) -> (resolved: Vec<Event>)
    requires
        checkpoints_ok(log_view(events@)),
    ensures
        log_view(resolved@) == resolve(log_view(events@)),
{
    let ghost log = log_view(events@);
    let mut work = events;
    let mut idx: usize = 0;
    proof {
        assert(log.take(0) =~= Seq::<Step>::empty());
        assert(log_view(work@) =~= resolve(log.take(0)) + log.skip(0));
    }
    while idx < work.len()
        invariant
            checkpoints_ok(log),
            work.len() == log.len(),
            idx <= log.len(),
            log_view(work@) == resolve(log.take(idx as int)) + log.skip(idx as int),
        decreases log.len() - idx,
    {
        let ghost before = log_view(work@);
        let ghost front = resolve(log.take(idx as int));
        proof {
            lemma_checkpoints_prefix(log, idx as int);
            lemma_resolve_len(log.take(idx as int));
            assert(log.take(idx + 1).drop_last() =~= log.take(idx as int));
            assert(log.take(idx + 1).last() == log[idx as int]);
            assert(before[idx as int] == log[idx as int]);
            assert(before[idx as int] == work@[idx as int]@);
        }
        let deferred = match &work[idx] {
            Event::StartNodeAt { kind, checkpoint } => Some((*kind, *checkpoint)),
            _ => None,
        };
        match deferred {
            Some((kind, checkpoint)) => {
                let ghost whole = work@;
                work.remove(idx);
                let ghost rest = work@;
                proof {
                    assert(log[idx as int] == Step::StartAt { kind, checkpoint: checkpoint as nat });
                    assert(checkpoint <= idx);
                    lemma_log_view_edit(whole, idx as int, Event::FinishNode);
                    assert(before.remove(idx as int) =~= front + log.skip(idx + 1));
                }
                work.insert(checkpoint, Event::StartNode { kind });
                proof {
                    lemma_log_view_edit(rest, checkpoint as int, Event::StartNode { kind });
                    assert(log_view(work@) =~= front.insert(
                        checkpoint as int,
                        Step::Start { kind },
                    ) + log.skip(idx + 1));
                }
            },
            None => {
                proof {
                    assert(log_view(work@) =~= front.push(log[idx as int]) + log.skip(idx + 1));
                }
            },
        }
        idx += 1;
    }
    proof {
        assert(log.take(idx as int) =~= log);
        assert(log_view(work@) =~= resolve(log));
    }
    work
}

/// Turns a finished event log into a green tree.
pub struct Sink<'l, 'input> {
    builder: rowan::GreenNodeBuilder<'static>,
    lexemes: &'l [(Kind, &'input str)],
    events: Vec<Event>,
}

impl<'l, 'input> Sink<'l, 'input> {
    /// The log that this sink will replay.
    pub closed spec fn log(&self) -> Seq<Step> {
        log_view(self.events@)
    }

    /// Nothing has been replayed yet.
    pub closed spec fn fresh(&self) -> bool {
        &&& builder_open(self.builder) == Seq::<(Kind, nat)>::empty()
        &&& builder_done(self.builder) == Seq::<Element>::empty()
    }

    pub fn new(lexemes: &'l [(Kind, &'input str)], events: Vec<Event>) -> (sink: Self)
        ensures
            sink.log() == log_view(events@),
            sink.fresh(),
    {
        Self { builder: builder_new(), lexemes, events }
    }

    /// Builds the tree that the log describes. The log must describe one, and its
    /// text must fit the 32-bit offsets of the tree.
    pub fn finish(self) -> (node: rowan::GreenNode)
        requires
            self.fresh(),
            log_tree(self.log()) is Some,
            log_len(self.log()) <= u32::MAX,
        ensures
            Some(green_tree(node)) == log_tree(self.log()),
    {
        let ghost log = resolve(self.log());
        let mut builder = self.builder;
        let reordered_events = reconcile(self.events);
        proof {
            lemma_resolve_log_len(self.log());
            assert(log.take(0) =~= Seq::<Step>::empty());
        }
        let mut idx: usize = 0;
        while idx < reordered_events.len()
            invariant
                log == log_view(reordered_events@),
                idx <= log.len(),
                Build::empty().run(log) is Some,
                log_len(log) <= u32::MAX,
                Build::empty().run(log.take(idx as int)) == Some(
                    Build { open: builder_open(builder), done: builder_done(builder) },
                ),
            decreases log.len() - idx,
        {
            let ghost build = Build { open: builder_open(builder), done: builder_done(builder) };
            proof {
                lemma_run_prefix(Build::empty(), log, idx + 1);
                assert(log.take(idx + 1).drop_last() =~= log.take(idx as int));
                assert(log.take(idx + 1).last() == log[idx as int]);
                assert(log[idx as int] == reordered_events@[idx as int]@);
                assert(build.step(log[idx as int]) is Some);
                lemma_run_len(Build::empty(), log.take(idx as int));
                lemma_log_len_prefix(log, idx as int);
                assert(forest_len(Seq::<Element>::empty()) == 0);
            }
            match &reordered_events[idx] {
                Event::StartNode { kind } => {
                    proof {
                        crate::syntax::lemma_raw_round_trip(*kind);
                    }
                    builder_start_node(&mut builder, kind.to_raw());
                },
                Event::StartNodeAt { .. } => {
                    unreached::<()>();
                },
                Event::AddToken { kind, text } => {
                    proof {
                        crate::syntax::lemma_raw_round_trip(*kind);
                    }
                    builder_token(&mut builder, kind.to_raw(), text.as_str());
                },
                Event::FinishNode => {
                    proof {
                        lemma_forest_len_split(build.done, build.open.last().1 as int);
                    }
                    builder_finish_node(&mut builder);
                },
            }
            idx += 1;
        }
        proof {
            assert(log.take(idx as int) =~= log);
        }
        builder_finish(builder)
    }
}

} // verus!
