//! The event log: what the parser records, and what a log means as a tree.

use vstd::prelude::*;
use crate::parser::sink::{lemma_checkpoints_prefix, lemma_resolve_len};
use crate::syntax::Kind;
use crate::tree::Element;

verus! {

/// One instruction of the event log.
#[derive(Debug, Clone, PartialEq, Eq)]
pub enum Event {
    /// Open a node here.
    StartNode { kind: Kind },
    /// Open a node at the earlier place of the log that `checkpoint` marks.
    StartNodeAt { kind: Kind, checkpoint: usize },
    /// Add one lexeme as a leaf.
    AddToken { kind: Kind, text: String },
    /// Close the innermost open node.
    FinishNode,
}

/// An event as a value.
pub enum Step {
    Start { kind: Kind },
    StartAt { kind: Kind, checkpoint: nat },
    Token { kind: Kind, text: Seq<char> },
    Finish,
}

impl View for Event {
    type V = Step;

    open spec fn view(&self) -> Step {
        match self {
            Event::StartNode { kind } => Step::Start { kind: *kind },
            Event::StartNodeAt { kind, checkpoint } => Step::StartAt {
                kind: *kind,
                checkpoint: *checkpoint as nat,
            },
            Event::AddToken { kind, text } => Step::Token { kind: *kind, text: text@ },
            Event::FinishNode => Step::Finish,
        }
    }
}

/// A log of events as a sequence of values.
pub open spec fn log_view(events: Seq<Event>) -> Seq<Step> {
    events.map_values(|e: Event| e@)
}

/// Every deferred start of the log marks a place at or before its own.
pub open spec fn checkpoints_ok(log: Seq<Step>) -> bool {
    forall|i: int|
        0 <= i < log.len() ==> (#[trigger] log[i] matches Step::StartAt { checkpoint, .. }
            ==> checkpoint <= i)
}

/// The log with every deferred start moved to the place it marks: each event is
/// appended in turn, but a deferred start is put in, as a plain start, at its
/// checkpoint in what has been resolved so far.
pub open spec fn resolve(log: Seq<Step>) -> Seq<Step>
    decreases log.len(),
{
    if log.len() == 0 {
        Seq::empty()
    } else {
        let before = resolve(log.drop_last());
        match log.last() {
            Step::StartAt { kind, checkpoint } => before.insert(
                checkpoint as int,
                Step::Start { kind },
            ),
            step => before.push(step),
        }
    }
}

/// The state of a tree under construction: the open nodes, innermost last, each with
/// its kind and the number of elements that were complete when it was opened; and the
/// complete elements that no finished node has adopted yet.
pub struct Build {
    pub open: Seq<(Kind, nat)>,
    pub done: Seq<Element>,
}

impl Build {
    pub open spec fn empty() -> Build {
        Build { open: Seq::empty(), done: Seq::empty() }
    }

    /// The state after one more event; `None` where the event cannot be replayed: a
    /// deferred start, or a finish with no node open.
    pub open spec fn step(self, step: Step) -> Option<Build> {
        match step {
            Step::Start { kind } => Some(
                Build { open: self.open.push((kind, self.done.len())), done: self.done },
            ),
            Step::StartAt { .. } => None,
            Step::Token { kind, text } => Some(
                Build { open: self.open, done: self.done.push(Element::Token { kind, text }) },
            ),
            Step::Finish => if self.open.len() > 0 && self.open.last().1 <= self.done.len() {
                let (kind, first) = self.open.last();
                Some(
                    Build {
                        open: self.open.drop_last(),
                        done: self.done.take(first as int).push(
                            Element::Node { kind, children: self.done.skip(first as int) },
                        ),
                    },
                )
            } else {
                None
            },
        }
    }

    /// The state after replaying a whole log from this state.
    pub open spec fn run(self, log: Seq<Step>) -> Option<Build>
        decreases log.len(),
    {
        if log.len() == 0 {
            Some(self)
        } else {
            match self.run(log.drop_last()) {
                Some(build) => build.step(log.last()),
                None => None,
            }
        }
    }
}

/// The number of bytes of text that the tokens of a log hold.
pub open spec fn log_len(log: Seq<Step>) -> nat
    decreases log.len(),
{
    if log.len() == 0 {
        0
    } else {
        log_len(log.drop_last()) + match log.last() {
            Step::Token { kind, text } => (Element::Token { kind, text }).text_len(),
            _ => 0,
        }
    }
}

/// The tree that a log describes: its deferred starts resolved, it replays from
/// nothing to exactly one complete node. `None` for a log that describes no tree.
pub open spec fn log_tree(log: Seq<Step>) -> Option<Element> {
    if checkpoints_ok(log) {
        match Build::empty().run(resolve(log)) {
            Some(build) => if build.done.len() == 1 && build.done[0] is Node {
                Some(build.done[0])
            } else {
                None
            },
            None => None,
        }
    } else {
        None
    }
}

/// The events that spell an element out: a token is one event, a node is a start, its
/// children in order, and a finish.
pub open spec fn flatten(element: Element) -> Seq<Step>
    decreases element,
{
    match element {
        Element::Token { kind, text } => seq![Step::Token { kind, text }],
        Element::Node { kind, children } => seq![Step::Start { kind }] + flatten_all(children)
            + seq![Step::Finish],
    }
}

/// The events that spell a run of siblings out.
pub open spec fn flatten_all(forest: Seq<Element>) -> Seq<Step>
    decreases forest,
{
    if forest.len() == 0 {
        Seq::empty()
    } else {
        flatten_all(forest.drop_last()) + flatten(forest.last())
    }
}

/// No event of the log is a deferred start.
pub open spec fn plain(log: Seq<Step>) -> bool {
    forall|i: int| 0 <= i < log.len() ==> !(#[trigger] log[i] is StartAt)
}

/// The events of two runs of siblings, one after the other, spell the joined run out.
pub proof fn lemma_flatten_all_concat(a: Seq<Element>, b: Seq<Element>)
    ensures
        flatten_all(a + b) == flatten_all(a) + flatten_all(b),
    decreases b.len(),
{
    if b.len() == 0 {
        assert(a + b =~= a);
        assert(flatten_all(a) + flatten_all(b) =~= flatten_all(a));
    } else {
        lemma_flatten_all_concat(a, b.drop_last());
        assert((a + b).drop_last() =~= a + b.drop_last());
        assert((a + b).last() == b.last());
        assert(flatten_all(a + b) =~= flatten_all(a) + flatten_all(b));
    }
}

/// A single element spells out the same alone as in a run of one.
pub proof fn lemma_flatten_all_one(element: Element)
    ensures
        flatten_all(seq![element]) == flatten(element),
{
    let one = seq![element];
    assert(one.drop_last().len() == 0);
    assert(flatten_all(one.drop_last()) =~= Seq::<Step>::empty());
    assert(one.last() == element);
    assert(flatten_all(one) =~= flatten(element));
}

/// A resolved log holds no deferred start: only plain starts, tokens and finishes.
pub proof fn lemma_resolved_plain(log: Seq<Step>)
    requires
        checkpoints_ok(log),
    ensures
        plain(resolve(log)),
    decreases log.len(),
{
    if log.len() > 0 {
        let front = log.drop_last();
        assert(front =~= log.take(log.len() - 1));
        lemma_checkpoints_prefix(log, log.len() - 1);
        lemma_resolved_plain(front);
        lemma_resolve_len(front);
        assert(log.last() == log[log.len() - 1]);
        let before = resolve(front);
        let after = resolve(log);
        match log.last() {
            Step::StartAt { kind, checkpoint } => {
                assert forall|i: int| 0 <= i < after.len() implies !(#[trigger] after[i] is StartAt) by {
                    if i < checkpoint {
                        assert(after[i] == before[i]);
                    } else if i > checkpoint {
                        assert(after[i] == before[i - 1]);
                    }
                }
            },
            step => {
                assert forall|i: int| 0 <= i < after.len() implies !(#[trigger] after[i] is StartAt) by {
                    if i < before.len() {
                        assert(after[i] == before[i]);
                    }
                }
            },
        }
    }
}

/// Resolving a log that ends in events without a deferred start resolves what stands
/// before them and leaves them as they are.
pub proof fn lemma_resolve_plain(log: Seq<Step>, tail: Seq<Step>)
    requires
        plain(tail),
    ensures
        resolve(log + tail) == resolve(log) + tail,
    decreases tail.len(),
{
    if tail.len() == 0 {
        assert(log + tail =~= log);
        assert(resolve(log) + tail =~= resolve(log));
    } else {
        let front = tail.drop_last();
        assert(plain(front)) by {
            assert forall|i: int| 0 <= i < front.len() implies !(#[trigger] front[i] is StartAt) by {
                assert(front[i] == tail[i]);
            }
        }
        lemma_resolve_plain(log, front);
        assert((log + tail).drop_last() =~= log + front);
        assert((log + tail).last() == tail[tail.len() - 1]);
        assert(resolve(log + tail) =~= resolve(log) + tail);
    }
}

/// What resolving makes of a log with one more event.
pub proof fn lemma_resolve_push(log: Seq<Step>, step: Step)
    ensures
        resolve(log.push(step)) == match step {
            Step::StartAt { kind, checkpoint } => resolve(log).insert(
                checkpoint as int,
                Step::Start { kind },
            ),
            other => resolve(log).push(other),
        },
{
    assert(log.push(step).drop_last() =~= log);
}

/// Checkpoints stay sound when events without a deferred start follow.
pub proof fn lemma_checkpoints_plain(log: Seq<Step>, tail: Seq<Step>)
    requires
        checkpoints_ok(log),
        plain(tail),
    ensures
        checkpoints_ok(log + tail),
{
    let whole = log + tail;
    assert forall|i: int| 0 <= i < whole.len() implies (#[trigger] whole[i] matches Step::StartAt {
        checkpoint,
        ..
    } ==> checkpoint <= i) by {
        if i < log.len() {
            assert(whole[i] == log[i]);
        } else {
            assert(whole[i] == tail[i - log.len()]);
        }
    }
}

/// Checkpoints stay sound when one more event follows whose checkpoint, if it has one,
/// marks a place of the log.
pub proof fn lemma_checkpoints_push(log: Seq<Step>, step: Step)
    requires
        checkpoints_ok(log),
        step matches Step::StartAt { checkpoint, .. } ==> checkpoint <= log.len(),
    ensures
        checkpoints_ok(log.push(step)),
{
    let whole = log.push(step);
    assert forall|i: int| 0 <= i < whole.len() implies (#[trigger] whole[i] matches Step::StartAt {
        checkpoint,
        ..
    } ==> checkpoint <= i) by {
        if i < log.len() {
            assert(whole[i] == log[i]);
        }
    }
}

/// Replaying two logs in a row is replaying the second from where the first ended.
pub proof fn lemma_run_concat(build: Build, a: Seq<Step>, b: Seq<Step>)
    ensures
        build.run(a + b) == match build.run(a) {
            Some(mid) => mid.run(b),
            None => None,
        },
    decreases b.len(),
{
    if b.len() == 0 {
        assert(a + b =~= a);
    } else {
        lemma_run_concat(build, a, b.drop_last());
        assert((a + b).drop_last() =~= a + b.drop_last());
        assert((a + b).last() == b.last());
    }
}

/// Replaying the events that spell an element out completes exactly that element.
pub proof fn lemma_run_flatten(build: Build, element: Element)
    ensures
        build.run(flatten(element)) == Some(
            Build { open: build.open, done: build.done.push(element) },
        ),
    decreases element, 1int,
{
    match element {
        Element::Token { kind, text } => {
            let log = flatten(element);
            assert(log.drop_last() =~= Seq::<Step>::empty());
            assert(build.run(log.drop_last()) == Some(build));
        },
        Element::Node { kind, children } => {
            let head = seq![Step::Start { kind }];
            let opened = Build { open: build.open.push((kind, build.done.len())), done: build.done };
            let filled = Build { open: opened.open, done: build.done + children };
            assert(head.drop_last() =~= Seq::<Step>::empty());
            assert(build.run(head.drop_last()) == Some(build));
            assert(build.run(head) == Some(opened));
            lemma_run_flatten_all(opened, children);
            lemma_run_concat(build, head, flatten_all(children));
            let body = head + flatten_all(children);
            assert(build.run(body) == Some(filled));
            assert(flatten(element) =~= body.push(Step::Finish));
            assert(body.push(Step::Finish).drop_last() =~= body);
            assert(filled.done.take(build.done.len() as int) =~= build.done);
            assert(filled.done.skip(build.done.len() as int) =~= children);
            assert(opened.open.drop_last() =~= build.open);
        },
    }
}

/// Replaying the events that spell a run of siblings out completes exactly that run.
pub proof fn lemma_run_flatten_all(build: Build, forest: Seq<Element>)
    ensures
        build.run(flatten_all(forest)) == Some(
            Build { open: build.open, done: build.done + forest },
        ),
    decreases forest, 0int,
{
    if forest.len() == 0 {
        assert(build.done + forest =~= build.done);
    } else {
        let front = forest.drop_last();
        lemma_run_flatten_all(build, front);
        let mid = Build { open: build.open, done: build.done + front };
        lemma_run_flatten(mid, forest.last());
        lemma_run_concat(build, flatten_all(front), flatten(forest.last()));
        assert(mid.done.push(forest.last()) =~= build.done + forest);
    }
}

} // verus!
