//! The parser: from lexemes to an event log, and from the log to a tree.

pub mod event;
pub mod expr;
pub mod record;
pub mod sink;

use vstd::prelude::*;
use vstd::string::StrSliceExecFns;
use vstd::utf8::encode_utf8;
use crate::laws::{lemma_lex_lossless, lemma_tree_kinds, lemma_tree_len, lemma_tree_text};
use crate::lexer::{lex, lexemes_of};
use crate::parser::event::{
    checkpoints_ok, flatten, flatten_all, lemma_checkpoints_push, lemma_resolve_push,
    lemma_run_flatten, log_len, log_tree, log_view, resolve, Build, Event, Step,
};
use crate::parser::expr::{expr, expr_bp, expr_log, lemma_expr_resolves};
use crate::parser::sink::{lemma_resolve_log_len, lemma_run_len, Sink};
use crate::syntax::Kind;
use crate::tree::{debug_text, forest_len, green_debug, green_tree, Element};

verus! {

/// A run of lexemes as values: the kind and the exact text of each.
pub open spec fn lexemes_view(lexemes: Seq<(Kind, &str)>) -> Seq<(Kind, Seq<char>)> {
    lexemes.map_values(|lexeme: (Kind, &str)| (lexeme.0, lexeme.1@))
}

/// The token events for `count` lexemes in a row, the first at `from`.
pub open spec fn token_steps(lexemes: Seq<(Kind, Seq<char>)>, from: nat, count: nat) -> Seq<Step> {
    Seq::new(count, |i: int| Step::Token { kind: lexemes[from + i].0, text: lexemes[from + i].1 })
}

/// How many trivia lexemes stand in a row at `cursor`.
pub open spec fn trivia_run(lexemes: Seq<(Kind, Seq<char>)>, cursor: nat) -> nat
    decreases lexemes.len() - cursor,
{
    if cursor < lexemes.len() && lexemes[cursor as int].0.is_trivia() {
        1 + trivia_run(lexemes, cursor + 1)
    } else {
        0
    }
}

/// The syntax tree of a run of lexemes: a root node round the expression that the
/// lexemes begin with.
pub open spec fn syntax_tree(lexemes: Seq<(Kind, Seq<char>)>) -> Element {
    Element::Node { kind: Kind::Root, children: expr_bp(lexemes, 0, 0).forest }
}

/// The number of lexemes that the syntax tree holds. Lexemes after these are left out
/// of the tree: they are what no expression can go on with.
pub open spec fn consumed(lexemes: Seq<(Kind, Seq<char>)>) -> nat {
    expr_bp(lexemes, 0, 0).used
}

/// A log that resolves to the events of one node describes that node.
pub proof fn lemma_log_tree_of_node(log: Seq<Step>, node: Element)
    requires
        checkpoints_ok(log),
        node is Node,
        resolve(log) == flatten(node),
    ensures
        log_tree(log) == Some(node),
{
    lemma_run_flatten(Build::empty(), node);
    assert(Build::empty().done.push(node) =~= seq![node]);
}

/// The log that parsing leaves: the events that were there, then the start of the root,
/// the events recorded for the expression at `cursor`, and the finish of the root.
pub open spec fn root_log(
    log: Seq<Step>,
    lexemes: Seq<(Kind, Seq<char>)>,
    cursor: nat,
) -> Seq<Step> {
    (log.push(Step::Start { kind: Kind::Root }) + expr_log(lexemes, cursor, 0, log.len() + 1)).push(
        Step::Finish,
    )
}

/// The log that parsing leaves resolves to the events that spell the root node out,
/// behind what the log resolved to before. Where nothing was there before, it
/// describes the syntax tree.
pub proof fn lemma_root_resolves(log: Seq<Step>, lexemes: Seq<(Kind, Seq<char>)>, cursor: nat)
    requires
        checkpoints_ok(log),
    ensures
        checkpoints_ok(root_log(log, lexemes, cursor)),
        resolve(root_log(log, lexemes, cursor)) == resolve(log) + flatten(
            Element::Node { kind: Kind::Root, children: expr_bp(lexemes, cursor, 0).forest },
        ),
        cursor == 0 && log.len() == 0 ==> log_tree(root_log(log, lexemes, cursor)) == Some(
            syntax_tree(lexemes),
        ),
{
    let base = resolve(log);
    let parsed = expr_bp(lexemes, cursor, 0);
    let root = Element::Node { kind: Kind::Root, children: parsed.forest };
    let started = log.push(Step::Start { kind: Kind::Root });
    lemma_checkpoints_push(log, Step::Start { kind: Kind::Root });
    lemma_resolve_push(log, Step::Start { kind: Kind::Root });
    lemma_expr_resolves(started, lexemes, cursor, 0);
    let grown = started + expr_log(lexemes, cursor, 0, started.len());
    lemma_checkpoints_push(grown, Step::Finish);
    lemma_resolve_push(grown, Step::Finish);
    assert((base.push(Step::Start { kind: Kind::Root }) + flatten_all(parsed.forest)).push(
        Step::Finish,
    ) =~= base + flatten(root));
    if cursor == 0 && log.len() == 0 {
        assert(base + flatten(root) =~= flatten(root));
        lemma_log_tree_of_node(root_log(log, lexemes, cursor), root);
    }
}

/// Walks a run of lexemes once, from left to right, and records events.
pub struct Parser<'l, 'input> {
    lexemes: &'l [(Kind, &'input str)],
    cursor: usize,
    events: Vec<Event>,
}

impl<'l, 'input> Parser<'l, 'input> {
    /// The lexemes that this parser reads.
    pub closed spec fn lexemes(&self) -> Seq<(Kind, Seq<char>)> {
        lexemes_view(self.lexemes@)
    }

    /// How many lexemes have been consumed.
    pub closed spec fn cursor(&self) -> nat {
        self.cursor as nat
    }

    /// The events recorded so far.
    pub closed spec fn log(&self) -> Seq<Step> {
        log_view(self.events@)
    }

    /// The cursor stands within the lexemes or at their end.
    pub open spec fn wf(&self) -> bool {
        self.cursor() <= self.lexemes().len()
    }

    pub fn new(lexemes: &'l [(Kind, &'input str)]) -> (parser: Self)
        ensures
            parser.wf(),
            parser.lexemes() == lexemes_view(lexemes@),
            parser.cursor() == 0,
            parser.log() == Seq::<Step>::empty(),
    {
        let parser = Self { lexemes, cursor: 0, events: Vec::new() };
        proof {
            assert(parser.log() =~= Seq::<Step>::empty());
        }
        parser
    }

    /// Parses the lexemes from the cursor on as one expression under a root node, and
    /// hands the log out: behind the events that were there, the start of the root, the
    /// events of the expression, and the finish of the root.
    pub fn parse(self) -> (events: Vec<Event>)
        requires
            self.wf(),
        ensures
            log_view(events@) == root_log(self.log(), self.lexemes(), self.cursor()),
            checkpoints_ok(self.log()) ==> checkpoints_ok(log_view(events@)) && resolve(
                log_view(events@),
            ) == resolve(self.log()) + flatten(
                Element::Node {
                    kind: Kind::Root,
                    children: expr_bp(self.lexemes(), self.cursor(), 0).forest,
                },
            ),
            self.cursor() == 0 && self.log().len() == 0 ==> log_tree(log_view(events@)) == Some(
                syntax_tree(self.lexemes()),
            ),
    {
        let ghost log0 = self.log();
        let mut parser = self;
        parser.start_node(Kind::Root);
        expr(&mut parser);
        parser.finish_node();
        proof {
            if checkpoints_ok(log0) {
                lemma_root_resolves(log0, self.lexemes(), self.cursor());
            }
        }
        parser.events
    }

    pub fn start_node(&mut self, kind: Kind)
        ensures
            final(self).wf() == old(self).wf(),
            final(self).lexemes() == old(self).lexemes(),
            final(self).cursor() == old(self).cursor(),
            final(self).log() == old(self).log().push(Step::Start { kind }),
    {
        self.events.push(Event::StartNode { kind });
        proof {
            assert(self.log() =~= old(self).log().push(Step::Start { kind }));
        }
    }

    pub fn start_node_at(&mut self, checkpoint: usize, kind: Kind)
        ensures
            final(self).wf() == old(self).wf(),
            final(self).lexemes() == old(self).lexemes(),
            final(self).cursor() == old(self).cursor(),
            final(self).log() == old(self).log().push(
                Step::StartAt { kind, checkpoint: checkpoint as nat },
            ),
    {
        self.events.push(Event::StartNodeAt { kind, checkpoint });
        proof {
            assert(self.log() =~= old(self).log().push(
                Step::StartAt { kind, checkpoint: checkpoint as nat },
            ));
        }
    }

    pub fn finish_node(&mut self)
        ensures
            final(self).wf() == old(self).wf(),
            final(self).lexemes() == old(self).lexemes(),
            final(self).cursor() == old(self).cursor(),
            final(self).log() == old(self).log().push(Step::Finish),
    {
        self.events.push(Event::FinishNode);
        proof {
            assert(self.log() =~= old(self).log().push(Step::Finish));
        }
    }

    /// Consumes the lexeme at the cursor as a leaf.
    pub fn bump(&mut self)
        requires
            old(self).wf(),
            old(self).cursor() < old(self).lexemes().len(),
        ensures
            final(self).wf(),
            final(self).lexemes() == old(self).lexemes(),
            final(self).cursor() == old(self).cursor() + 1,
            final(self).log() == old(self).log().push(
                Step::Token {
                    kind: old(self).lexemes()[old(self).cursor() as int].0,
                    text: old(self).lexemes()[old(self).cursor() as int].1,
                },
            ),
    {
        let (kind, text) = self.lexemes[self.cursor];
        self.cursor += 1;
        self.events.push(Event::AddToken { kind, text: text.to_owned() });
        proof {
            assert(self.log() =~= old(self).log().push(
                Step::Token {
                    kind: old(self).lexemes()[old(self).cursor() as int].0,
                    text: old(self).lexemes()[old(self).cursor() as int].1,
                },
            ));
        }
    }

    /// The place of the log where the next event will stand.
    pub fn checkpoint(&self) -> (checkpoint: usize)
        ensures
            checkpoint == self.log().len(),
    {
        self.events.len()
    }

    /// The kind of the next lexeme that is no trivia, if there is one. Trivia that
    /// stands before it is consumed on the way, each as a leaf where it stands.
    pub fn peek(&mut self) -> (kind: Option<Kind>)
        requires
            old(self).wf(),
        ensures
            final(self).wf(),
            final(self).lexemes() == old(self).lexemes(),
            final(self).cursor() == old(self).cursor() + trivia_run(
                old(self).lexemes(),
                old(self).cursor(),
            ),
            final(self).log() == old(self).log() + token_steps(
                old(self).lexemes(),
                old(self).cursor(),
                trivia_run(old(self).lexemes(), old(self).cursor()),
            ),
            kind == if final(self).cursor() < final(self).lexemes().len() {
                Some(final(self).lexemes()[final(self).cursor() as int].0)
            } else {
                None
            },
            kind matches Some(k) ==> !k.is_trivia(),
    {
        let ghost lexemes = self.lexemes();
        let ghost start = self.cursor();
        proof {
            assert(self.log() =~= old(self).log() + token_steps(lexemes, start, 0));
        }
        while self.cursor < self.lexemes.len() && is_trivia(self.lexemes[self.cursor].0)
            invariant
                self.wf(),
                self.lexemes() == lexemes,
                lexemes == old(self).lexemes(),
                start == old(self).cursor(),
                start <= self.cursor(),
                self.cursor() + trivia_run(lexemes, self.cursor()) == start + trivia_run(
                    lexemes,
                    start,
                ),
                self.log() == old(self).log() + token_steps(
                    lexemes,
                    start,
                    (self.cursor() - start) as nat,
                ),
            decreases lexemes.len() - self.cursor(),
        {
            let ghost seen = (self.cursor() - start) as nat;
            self.bump();
            proof {
                assert(self.log() =~= old(self).log() + token_steps(lexemes, start, seen + 1));
            }
        }
        if self.cursor < self.lexemes.len() {
            Some(self.lexemes[self.cursor].0)
        } else {
            None
        }
    }
}

/// Whether a kind is trivia.
pub fn is_trivia(kind: Kind) -> (trivia: bool)
    ensures
        trivia == kind.is_trivia(),
{
    match kind {
        Kind::Whitespace => true,
        _ => false,
    }
}

/// The tokens of a log that describes a tree hold as many bytes as the tree.
pub proof fn lemma_log_len_of_tree(log: Seq<Step>)
    requires
        log_tree(log) is Some,
    ensures
        log_len(log) == log_tree(log)->0.text_len(),
{
    let build = Build::empty().run(resolve(log))->0;
    lemma_resolve_log_len(log);
    lemma_run_len(Build::empty(), resolve(log));
    assert(forest_len(Build::empty().done) == 0);
    assert(build.done.drop_last().len() == 0);
    assert(forest_len(build.done.drop_last()) == 0);
    assert(build.done.last() == build.done[0]);
}

/// Parses a text into its syntax tree: a root node round the expression that the
/// text begins with. Where the whole text is that expression, the leaves of the tree
/// spell the text. The text must fit the 32-bit offsets of the tree.
pub fn parse(input: &str) -> (parse: Parse)
    requires
        encode_utf8(input@).len() <= u32::MAX,
    ensures
        parse@ == syntax_tree(lexemes_of(input@)),
        parse@.well_kinded(),
        consumed(lexemes_of(input@)) == lexemes_of(input@).len() ==> parse@.text() == input@,
{
    let lexemes = lex(input);
    let parser = Parser::new(lexemes.as_slice());
    let events = parser.parse();
    proof {
        let lx = lexemes_of(input@);
        lemma_log_len_of_tree(log_view(events@));
        lemma_tree_len(lx);
        lemma_tree_text(lx);
        lemma_tree_kinds(input@);
        lemma_lex_lossless(input@);
    }
    let sink = Sink::new(lexemes.as_slice(), events);
    Parse { green_node: sink.finish() }
}

/// The text without its last character.
pub fn cut_last(text: &str) -> (cut: String)
    requires
        text@.len() > 0,
    ensures
        cut@ == text@.drop_last(),
{
    let len = text.unicode_len();
    text.substring_char(0, len - 1).to_owned()
}

/// The outcome of parsing: an immutable syntax tree.
pub struct Parse {
    green_node: rowan::GreenNode,
}

impl View for Parse {
    type V = Element;

    closed spec fn view(&self) -> Element {
        green_tree(self.green_node)
    }
}

impl Parse {
    /// The root of the tree, as the green node that holds it.
    pub fn green_node(&self) -> (node: &rowan::GreenNode)
        ensures
            green_tree(*node) == self@,
    {
        &self.green_node
    }

    /// The tree as an indented listing, one line for each node and token, without a
    /// line feed at the end.
    pub fn debug_tree(&self) -> (listing: String)
        ensures
            listing@.push('\n') == debug_text(self@),
    {
        let formatted = green_debug(&self.green_node);
        // The listing ends in a line feed, which is cut off.
        let listing = cut_last(formatted.as_str());
        proof {
            assert(listing@.push('\n') =~= formatted@);
        }
        listing
    }
}

} // verus!
