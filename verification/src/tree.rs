//! The mathematical model of a syntax tree, and the green tree builder that makes one.

use vstd::prelude::*;
use vstd::utf8::encode_utf8;
use crate::syntax::{Kind, Lang};

verus! {

/// A syntax tree as a value: a leaf token with its exact text, or a node with its
/// children in order.
pub enum Element {
    Token { kind: Kind, text: Seq<char> },
    Node { kind: Kind, children: Seq<Element> },
}

impl Element {
    /// The text that the leaves under this element spell, read from left to right.
    pub open spec fn text(self) -> Seq<char>
        decreases self,
    {
        match self {
            Element::Token { text, .. } => text,
            Element::Node { children, .. } => forest_text(children),
        }
    }

    /// Every leaf under this element, and the element itself if it is a leaf, has the
    /// kind of a token; every node has the kind of a node.
    pub open spec fn well_kinded(self) -> bool
        decreases self,
    {
        match self {
            Element::Token { kind, .. } => kind.is_token(),
            Element::Node { kind, children } => kind.is_node() && forall|i: int|
                0 <= i < children.len() ==> (#[trigger] children[i]).well_kinded(),
        }
    }

    /// The number of bytes that the text under this element takes.
    pub open spec fn text_len(self) -> nat
        decreases self,
    {
        match self {
            Element::Token { text, .. } => encode_utf8(text).len(),
            Element::Node { children, .. } => forest_len(children),
        }
    }
}

/// The text of a run of siblings.
pub open spec fn forest_text(forest: Seq<Element>) -> Seq<char>
    decreases forest,
{
    if forest.len() == 0 {
        Seq::empty()
    } else {
        forest_text(forest.drop_last()) + forest.last().text()
    }
}

/// The number of bytes that a run of siblings takes.
pub open spec fn forest_len(forest: Seq<Element>) -> nat
    decreases forest,
{
    if forest.len() == 0 {
        0
    } else {
        forest_len(forest.drop_last()) + forest.last().text_len()
    }
}

/// `rowan::GreenNode`: an immutable, shareable node of a green tree.
#[verifier::external_type_specification]
#[verifier::external_body]
pub struct ExGreenNode(rowan::GreenNode);

/// `rowan::GreenNodeBuilder`: the stack machine that builds a green tree.
#[verifier::external_type_specification]
#[verifier::external_body]
pub struct ExGreenNodeBuilder<'cache>(rowan::GreenNodeBuilder<'cache>);

/// The tree that a green node holds, each stored kind read through `Kind::of_raw`.
pub uninterp spec fn green_tree(node: rowan::GreenNode) -> Element;

/// The nodes that a builder has started and not yet finished, innermost last: the kind
/// of each, read through `Kind::of_raw`, and how many elements were complete when it
/// was started.
pub uninterp spec fn builder_open(builder: rowan::GreenNodeBuilder<'static>) -> Seq<(Kind, nat)>;

/// The elements that a builder holds complete and not yet adopted by a finished node.
pub uninterp spec fn builder_done(builder: rowan::GreenNodeBuilder<'static>) -> Seq<Element>;

/// `GreenNodeBuilder::new`: a builder with nothing started and nothing complete.
#[verifier::external_body]
pub(crate) fn builder_new() -> (builder: rowan::GreenNodeBuilder<'static>)
    ensures
        builder_open(builder) == Seq::<(Kind, nat)>::empty(),
        builder_done(builder) == Seq::<Element>::empty(),
{
    rowan::GreenNodeBuilder::new()
}

/// `GreenNodeBuilder::start_node`: opens a node that will adopt every element
/// completed from now on.
#[verifier::external_body]
pub(crate) fn builder_start_node(builder: &mut rowan::GreenNodeBuilder<'static>, raw: u16)
    ensures
        builder_open(*final(builder)) == builder_open(*old(builder)).push(
            (Kind::of_raw(raw), builder_done(*old(builder)).len()),
        ),
        builder_done(*final(builder)) == builder_done(*old(builder)),
{
    builder.start_node(rowan::SyntaxKind(raw))
}

/// `GreenNodeBuilder::token`: completes one leaf with the given kind and text.
#[verifier::external_body]
pub(crate) fn builder_token(builder: &mut rowan::GreenNodeBuilder<'static>, raw: u16, text: &str)
    ensures
        builder_open(*final(builder)) == builder_open(*old(builder)),
        builder_done(*final(builder)) == builder_done(*old(builder)).push(
            Element::Token { kind: Kind::of_raw(raw), text: text@ },
        ),
{
    builder.token(rowan::SyntaxKind(raw), text)
}

/// `GreenNodeBuilder::finish_node`: closes the innermost open node, which adopts the
/// elements completed since it was started and becomes one complete element itself.
/// It panics when no node is open, and the lengths of the adopted texts are added up
/// in a `u32`.
#[verifier::external_body]
pub(crate) fn builder_finish_node(builder: &mut rowan::GreenNodeBuilder<'static>)
    requires
        builder_open(*old(builder)).len() > 0,
        builder_open(*old(builder)).last().1 <= builder_done(*old(builder)).len(),
        forest_len(
            builder_done(*old(builder)).skip(builder_open(*old(builder)).last().1 as int),
        ) <= u32::MAX,
    ensures
        builder_open(*final(builder)) == builder_open(*old(builder)).drop_last(),
        builder_done(*final(builder)) == builder_done(*old(builder)).take(
            builder_open(*old(builder)).last().1 as int,
        ).push(
            Element::Node {
                kind: builder_open(*old(builder)).last().0,
                children: builder_done(*old(builder)).skip(
                    builder_open(*old(builder)).last().1 as int,
                ),
            },
        ),
{
    builder.finish_node()
}

/// `GreenNodeBuilder::finish`: hands out the one complete element, which must be a
/// node; it panics on anything else.
#[verifier::external_body]
pub(crate) fn builder_finish(builder: rowan::GreenNodeBuilder<'static>) -> (node: rowan::GreenNode)
    requires
        builder_done(builder).len() == 1,
        builder_done(builder)[0] is Node,
    ensures
        green_tree(node) == builder_done(builder)[0],
{
    builder.finish()
}

/// The indented listing that `rowan` prints of a tree: one line for each node and each
/// token, with its kind, the span of its text in bytes, and for a token its text.
pub uninterp spec fn debug_text(tree: Element) -> Seq<char>;

/// The alternate `Debug` form of `rowan::SyntaxNode`, for the root made of the green
/// node by `SyntaxNode::new_root`. Every line that it writes ends in a line feed, and
/// the root has a line.
#[verifier::external_body]
pub(crate) fn green_debug(node: &rowan::GreenNode) -> (text: String)
    ensures
        text@ == debug_text(green_tree(*node)),
        text@.len() > 0,
        text@.last() == '\n',
{
    format!("{:#?}", rowan::SyntaxNode::<Lang>::new_root(node.clone()))
}

} // verus!
