//! Laws of the components: what renders to nothing leaves no trace.

use vstd::prelude::*;
use crate::component::{attached_nodes, render_children, Component, Div, Empty, Keyed};
use crate::document::model::{DocumentError, DocumentView};
use crate::document::vdocument::NodeId;

verus! {

/// The placeholder renders to nothing and leaves the document as it was.
pub proof fn lemma_empty_renders_nothing(doc: DocumentView)
    ensures
        Empty.rendered(doc) == (doc, Ok::<Option<NodeId>, DocumentError>(None)),
{
}

/// A child that renders to nothing is passed over: the container goes on
/// with the next child, and nothing is attached under the parent.
pub proof fn lemma_nothing_is_not_attached<C: Component>(
    children: Seq<C>,
    from: int,
    parent: NodeId,
    doc: DocumentView,
)
    requires
        0 <= from < children.len(),
        children[from].rendered(doc).1 == Ok::<Option<NodeId>, DocumentError>(None),
    ensures
        render_children(children, from, parent, doc) == render_children(
            children,
            from + 1,
            parent,
            children[from].rendered(doc).0,
        ),
{
}

/// A child that renders to nothing leaves no place among the children of
/// the parent: the nodes attached from it on are those attached from the
/// next child on.
pub proof fn lemma_nothing_leaves_no_place<C: Component>(
    children: Seq<C>,
    from: int,
    parent: NodeId,
    doc: DocumentView,
)
    requires
        0 <= from < children.len(),
        children[from].rendered(doc).1 == Ok::<Option<NodeId>, DocumentError>(None),
    ensures
        attached_nodes(children, from, parent, doc) == attached_nodes(
            children,
            from + 1,
            parent,
            children[from].rendered(doc).0,
        ),
{
}

/// A child that renders to a node comes first among the nodes attached from
/// it on.
pub proof fn lemma_node_is_attached_in_order<C: Component>(
    children: Seq<C>,
    from: int,
    parent: NodeId,
    doc: DocumentView,
    child: NodeId,
)
    requires
        0 <= from < children.len(),
        children[from].rendered(doc).1 == Ok::<Option<NodeId>, DocumentError>(Some(child)),
    ensures
        attached_nodes(children, from, parent, doc) == seq![child] + attached_nodes(
            children,
            from + 1,
            parent,
            children[from].rendered(doc).0.append_child(parent, child),
        ),
{
}

/// A container of placeholders renders to its own element alone: the
/// element has no children, and no key is bound.
pub proof fn lemma_div_of_placeholders(div: Div<Empty>, doc: DocumentView)
    ensures
        div.rendered(doc) == (
            doc.create_element("div"@).0,
            Ok::<Option<NodeId>, DocumentError>(Some(doc.create_element("div"@).1)),
        ),
        div.rendered(doc).0.children == doc.children,
        div.rendered(doc).0.keys == doc.keys,
{
    let (with_parent, parent) = doc.create_element("div"@);
    lemma_placeholders_from(div.children_value()@, 0, parent, with_parent);
}

/// Placeholders attach nothing under `parent`, from whichever of them the
/// container goes on.
proof fn lemma_placeholders_from(children: Seq<Empty>, from: int, parent: NodeId, doc: DocumentView)
    requires
        0 <= from,
    ensures
        render_children(children, from, parent, doc) == (
            doc,
            Ok::<Option<NodeId>, DocumentError>(Some(parent)),
        ),
    decreases children.len() - from,
{
    if from < children.len() {
        lemma_placeholders_from(children, from + 1, parent, doc);
    }
}

/// A keyed component whose inner component renders to nothing renders to
/// nothing too, and binds no key.
pub proof fn lemma_keyed_nothing_gets_no_key<C: Component, K>(keyed: Keyed<C, K>, doc: DocumentView)
    requires
        keyed.inner().rendered(doc).1 == Ok::<Option<NodeId>, DocumentError>(None),
    ensures
        keyed.rendered(doc) == keyed.inner().rendered(doc),
{
}

} // verus!
