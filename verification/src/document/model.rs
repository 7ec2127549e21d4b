//! The mathematical model of a virtual document.
//!
//! A document is a dense sequence of nodes (a node's identity is its index),
//! a table of ordered child sequences and a table of key scopes, one per
//! parent. Every executable operation of the store is specified by the
//! operation of the same name on this model.

use vstd::prelude::*;
use crate::document::vdocument::{Key, NodeId};

verus! {

/// Why an operation on a document was refused.
#[derive(Clone, Copy, Debug, PartialEq, Eq, Structural)]
pub enum DocumentError {
    /// The key is already bound in the parent's scope, or the node already
    /// has a key there.
    DuplicateKey,
    /// The parent identity was not made by this document.
    UnknownParent,
    /// The child identity was not made by this document.
    UnknownChild,
    /// The root was given as a child.
    RootAsChild,
}

/// What a node is, with its text as a sequence of characters.
pub enum NodeView {
    /// The implicit top-level parent.
    Root,
    /// A named container.
    Element { tag: Seq<char> },
    /// A childless piece of text.
    Text { content: Seq<char> },
}

/// The model of a document.
#[verifier::ext_equal]
pub struct DocumentView {
    /// The arena: `nodes[i]` is the node with identity `NodeId(i)`.
    pub nodes: Seq<NodeView>,
    /// The ordered children of each node that has any.
    pub children: Map<NodeId, Seq<NodeId>>,
    /// The key scope of each parent that has one: from key to node.
    pub keys: Map<NodeId, Map<Key, NodeId>>,
}

/// The identity of the root of every document.
pub open spec fn root_id() -> NodeId {
    NodeId(0)
}

impl DocumentView {
    /// The document that holds the root and nothing else.
    pub open spec fn empty() -> DocumentView {
        DocumentView { nodes: seq![NodeView::Root], children: Map::empty(), keys: Map::empty() }
    }

    /// Whether `id` was made by this document.
    pub open spec fn contains(self, id: NodeId) -> bool {
        id.0 < self.nodes.len()
    }

    /// The ordered children of `parent`; none where the table has no entry.
    pub open spec fn children_of(self, parent: NodeId) -> Seq<NodeId> {
        if self.children.contains_key(parent) {
            self.children[parent]
        } else {
            Seq::empty()
        }
    }

    /// The key scope of `parent`; empty where the table has no entry.
    pub open spec fn scope(self, parent: NodeId) -> Map<Key, NodeId> {
        if self.keys.contains_key(parent) {
            self.keys[parent]
        } else {
            Map::empty()
        }
    }

    /// Whether `key` is bound in the scope of `parent`.
    pub open spec fn key_bound(self, parent: NodeId, key: Key) -> bool {
        self.scope(parent).contains_key(key)
    }

    /// Whether `node` has the key `key` in the scope of `parent`.
    pub open spec fn has_key(self, parent: NodeId, node: NodeId, key: Key) -> bool {
        self.scope(parent).contains_key(key) && self.scope(parent)[key] == node
    }

    /// Whether `node` has any key in the scope of `parent`.
    pub open spec fn keyed(self, parent: NodeId, node: NodeId) -> bool {
        exists|key: Key| self.has_key(parent, node, key)
    }

    /// The invariant of every document: there is exactly one root, at
    /// identity 0; every node has an identity; every identity in the two
    /// tables was made by this document; the root is nobody's child; a child
    /// sequence in the table is not empty; within one scope no node has two
    /// keys.
    pub open spec fn wf(self) -> bool {
        &&& 1 <= self.nodes.len() <= usize::MAX
        &&& forall|i: int| 0 <= i < self.nodes.len() ==> (#[trigger] self.nodes[i] is Root <==> i == 0)
        &&& forall|p: NodeId| #[trigger]
            self.children.contains_key(p) ==> self.contains(p) && self.children[p].len() > 0
        &&& forall|p: NodeId, i: int|
            self.children.contains_key(p) && 0 <= i < self.children[p].len() ==> self.contains(
                #[trigger] self.children[p][i],
            ) && self.children[p][i] != root_id()
        &&& forall|p: NodeId| #[trigger] self.keys.contains_key(p) ==> self.contains(p)
        &&& forall|p: NodeId, k: Key|
            self.keys.contains_key(p) && self.keys[p].contains_key(k) ==> self.contains(
                #[trigger] self.keys[p][k],
            )
        &&& forall|p: NodeId, k1: Key, k2: Key|
            self.keys.contains_key(p) && self.keys[p].contains_key(k1) && self.keys[p].contains_key(
                k2,
            ) && #[trigger] self.keys[p][k1] == #[trigger] self.keys[p][k2] ==> k1 == k2
    }

    /// Whether `rank` gives every child a lower rank than its parent.
    pub open spec fn ranked(self, rank: spec_fn(NodeId) -> nat) -> bool {
        forall|p: NodeId, i: int|
            0 <= i < self.children_of(p).len() ==> rank(#[trigger] self.children_of(p)[i]) < rank(
                p,
            )
    }

    /// Whether no node is its own descendant: the children can be ranked.
    /// A node may still be a child in several places.
    pub open spec fn acyclic(self) -> bool {
        exists|rank: spec_fn(NodeId) -> nat| self.ranked(rank)
    }

    /// Whether `node` is nobody's child.
    pub open spec fn detached(self, node: NodeId) -> bool {
        forall|p: NodeId, i: int|
            0 <= i < self.children_of(p).len() ==> #[trigger] self.children_of(p)[i] != node
    }

    /// Whether every child that was attached since `old` is a node that was
    /// made since `old`.
    pub open spec fn attaches_only_new(self, old: DocumentView) -> bool {
        forall|p: NodeId, i: int|
            old.children_of(p).len() <= i < self.children_of(p).len() ==> !old.contains(
                #[trigger] self.children_of(p)[i],
            )
    }

    /// Whether no node is a child in two places: the children form trees.
    pub open spec fn single_parent(self) -> bool {
        forall|p: NodeId, i: int, q: NodeId, j: int|
            0 <= i < self.children_of(p).len() && 0 <= j < self.children_of(q).len()
                && #[trigger] self.children_of(p)[i] == #[trigger] self.children_of(q)[j] ==> p
                == q && i == j
    }

    /// Whether `node` is the child of `parent` at index `i`.
    pub open spec fn is_child(self, parent: NodeId, i: int, node: NodeId) -> bool {
        0 <= i < self.children_of(parent).len() && self.children_of(parent)[i] == node
    }

    /// Whether `node` is somebody's child.
    pub open spec fn attached(self, node: NodeId) -> bool {
        exists|parent: NodeId, i: int| #[trigger] self.is_child(parent, i, node)
    }

    /// Whether every node made since `old`, but `kept`, is somebody's child,
    /// and every child of a node made since `old` has a greater identity
    /// than its parent.
    pub open spec fn tidy_from(self, old: DocumentView, kept: Option<NodeId>) -> bool {
        &&& forall|node: NodeId|
            !old.contains(node) && self.contains(node) && kept != Some(node)
                ==> #[trigger] self.attached(node)
        &&& forall|p: NodeId, i: int|
            !old.contains(p) && 0 <= i < self.children_of(p).len() ==> p.0 < (
            #[trigger] self.children_of(p)[i]).0
    }

    /// Whether the document is one tree under the root: every node but the
    /// root is a child, in one place only, and has a greater identity than
    /// its parent.
    pub open spec fn tree(self) -> bool {
        &&& self.single_parent()
        &&& forall|node: NodeId|
            self.contains(node) && node != root_id() ==> #[trigger] self.attached(node)
        &&& forall|p: NodeId, i: int|
            0 <= i < self.children_of(p).len() ==> p.0 < (#[trigger] self.children_of(p)[i]).0
    }

    /// Whether every node of `old` has the children here that it has there.
    pub open spec fn keeps_children(self, old: DocumentView) -> bool {
        forall|p: NodeId| old.contains(p) ==> #[trigger] self.children_of(p) == old.children_of(p)
    }

    /// Whether every key that was bound since `old` names a node that was
    /// made since `old`.
    pub open spec fn binds_only_new(self, old: DocumentView) -> bool {
        forall|p: NodeId, k: Key| #[trigger]
            self.key_bound(p, k) && !old.key_bound(p, k) ==> !old.contains(self.scope(p)[k])
    }

    /// Whether this document came out of `old` by rendering: it grew out of
    /// it, the nodes of `old` have the children they had, and only nodes
    /// made since were attached or given a key.
    pub open spec fn rendered_from(self, old: DocumentView) -> bool {
        &&& self.extends(old)
        &&& self.attaches_only_new(old)
        &&& self.keeps_children(old)
        &&& self.binds_only_new(old)
    }

    /// The document with `node` appended to the arena, and the new identity.
    pub open spec fn create(self, node: NodeView) -> (DocumentView, NodeId) {
        (DocumentView { nodes: self.nodes.push(node), ..self }, NodeId(self.nodes.len() as usize))
    }

    /// Appending an element with the given tag.
    pub open spec fn create_element(self, tag: Seq<char>) -> (DocumentView, NodeId) {
        self.create(NodeView::Element { tag })
    }

    /// Appending a text node with the given content.
    pub open spec fn create_text_node(self, content: Seq<char>) -> (DocumentView, NodeId) {
        self.create(NodeView::Text { content })
    }

    /// Why `child` cannot be appended to the children of `parent`, if it
    /// cannot.
    pub open spec fn append_child_error(self, parent: NodeId, child: NodeId) -> Option<
        DocumentError,
    > {
        if !self.contains(parent) {
            Some(DocumentError::UnknownParent)
        } else if !self.contains(child) {
            Some(DocumentError::UnknownChild)
        } else if child == root_id() {
            Some(DocumentError::RootAsChild)
        } else {
            None
        }
    }

    /// The document with `child` at the end of the children of `parent`;
    /// the document itself where that is refused.
    pub open spec fn append_child(self, parent: NodeId, child: NodeId) -> DocumentView {
        if self.append_child_error(parent, child) is Some {
            self
        } else {
            DocumentView {
                children: self.children.insert(parent, self.children_of(parent).push(child)),
                ..self
            }
        }
    }

    /// Why `node` cannot get the key `key` in the scope of `parent`, if it
    /// cannot. A key that is bound in the scope, or a node that has a key
    /// there, is a duplicate whatever else holds; only then is an identity
    /// that is not of this document named.
    pub open spec fn set_key_error(self, node: NodeId, key: Key, parent: NodeId) -> Option<
        DocumentError,
    > {
        if self.key_bound(parent, key) || self.keyed(parent, node) {
            Some(DocumentError::DuplicateKey)
        } else if !self.contains(parent) {
            Some(DocumentError::UnknownParent)
        } else if !self.contains(node) {
            Some(DocumentError::UnknownChild)
        } else {
            None
        }
    }

    /// The document with `key` bound to `node` in the scope of `parent`; the
    /// document itself where that is refused.
    pub open spec fn set_key(self, node: NodeId, key: Key, parent: NodeId) -> DocumentView {
        if self.set_key_error(node, key, parent) is Some {
            self
        } else {
            DocumentView { keys: self.keys.insert(parent, self.scope(parent).insert(key, node)), ..self }
        }
    }

    /// Whether this document grew out of `old`: the arena of `old` is a
    /// prefix of this one's, every child sequence of `old` is a prefix of the
    /// sequence the same parent has here, and every key binding of `old` is
    /// still here.
    pub open spec fn extends(self, old: DocumentView) -> bool {
        &&& old.nodes.len() <= self.nodes.len()
        &&& forall|i: int| 0 <= i < old.nodes.len() ==> #[trigger] self.nodes[i] == old.nodes[i]
        &&& forall|p: NodeId| #[trigger]
            old.children.contains_key(p) ==> self.children.contains_key(p)
                && old.children[p].is_prefix_of(self.children[p])
        &&& forall|p: NodeId, k: Key|
            old.keys.contains_key(p) && #[trigger] old.keys[p].contains_key(k)
                ==> self.keys.contains_key(p) && self.keys[p].contains_key(k)
                && self.keys[p][k] == old.keys[p][k]
    }
}

impl DocumentView {
    /// Growing is transitive.
    pub proof fn lemma_extends_trans(self, mid: DocumentView, old: DocumentView)
        requires
            self.extends(mid),
            mid.extends(old),
        ensures
            self.extends(old),
    {
        assert forall|p: NodeId| #[trigger] old.children.contains_key(p) implies self.children.contains_key(
            p,
        ) && old.children[p].is_prefix_of(self.children[p]) by {
            assert(mid.children.contains_key(p));
            assert(old.children[p].is_prefix_of(mid.children[p]));
            assert(mid.children[p].is_prefix_of(self.children[p]));
        }
    }

    /// Appending a node that is no root keeps the invariant, and the
    /// document grows.
    pub proof fn lemma_create(self, node: NodeView)
        requires
            self.wf(),
            self.nodes.len() < usize::MAX,
            node !is Root,
        ensures
            self.create(node).0.wf(),
            self.create(node).1 != root_id(),
            self.create(node).0.contains(self.create(node).1),
            self.create(node).0.detached(self.create(node).1),
            !self.contains(self.create(node).1),
            self.create(node).0.extends(self),
            self.create(node).0.nodes.len() == self.nodes.len() + 1,
    {
    }

    /// Appending a child keeps the invariant, and the document grows.
    pub proof fn lemma_append_child(self, parent: NodeId, child: NodeId)
        requires
            self.wf(),
        ensures
            self.append_child(parent, child).wf(),
            self.append_child(parent, child).extends(self),
            self.append_child(parent, child).nodes == self.nodes,
    {
        let after = self.append_child(parent, child);
        if self.append_child_error(parent, child) is None {
            let list = self.children_of(parent).push(child);
            assert forall|p: NodeId, i: int|
                after.children.contains_key(p) && 0 <= i < after.children[p].len() implies after.contains(
                #[trigger] after.children[p][i],
            ) && after.children[p][i] != root_id() by {
                if p == parent {
                    if i < list.len() - 1 {
                        assert(self.children.contains_key(p));
                        assert(after.children[p][i] == self.children[p][i]);
                    }
                } else {
                    assert(self.children.contains_key(p));
                    assert(after.children[p][i] == self.children[p][i]);
                }
            }
            assert forall|p: NodeId| #[trigger] self.children.contains_key(p) implies after.children.contains_key(
                p,
            ) && self.children[p].is_prefix_of(after.children[p]) by {
                if p == parent {
                    assert(self.children[p] =~= list.subrange(0, self.children[p].len() as int));
                }
            }
        }
    }

    /// Binding a key keeps the invariant, and the document grows.
    pub proof fn lemma_set_key(self, node: NodeId, key: Key, parent: NodeId)
        requires
            self.wf(),
        ensures
            self.set_key(node, key, parent).wf(),
            self.set_key(node, key, parent).extends(self),
            self.set_key(node, key, parent).nodes == self.nodes,
            self.set_key(node, key, parent).children == self.children,
    {
        let after = self.set_key(node, key, parent);
        if self.set_key_error(node, key, parent) is None {
            assert forall|p: NodeId, k1: Key, k2: Key|
                after.keys.contains_key(p) && after.keys[p].contains_key(k1)
                    && after.keys[p].contains_key(k2) && #[trigger] after.keys[p][k1]
                    == #[trigger] after.keys[p][k2] implies k1 == k2 by {
                if p == parent {
                    if k1 == key && k2 != key {
                        assert(self.has_key(parent, node, k2));
                    }
                    if k2 == key && k1 != key {
                        assert(self.has_key(parent, node, k1));
                    }
                }
            }
        }
    }
}

impl DocumentView {
    /// The empty document has no cycle, and no node of it is a child.
    pub proof fn lemma_empty_acyclic()
        ensures
            DocumentView::empty().acyclic(),
            DocumentView::empty().single_parent(),
            DocumentView::empty().wf(),
    {
        let rank = |id: NodeId| 0nat;
        assert(DocumentView::empty().ranked(rank));
    }

    /// In a well-formed document the root is nobody's child.
    pub proof fn lemma_root_detached(self)
        requires
            self.wf(),
        ensures
            self.detached(root_id()),
    {
    }

    /// A child that a document has was there already in a document that it
    /// grew out of, or was attached since.
    pub proof fn lemma_extends_children(self, old: DocumentView, p: NodeId, i: int)
        requires
            self.extends(old),
            0 <= i < old.children_of(p).len(),
        ensures
            i < self.children_of(p).len(),
            self.children_of(p)[i] == old.children_of(p)[i],
    {
        assert(old.children.contains_key(p));
        assert(old.children[p].is_prefix_of(self.children[p]));
    }

    /// Attaching only new nodes carries over from step to step.
    pub proof fn lemma_attaches_only_new_trans(self, mid: DocumentView, old: DocumentView)
        requires
            self.extends(mid),
            mid.extends(old),
            self.attaches_only_new(mid),
            mid.attaches_only_new(old),
        ensures
            self.attaches_only_new(old),
    {
        assert forall|p: NodeId, i: int|
            old.children_of(p).len() <= i < self.children_of(p).len() implies !old.contains(
            #[trigger] self.children_of(p)[i],
        ) by {
            if i < mid.children_of(p).len() {
                self.lemma_extends_children(mid, p, i);
                assert(!old.contains(mid.children_of(p)[i]));
            } else {
                assert(!mid.contains(self.children_of(p)[i]));
            }
        }
    }

    /// A node that is nobody's child stays so while only new nodes are
    /// attached.
    pub proof fn lemma_detached_kept(self, old: DocumentView, node: NodeId)
        requires
            self.extends(old),
            self.attaches_only_new(old),
            old.contains(node),
            old.detached(node),
        ensures
            self.detached(node),
    {
        assert forall|p: NodeId, i: int| 0 <= i < self.children_of(p).len() implies #[trigger] self.children_of(
            p,
        )[i] != node by {
            if i < old.children_of(p).len() {
                self.lemma_extends_children(old, p, i);
                assert(old.children_of(p)[i] != node);
            } else {
                assert(!old.contains(self.children_of(p)[i]));
            }
        }
    }

    /// Attaching a child under a parent that is nobody's child makes no
    /// cycle.
    pub proof fn lemma_append_child_acyclic(self, parent: NodeId, child: NodeId)
        requires
            self.acyclic(),
            self.detached(parent),
            child != parent,
        ensures
            self.append_child(parent, child).acyclic(),
    {
        let after = self.append_child(parent, child);
        if self.append_child_error(parent, child) is None {
            let rank = choose|rank: spec_fn(NodeId) -> nat| self.ranked(rank);
            let raised = |id: NodeId|
                if id == parent {
                    rank(parent) + rank(child) + 1
                } else {
                    rank(id)
                };
            assert forall|p: NodeId, i: int| 0 <= i < after.children_of(p).len() implies raised(
                #[trigger] after.children_of(p)[i],
            ) < raised(p) by {
                if p == parent {
                    if i < self.children_of(p).len() {
                        assert(after.children_of(p)[i] == self.children_of(p)[i]);
                        assert(self.children_of(p)[i] != parent);
                        assert(rank(self.children_of(p)[i]) < rank(p));
                    }
                } else {
                    assert(after.children_of(p) == self.children_of(p));
                    assert(self.children_of(p)[i] != parent);
                    assert(rank(self.children_of(p)[i]) < rank(p));
                }
            }
            assert(after.ranked(raised));
        }
    }

    /// Rendering in two steps is rendering.
    pub proof fn lemma_rendered_from_trans(self, mid: DocumentView, old: DocumentView)
        requires
            self.rendered_from(mid),
            mid.rendered_from(old),
        ensures
            self.rendered_from(old),
    {
        self.lemma_extends_trans(mid, old);
        self.lemma_attaches_only_new_trans(mid, old);
        assert forall|p: NodeId| old.contains(p) implies #[trigger] self.children_of(p)
            == old.children_of(p) by {
            assert(mid.children_of(p) == old.children_of(p));
            assert(self.children_of(p) == mid.children_of(p));
        }
        assert forall|p: NodeId, k: Key| #[trigger]
            self.key_bound(p, k) && !old.key_bound(p, k) implies !old.contains(
            self.scope(p)[k],
        ) by {
            if mid.key_bound(p, k) {
                assert(mid.keys.contains_key(p) && mid.keys[p].contains_key(k));
                assert(self.scope(p)[k] == mid.scope(p)[k]);
            } else {
                assert(!mid.contains(self.scope(p)[k]));
            }
        }
    }

    /// A document that differs from `old` by new nodes alone came out of it
    /// by rendering.
    pub proof fn lemma_same_tables(self, old: DocumentView)
        requires
            self.extends(old),
            self.children == old.children,
            self.keys == old.keys,
        ensures
            self.rendered_from(old),
            old.acyclic() ==> self.acyclic(),
            old.single_parent() ==> self.single_parent(),
            forall|node: NodeId| old.detached(node) ==> self.detached(node),
    {
        self.lemma_same_children(old);
        assert forall|p: NodeId| old.contains(p) implies #[trigger] self.children_of(p)
            == old.children_of(p) by {}
    }

    /// In a well-formed document a node that has a key is of the document,
    /// and so is a node that has children.
    pub proof fn lemma_foreign_is_bare(self, node: NodeId)
        requires
            self.wf(),
            !self.contains(node),
        ensures
            self.children_of(node).len() == 0,
            self.detached(node),
            forall|p: NodeId| !self.keyed(p, node),
    {
        assert forall|p: NodeId| !self.keyed(p, node) by {
            if self.keyed(p, node) {
                let k = choose|k: Key| self.has_key(p, node, k);
                assert(self.contains(self.keys[p][k]));
            }
        }
    }

    /// Attaching a node that is nobody's child leaves no node a child in two
    /// places.
    pub proof fn lemma_append_detached(self, parent: NodeId, child: NodeId)
        requires
            self.single_parent(),
            self.detached(child),
        ensures
            self.append_child(parent, child).single_parent(),
    {
        let after = self.append_child(parent, child);
        if self.append_child_error(parent, child) is None {
            assert forall|p: NodeId, i: int, q: NodeId, j: int|
                0 <= i < after.children_of(p).len() && 0 <= j < after.children_of(q).len()
                    && #[trigger] after.children_of(p)[i] == #[trigger] after.children_of(
                    q,
                )[j] implies p == q && i == j by {
                let old_p = p != parent || i < self.children_of(p).len();
                let old_q = q != parent || j < self.children_of(q).len();
                if old_p {
                    assert(after.children_of(p)[i] == self.children_of(p)[i]);
                }
                if old_q {
                    assert(after.children_of(q)[j] == self.children_of(q)[j]);
                }
            }
        }
    }

    /// A child stays a child while the document grows.
    pub proof fn lemma_attached_kept(self, old: DocumentView, node: NodeId)
        requires
            self.extends(old),
            old.attached(node),
        ensures
            self.attached(node),
    {
        let (parent, i) = choose|parent: NodeId, i: int| #[trigger] old.is_child(parent, i, node);
        self.lemma_extends_children(old, parent, i);
        assert(self.is_child(parent, i, node));
    }

    /// Where nothing was attached, no node made since `old` has children and
    /// at most the newest node is there to be kept.
    pub proof fn lemma_no_new_children(self, old: DocumentView)
        requires
            old.wf(),
            self.children == old.children,
            old.nodes.len() <= self.nodes.len() <= old.nodes.len() + 1,
        ensures
            self.nodes.len() == old.nodes.len() ==> self.tidy_from(old, None),
            self.nodes.len() == old.nodes.len() + 1 ==> self.tidy_from(
                old,
                Some(NodeId(old.nodes.len() as usize)),
            ),
    {
        assert forall|p: NodeId, i: int|
            !old.contains(p) && 0 <= i < self.children_of(p).len() implies p.0 < (
        #[trigger] self.children_of(p)[i]).0 by {
            old.lemma_foreign_is_bare(p);
            assert(self.children_of(p) == old.children_of(p));
        }
    }

    /// One more child rendered tidily: every node made since `old`, but the
    /// parent and what the child returned, is somebody's child.
    pub proof fn lemma_tidy_step(
        self,
        before: DocumentView,
        old: DocumentView,
        parent: NodeId,
        out: Option<NodeId>,
    )
        requires
            self.rendered_from(before),
            before.extends(old),
            before.tidy_from(old, Some(parent)),
            self.tidy_from(before, out),
            before.contains(parent),
        ensures
            forall|node: NodeId|
                !old.contains(node) && self.contains(node) && node != parent && out != Some(node)
                    ==> #[trigger] self.attached(node),
            forall|p: NodeId, i: int|
                !old.contains(p) && 0 <= i < self.children_of(p).len() ==> p.0 < (
                #[trigger] self.children_of(p)[i]).0,
            out is None ==> self.tidy_from(old, Some(parent)),
    {
        assert forall|node: NodeId|
            !old.contains(node) && self.contains(node) && node != parent && out != Some(
                node,
            ) implies #[trigger] self.attached(node) by {
            if before.contains(node) {
                assert(before.attached(node));
                self.lemma_attached_kept(before, node);
            }
        }
        assert forall|p: NodeId, i: int|
            !old.contains(p) && 0 <= i < self.children_of(p).len() implies p.0 < (
        #[trigger] self.children_of(p)[i]).0 by {
            if before.contains(p) {
                assert(self.children_of(p) == before.children_of(p));
            }
        }
    }

    /// Attaching what a child returned under the parent leaves a tidy
    /// tree with the parent alone to be kept.
    pub proof fn lemma_tidy_attach(self, old: DocumentView, parent: NodeId, child: NodeId)
        requires
            self.contains(parent),
            self.contains(child),
            child != root_id(),
            parent.0 < child.0,
            forall|node: NodeId|
                !old.contains(node) && self.contains(node) && node != parent && node != child
                    ==> #[trigger] self.attached(node),
            forall|p: NodeId, i: int|
                !old.contains(p) && 0 <= i < self.children_of(p).len() ==> p.0 < (
                #[trigger] self.children_of(p)[i]).0,
        ensures
            self.append_child(parent, child).tidy_from(old, Some(parent)),
    {
        let after = self.append_child(parent, child);
        let last = self.children_of(parent).len() as int;
        assert(after.is_child(parent, last, child));
        assert forall|node: NodeId|
            !old.contains(node) && after.contains(node) && Some(parent) != Some(
                node,
            ) implies #[trigger] after.attached(node) by {
            if node != child {
                assert(self.attached(node));
                let (p, i) = choose|p: NodeId, i: int| #[trigger] self.is_child(p, i, node);
                assert(after.children_of(p)[i] == self.children_of(p)[i]);
                assert(after.is_child(p, i, node));
            }
        }
        assert forall|p: NodeId, i: int|
            !old.contains(p) && 0 <= i < after.children_of(p).len() implies p.0 < (
        #[trigger] after.children_of(p)[i]).0 by {
            if p != parent || i < last {
                assert(after.children_of(p)[i] == self.children_of(p)[i]);
            }
        }
    }

    /// What changes no child sequence keeps a tidy tree tidy.
    pub proof fn lemma_tidy_same_children(
        self,
        mid: DocumentView,
        old: DocumentView,
        kept: Option<NodeId>,
    )
        requires
            mid.tidy_from(old, kept),
            self.children == mid.children,
            self.nodes == mid.nodes,
        ensures
            self.tidy_from(old, kept),
    {
        assert forall|node: NodeId|
            !old.contains(node) && self.contains(node) && kept != Some(node) implies #[trigger] self.attached(
            node,
        ) by {
            assert(mid.contains(node));
            assert(mid.attached(node));
            let (p, i) = choose|p: NodeId, i: int| #[trigger] mid.is_child(p, i, node);
            assert(self.children_of(p) == mid.children_of(p));
            assert(self.is_child(p, i, node));
        }
        assert forall|p: NodeId, i: int|
            !old.contains(p) && 0 <= i < self.children_of(p).len() implies p.0 < (
        #[trigger] self.children_of(p)[i]).0 by {
            assert(self.children_of(p) == mid.children_of(p));
        }
    }

    /// What was rendered tidily into the empty document, with the node that
    /// was returned attached under the root, is one tree.
    pub proof fn lemma_tidy_tree(self, kept: Option<NodeId>)
        requires
            self.wf(),
            self.rendered_from(DocumentView::empty()),
            self.tidy_from(DocumentView::empty(), kept),
            self.single_parent(),
            kept matches Some(node) ==> self.contains(node) && node != root_id() && self.detached(
                node,
            ),
        ensures
            kept matches Some(node) ==> self.append_child(root_id(), node).tree(),
            kept is None ==> self.tree(),
    {
        let empty = DocumentView::empty();
        assert(self.children_of(root_id()) == empty.children_of(root_id()));
        match kept {
            Some(child) => {
                let after = self.append_child(root_id(), child);
                self.lemma_append_detached(root_id(), child);
                assert(after.is_child(root_id(), 0, child));
                assert forall|node: NodeId|
                    after.contains(node) && node != root_id() implies #[trigger] after.attached(
                    node,
                ) by {
                    if node != child {
                        assert(self.attached(node));
                        let (p, i) = choose|p: NodeId, i: int| #[trigger] self.is_child(p, i, node);
                        assert(after.children_of(p)[i] == self.children_of(p)[i]);
                        assert(after.is_child(p, i, node));
                    }
                }
                assert forall|p: NodeId, i: int| 0 <= i < after.children_of(p).len() implies p.0 < (
                #[trigger] after.children_of(p)[i]).0 by {
                    if p != root_id() {
                        assert(after.children_of(p)[i] == self.children_of(p)[i]);
                    }
                }
            },
            None => {
                assert forall|p: NodeId, i: int| 0 <= i < self.children_of(p).len() implies p.0 < (
                #[trigger] self.children_of(p)[i]).0 by {}
            },
        }
    }

    /// Attaching a child that has no children of its own makes no cycle.
    pub proof fn lemma_append_leaf_acyclic(self, parent: NodeId, child: NodeId)
        requires
            self.acyclic(),
            self.children_of(child).len() == 0,
            child != parent,
        ensures
            self.append_child(parent, child).acyclic(),
    {
        let after = self.append_child(parent, child);
        if self.append_child_error(parent, child) is None {
            let rank = choose|rank: spec_fn(NodeId) -> nat| self.ranked(rank);
            let lowered = |id: NodeId|
                if id == child {
                    0nat
                } else {
                    rank(id) + 1
                };
            assert forall|p: NodeId, i: int| 0 <= i < after.children_of(p).len() implies lowered(
                #[trigger] after.children_of(p)[i],
            ) < lowered(p) by {
                if p == parent {
                    if i < self.children_of(p).len() {
                        assert(after.children_of(p)[i] == self.children_of(p)[i]);
                        assert(rank(self.children_of(p)[i]) < rank(p));
                    }
                } else {
                    assert(after.children_of(p) == self.children_of(p));
                    assert(rank(self.children_of(p)[i]) < rank(p));
                }
            }
            assert(after.ranked(lowered));
        }
    }

    /// What changes no child sequence attaches nothing and makes no cycle.
    pub proof fn lemma_same_children(self, old: DocumentView)
        requires
            self.children == old.children,
        ensures
            self.attaches_only_new(old),
            old.acyclic() ==> self.acyclic(),
            old.single_parent() ==> self.single_parent(),
            forall|node: NodeId| old.detached(node) ==> self.detached(node),
    {
        assert forall|p: NodeId| #[trigger] self.children_of(p) == old.children_of(p) by {}
        if old.single_parent() {
            assert forall|p: NodeId, i: int, q: NodeId, j: int|
                0 <= i < self.children_of(p).len() && 0 <= j < self.children_of(q).len()
                    && #[trigger] self.children_of(p)[i] == #[trigger] self.children_of(
                    q,
                )[j] implies p == q && i == j by {
                assert(old.children_of(p)[i] == old.children_of(q)[j]);
            }
        }
        assert forall|node: NodeId| old.detached(node) implies self.detached(node) by {
            assert forall|p: NodeId, i: int| 0 <= i < self.children_of(p).len() implies #[trigger] self.children_of(
                p,
            )[i] != node by {
                assert(old.children_of(p)[i] != node);
            }
        }
        if old.acyclic() {
            let rank = choose|rank: spec_fn(NodeId) -> nat| old.ranked(rank);
            assert forall|p: NodeId, i: int| 0 <= i < self.children_of(p).len() implies rank(
                #[trigger] self.children_of(p)[i],
            ) < rank(p) by {
                assert(self.children_of(p) == old.children_of(p));
            }
            assert(self.ranked(rank));
        }
    }
}

} // verus!
