//! Laws of the document: keys are unique within a scope and only there, and
//! the arena only grows.

use vstd::prelude::*;
use crate::document::model::{DocumentError, DocumentView, NodeView};
use crate::document::vdocument::{Key, NodeId};

verus! {

/// Key uniqueness, within one scope. Once `key` is bound in the scope of
/// `parent`, binding it there again, to whatever node, is refused as a
/// duplicate.
pub proof fn lemma_key_bound_once(
    doc: DocumentView,
    first: NodeId,
    second: NodeId,
    key: Key,
    parent: NodeId,
)
    requires
        doc.set_key_error(first, key, parent) is None,
    ensures
        doc.set_key(first, key, parent).set_key_error(second, key, parent) == Some(
            DocumentError::DuplicateKey,
        ),
{
}

/// Key uniqueness, across scopes. The same key can be bound in the scopes
/// of two different parents: binding it in one does not bar it in the
/// other.
pub proof fn lemma_key_scopes_apart(
    doc: DocumentView,
    first: NodeId,
    first_parent: NodeId,
    second: NodeId,
    second_parent: NodeId,
    key: Key,
)
    requires
        first_parent != second_parent,
        doc.set_key_error(first, key, first_parent) is None,
        doc.set_key_error(second, key, second_parent) is None,
    ensures
        doc.set_key(first, key, first_parent).set_key_error(second, key, second_parent) is None,
{
    let after = doc.set_key(first, key, first_parent);
    assert(after.scope(second_parent) == doc.scope(second_parent));
    if after.keyed(second_parent, second) {
        let k = choose|k: Key| after.has_key(second_parent, second, k);
        assert(doc.has_key(second_parent, second, k));
    }
}

/// The arena only grows. A node made after a document has grown gets an
/// identity above every identity that the document held before, so no
/// identity is given out twice.
pub proof fn lemma_new_identity_is_fresh(earlier: DocumentView, later: DocumentView, node: NodeView)
    requires
        later.wf(),
        later.extends(earlier),
    ensures
        !earlier.contains(later.create(node).1),
        forall|id: NodeId| earlier.contains(id) ==> id.0 < later.create(node).1.0,
        later.create(node).1.0 == later.nodes.len(),
{
}

/// Every identity in the child table and in the key table of a well-formed
/// document was made by that document.
pub proof fn lemma_identities_are_own(doc: DocumentView, parent: NodeId, i: int, key: Key)
    requires
        doc.wf(),
    ensures
        0 <= i < doc.children_of(parent).len() ==> doc.contains(parent) && doc.contains(
            doc.children_of(parent)[i],
        ),
        doc.key_bound(parent, key) ==> doc.contains(parent) && doc.contains(
            doc.scope(parent)[key],
        ),
{
}

} // verus!
