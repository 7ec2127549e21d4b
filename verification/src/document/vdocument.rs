//! The arena-backed store of a virtual document.

use vstd::prelude::*;
use std::collections::BTreeMap;
use std::collections::hash_map::DefaultHasher;
use std::hash::{Hash, Hasher};
use vstd::std_specs::convert::FromSpecImpl;
use crate::document::model::{DocumentError, DocumentView, NodeView, root_id};

verus! {

/// Identity of a node: its index in the arena of the document that made it.
#[derive(Clone, Copy, Debug, PartialEq, Eq, Structural, PartialOrd, Ord, Hash, Default)]
pub struct NodeId(pub usize);

/// A hashed user value that names a node within one parent's scope.
#[derive(Clone, Copy, Debug, PartialEq, Eq, Structural, PartialOrd, Ord, Default)]
pub struct Key(pub u64);

/// `Hash::hash` of std: feeds `value` to `state`. What is written is up to
/// the value's own impl of `Hash`, so nothing is claimed of the hasher
/// afterwards.
#[verifier::external_body]
fn feed<H: Hash>(value: &H, state: &mut DefaultHasher) {
    value.hash(state);
}

impl<H: Hash> FromSpecImpl<H> for Key {
    /// The hash of a value is up to the value's own impl of `Hash`: no
    /// specification is given for it.
    open spec fn obeys_from_spec() -> bool {
        false
    }

    open spec fn from_spec(h: H) -> Key {
        Key(0)
    }
}

/// The key of a user value: its hash under std's default hasher.
impl<H: Hash> From<H> for Key {
    fn from(h: H) -> (key: Key) {
        let mut hasher = DefaultHasher::new();
        feed(&h, &mut hasher);
        Key(hasher.finish())
    }
}

/// One parent's key scope: keys and nodes, each found from the other.
#[derive(Debug, PartialEq, Eq, PartialOrd, Ord)]
pub struct KeyMap {
    key_to_id: BTreeMap<u64, NodeId>,
    id_to_key: BTreeMap<usize, Key>,
}

impl View for KeyMap {
    type V = Map<Key, NodeId>;

    closed spec fn view(&self) -> Map<Key, NodeId> {
        Map::new(|k: Key| self.key_to_id@.contains_key(k.0), |k: Key| self.key_to_id@[k.0])
    }
}

impl KeyMap {
    /// The two directions hold the same pairs.
    pub closed spec fn wf(&self) -> bool {
        &&& forall|k: u64| #[trigger]
            self.key_to_id@.contains_key(k) ==> self.id_to_key@.contains_key(self.key_to_id@[k].0)
                && self.id_to_key@[self.key_to_id@[k].0] == Key(k)
        &&& forall|i: usize| #[trigger]
            self.id_to_key@.contains_key(i) ==> self.key_to_id@.contains_key(self.id_to_key@[i].0)
                && self.key_to_id@[self.id_to_key@[i].0] == NodeId(i)
    }

    /// Whether some key of the scope names `id`.
    pub open spec fn has_id(&self, id: NodeId) -> bool {
        exists|k: Key| self@.contains_key(k) && self@[k] == id
    }

    /// In a well-formed scope no node has two keys.
    pub proof fn lemma_injective(&self, k1: Key, k2: Key)
        requires
            self.wf(),
            self@.contains_key(k1),
            self@.contains_key(k2),
            self@[k1] == self@[k2],
        ensures
            k1 == k2,
    {
        assert(self.key_to_id@.contains_key(k1.0));
        assert(self.key_to_id@.contains_key(k2.0));
    }

    /// The empty scope.
    pub fn new() -> (scope: KeyMap)
        ensures
            scope.wf(),
            scope@ == Map::<Key, NodeId>::empty(),
    {
        let scope = KeyMap { key_to_id: BTreeMap::new(), id_to_key: BTreeMap::new() };
        assert(scope@ =~= Map::<Key, NodeId>::empty());
        scope
    }

    /// Binds `key` to `id`, unless the key is bound or the node has a key.
    pub fn insert(&mut self, id: NodeId, key: Key) -> (done: Result<(), DocumentError>)
        requires
            old(self).wf(),
        ensures
            final(self).wf(),
            done is Err <==> old(self)@.contains_key(key) || old(self).has_id(id),
            done is Err ==> done == Err::<(), DocumentError>(DocumentError::DuplicateKey)
                && final(self)@ == old(self)@,
            done is Ok ==> final(self)@ == old(self)@.insert(key, id),
    {
        if self.key_to_id.contains_key(&key.0) || self.id_to_key.contains_key(&id.0) {
            proof {
                if self.id_to_key@.contains_key(id.0) {
                    let k = self.id_to_key@[id.0];
                    assert(self@.contains_key(k) && self@[k] == id);
                }
                if !self.key_to_id@.contains_key(key.0) {
                    assert(self.id_to_key@.contains_key(id.0));
                }
            }
            return Err(DocumentError::DuplicateKey);
        }
        proof {
            if old(self).has_id(id) {
                let k = choose|k: Key| old(self)@.contains_key(k) && old(self)@[k] == id;
                assert(self.key_to_id@.contains_key(k.0));
            }
        }
        self.key_to_id.insert(key.0, id);
        self.id_to_key.insert(id.0, key);
        assert(self@ =~= old(self)@.insert(key, id));
        Ok(())
    }

    /// The node that `key` names.
    pub fn get_id(&self, key: Key) -> (id: Option<NodeId>)
        ensures
            id == if self@.contains_key(key) {
                Some(self@[key])
            } else {
                None
            },
    {
        match self.key_to_id.get(&key.0) {
            Some(id) => Some(*id),
            None => None,
        }
    }

    /// The key that names `id`.
    pub fn get_key(&self, id: NodeId) -> (key: Option<Key>)
        requires
            self.wf(),
        ensures
            match key {
                Some(k) => self@.contains_key(k) && self@[k] == id,
                None => !self.has_id(id),
            },
    {
        match self.id_to_key.get(&id.0) {
            Some(key) => Some(*key),
            None => {
                proof {
                    if self.has_id(id) {
                        let k = choose|k: Key| self@.contains_key(k) && self@[k] == id;
                        assert(self.key_to_id@.contains_key(k.0));
                    }
                }
                None
            },
        }
    }
}

impl Default for KeyMap {
    /// The empty scope.
    fn default() -> (scope: KeyMap)
        ensures
            scope.wf(),
            scope@ == Map::<Key, NodeId>::empty(),
    {
        KeyMap::new()
    }
}

/// A node of a document.
#[derive(Debug, PartialEq, Eq, PartialOrd, Ord)]
pub enum VNode {
    /// The implicit top-level parent; each document has exactly one.
    Root,
    /// A named container.
    Element(&'static str),
    /// A childless piece of text.
    Text(String),
}

impl View for VNode {
    type V = NodeView;

    open spec fn view(&self) -> NodeView {
        match self {
            VNode::Root => NodeView::Root,
            VNode::Element(tag) => NodeView::Element { tag: tag@ },
            VNode::Text(content) => NodeView::Text { content: content@ },
        }
    }
}

/// A virtual document: the arena of its nodes, the ordered children of each
/// parent and the key scope of each parent. It is built during one render
/// pass and only read afterwards.
#[derive(Debug, PartialEq, Eq)]
pub struct VDocument {
    nodes: Vec<VNode>,
    keys: BTreeMap<usize, KeyMap>,
    children: BTreeMap<usize, Vec<NodeId>>,
}

impl View for VDocument {
    type V = DocumentView;

    closed spec fn view(&self) -> DocumentView {
        DocumentView {
            nodes: Seq::new(self.nodes.len() as nat, |i: int| self.nodes[i]@),
            children: Map::new(
                |p: NodeId| self.children@.contains_key(p.0),
                |p: NodeId| self.children@[p.0]@,
            ),
            keys: Map::new(
                |p: NodeId| self.keys@.contains_key(p.0),
                |p: NodeId| self.keys@[p.0]@,
            ),
        }
    }
}

impl VDocument {
    /// The invariant of the store: each scope holds the same pairs in both
    /// directions, and the model is well-formed.
    pub closed spec fn wf(&self) -> bool {
        &&& forall|p: usize| #[trigger] self.keys@.contains_key(p) ==> self.keys@[p].wf()
        &&& self@.wf()
    }

    /// A well-formed store has a well-formed model.
    pub proof fn lemma_wf_view(&self)
        requires
            self.wf(),
        ensures
            self@.wf(),
    {
    }

    /// The fixed identity of the root.
    pub fn root(&self) -> (id: NodeId)
        ensures
            id == root_id(),
    {
        NodeId(0)
    }

    /// The number of nodes made so far, the root included.
    pub fn len(&self) -> (n: usize)
        ensures
            n == self@.nodes.len(),
    {
        self.nodes.len()
    }

    fn push_node(&mut self, node: VNode) -> (id: NodeId)
        requires
            old(self).wf(),
            node !is Root,
        ensures
            final(self).wf(),
            final(self)@ == old(self)@.create(node@).0,
            id == old(self)@.create(node@).1,
            id.0 == old(self)@.nodes.len(),
            id != root_id(),
            final(self)@.contains(id),
            final(self)@.detached(id),
            final(self)@.extends(old(self)@),
            old(self)@.acyclic() ==> final(self)@.acyclic(),
    {
        let next_index: usize = self.nodes.len();
        self.nodes.push(node);
        proof {
            assert(self.nodes.len() <= usize::MAX);
            assert(self@.nodes =~= old(self)@.nodes.push(node@));
            assert(self@.children =~= old(self)@.children);
            assert(self@.keys =~= old(self)@.keys);
            assert(self@ =~= old(self)@.create(node@).0);
            old(self)@.lemma_create(node@);
            self@.lemma_same_children(old(self)@);
        }
        NodeId(next_index)
    }

    /// Appends an element with the given tag to the arena. The new node is
    /// attached nowhere.
    pub fn create_element(&mut self, tag: &'static str) -> (id: NodeId)
        requires
            old(self).wf(),
        ensures
            final(self).wf(),
            final(self)@ == old(self)@.create_element(tag@).0,
            id == old(self)@.create_element(tag@).1,
            id.0 == old(self)@.nodes.len(),
            id != root_id(),
            final(self)@.contains(id),
            final(self)@.detached(id),
            final(self)@.extends(old(self)@),
            old(self)@.acyclic() ==> final(self)@.acyclic(),
    {
        self.push_node(VNode::Element(tag))
    }

    /// Appends a text node with the given content to the arena. The new node
    /// is attached nowhere.
    pub fn create_text_node(&mut self, content: &str) -> (id: NodeId)
        requires
            old(self).wf(),
        ensures
            final(self).wf(),
            final(self)@ == old(self)@.create_text_node(content@).0,
            id == old(self)@.create_text_node(content@).1,
            id.0 == old(self)@.nodes.len(),
            id != root_id(),
            final(self)@.contains(id),
            final(self)@.detached(id),
            final(self)@.extends(old(self)@),
            old(self)@.acyclic() ==> final(self)@.acyclic(),
    {
        self.push_node(VNode::Text(content.to_owned()))
    }

    /// Puts `child` at the end of the children of `parent`. Doing so twice
    /// puts it there twice. Refused, with the document unchanged, where an
    /// identity is not of this document or the child is the root.
    pub fn append_child(&mut self, parent: NodeId, child: NodeId) -> (done: Result<
        (),
        DocumentError,
    >)
        requires
            old(self).wf(),
        ensures
            final(self).wf(),
            final(self)@ == old(self)@.append_child(parent, child),
            final(self)@.extends(old(self)@),
            old(self)@.acyclic() && old(self)@.detached(parent) && child != parent
                ==> final(self)@.acyclic(),
            old(self)@.acyclic() && old(self)@.children_of(child).len() == 0 && child != parent
                ==> final(self)@.acyclic(),
            old(self)@.single_parent() && old(self)@.detached(child)
                ==> final(self)@.single_parent(),
            match old(self)@.append_child_error(parent, child) {
                Some(e) => done == Err::<(), DocumentError>(e),
                None => done == Ok::<(), DocumentError>(()),
            },
    {
        proof {
            if old(self)@.acyclic() && old(self)@.detached(parent) && child != parent {
                old(self)@.lemma_append_child_acyclic(parent, child);
            }
            if old(self)@.acyclic() && old(self)@.children_of(child).len() == 0 && child != parent {
                old(self)@.lemma_append_leaf_acyclic(parent, child);
            }
            if old(self)@.single_parent() && old(self)@.detached(child) {
                old(self)@.lemma_append_detached(parent, child);
            }
        }
        if parent.0 >= self.nodes.len() {
            return Err(DocumentError::UnknownParent);
        }
        if child.0 >= self.nodes.len() {
            return Err(DocumentError::UnknownChild);
        }
        if child.0 == 0 {
            return Err(DocumentError::RootAsChild);
        }
        let mut list = match self.children.remove(&parent.0) {
            Some(list) => list,
            None => Vec::new(),
        };
        assert(list@ == old(self)@.children_of(parent));
        list.push(child);
        self.children.insert(parent.0, list);
        proof {
            let after = old(self)@.append_child(parent, child);
            assert(self@.nodes =~= after.nodes);
            assert(self@.keys =~= after.keys);
            assert(self@.children =~= after.children);
            assert(self@ =~= after);
            old(self)@.lemma_append_child(parent, child);
        }
        Ok(())
    }
}

impl VDocument {
    /// Binds `key` to `node` in the key scope of `parent`. Refused as a
    /// duplicate, with the document unchanged, where the key is already
    /// bound in that scope or the node already has a key there; refused
    /// otherwise where an identity is not of this document. The same key may
    /// be bound in the scopes of two parents.
    pub fn set_key(&mut self, node: NodeId, key: Key, parent: NodeId) -> (done: Result<
        (),
        DocumentError,
    >)
        requires
            old(self).wf(),
        ensures
            final(self).wf(),
            final(self)@ == old(self)@.set_key(node, key, parent),
            final(self)@.extends(old(self)@),
            old(self)@.acyclic() ==> final(self)@.acyclic(),
            match old(self)@.set_key_error(node, key, parent) {
                Some(e) => done == Err::<(), DocumentError>(e),
                None => done == Ok::<(), DocumentError>(()),
            },
    {
        proof {
            old(self)@.set_key(node, key, parent).lemma_same_children(old(self)@);
        }
        let (mut scope, had_scope) = match self.keys.remove(&parent.0) {
            Some(scope) => (scope, true),
            None => (KeyMap::new(), false),
        };
        let ghost before = scope;
        assert(before@ == old(self)@.scope(parent));
        assert(had_scope == old(self)@.keys.contains_key(parent));
        proof {
            if before.has_id(node) {
                let k = choose|k: Key| before@.contains_key(k) && before@[k] == node;
                assert(old(self)@.has_key(parent, node, k));
            }
            if old(self)@.keyed(parent, node) {
                let k = choose|k: Key| old(self)@.has_key(parent, node, k);
                assert(before@.contains_key(k) && before@[k] == node);
            }
            assert(before.has_id(node) <==> old(self)@.keyed(parent, node));
            assert(before@.contains_key(key) <==> old(self)@.key_bound(parent, key));
        }
        let duplicate = scope.get_id(key).is_some() || scope.get_key(node).is_some();
        let known_parent = parent.0 < self.nodes.len();
        let known_node = node.0 < self.nodes.len();
        let done = if duplicate {
            Err(DocumentError::DuplicateKey)
        } else if !known_parent {
            Err(DocumentError::UnknownParent)
        } else if !known_node {
            Err(DocumentError::UnknownChild)
        } else {
            scope.insert(node, key)
        };
        assert(done is Err <==> old(self)@.set_key_error(node, key, parent) is Some);
        if had_scope || done.is_ok() {
            self.keys.insert(parent.0, scope);
        }
        proof {
            let after = old(self)@.set_key(node, key, parent);
            assert(self@.nodes =~= after.nodes);
            assert(self@.children =~= after.children);
            assert(self@.keys =~= after.keys);
            assert(self@ =~= after);
            old(self)@.lemma_set_key(node, key, parent);
        }
        match done {
            Ok(_) => Ok(()),
            Err(e) => Err(e),
        }
    }

    /// The number of children of `parent`.
    pub fn child_count(&self, parent: NodeId) -> (n: usize)
        ensures
            n == self@.children_of(parent).len(),
    {
        match self.children.get(&parent.0) {
            Some(list) => list.len(),
            None => 0,
        }
    }

    /// The child of `parent` at `index`, if it has that many.
    pub fn child(&self, parent: NodeId, index: usize) -> (id: Option<NodeId>)
        ensures
            id == if index < self@.children_of(parent).len() {
                Some(self@.children_of(parent)[index as int])
            } else {
                None
            },
            self@.children_of(parent).len() <= usize::MAX,
    {
        match self.children.get(&parent.0) {
            Some(list) => if index < list.len() {
                Some(list[index])
            } else {
                None
            },
            None => None,
        }
    }

    /// The node with identity `id`, if this document made it.
    pub fn node(&self, id: NodeId) -> (node: Option<&VNode>)
        ensures
            match node {
                Some(n) => self@.contains(id) && n@ == self@.nodes[id.0 as int],
                None => !self@.contains(id),
            },
    {
        if id.0 < self.nodes.len() {
            Some(&self.nodes[id.0])
        } else {
            None
        }
    }

    /// The node that `key` names in the scope of `parent`.
    pub fn keyed_child(&self, parent: NodeId, key: Key) -> (id: Option<NodeId>)
        ensures
            id == if self@.key_bound(parent, key) {
                Some(self@.scope(parent)[key])
            } else {
                None
            },
    {
        match self.keys.get(&parent.0) {
            Some(scope) => scope.get_id(key),
            None => None,
        }
    }

    /// The key that `node` has in the scope of `parent`.
    pub fn key_of(&self, parent: NodeId, node: NodeId) -> (key: Option<Key>)
        requires
            self.wf(),
        ensures
            match key {
                Some(k) => self@.has_key(parent, node, k),
                None => !self@.keyed(parent, node),
            },
    {
        match self.keys.get(&parent.0) {
            Some(scope) => {
                let key = scope.get_key(node);
                proof {
                    if key is None && self@.keyed(parent, node) {
                        let k = choose|k: Key| self@.has_key(parent, node, k);
                        assert(scope@.contains_key(k) && scope@[k] == node);
                    }
                }
                key
            },
            None => None,
        }
    }
}

impl Default for VDocument {
    /// The document that holds the root and nothing else.
    fn default() -> (doc: VDocument)
        ensures
            doc.wf(),
            doc@ == DocumentView::empty(),
            doc@.acyclic(),
            doc@.single_parent(),
    {
        let mut nodes: Vec<VNode> = Vec::new();
        nodes.push(VNode::Root);
        let doc = VDocument { nodes, keys: BTreeMap::new(), children: BTreeMap::new() };
        proof {
            assert(doc@.nodes =~= DocumentView::empty().nodes);
            assert(doc@.children =~= DocumentView::empty().children);
            assert(doc@.keys =~= DocumentView::empty().keys);
            assert(doc@ =~= DocumentView::empty());
            DocumentView::lemma_empty_acyclic();
        }
        doc
    }
}

} // verus!
