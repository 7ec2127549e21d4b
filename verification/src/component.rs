//! The component protocol: values that describe how they materialise into a
//! virtual document, and the wrappers that compose them.

use vstd::prelude::*;
use std::collections::{BTreeMap, BTreeSet};
use std::hash::Hash;
use crate::document::model::{DocumentError, DocumentView, NodeView, root_id};
use crate::document::vdocument::{Key, NodeId, VDocument};

verus! {

/// A value that renders itself into a document.
///
/// `render` returns the node that the component made, or nothing where it
/// contributes no node; a parent then attaches nothing. An error ends the
/// render pass.
pub trait Component {
    /// The document that rendering into `doc` gives, and what `render`
    /// returns.
    spec fn rendered(&self, doc: DocumentView) -> (DocumentView, Result<Option<NodeId>, DocumentError>);

    /// Whether the component builds a tidy tree: where its render succeeds,
    /// every node it made, but the one it returns, is somebody's child, and
    /// every parent was made before its children.
    spec fn tidy(&self) -> bool;

    /// Renders the component into `doc`. The document only grows; the nodes
    /// that were there keep their children; only nodes made by this render
    /// are attached or given a key; no cycle is made and no node becomes a
    /// child in two places; and a node that is returned was made by this
    /// render and is attached nowhere: to attach it is the caller's part.
    fn render(&self, doc: &mut VDocument) -> (out: Result<Option<NodeId>, DocumentError>)
        requires
            old(doc).wf(),
        ensures
            final(doc).wf(),
            final(doc)@ == self.rendered(old(doc)@).0,
            out == self.rendered(old(doc)@).1,
            final(doc)@.rendered_from(old(doc)@),
            old(doc)@.acyclic() ==> final(doc)@.acyclic(),
            old(doc)@.single_parent() ==> final(doc)@.single_parent(),
            out matches Ok(Some(id)) ==> final(doc)@.contains(id) && !old(doc)@.contains(id)
                && final(doc)@.detached(id),
            self.tidy() && out is Ok ==> final(doc)@.tidy_from(old(doc)@, out->Ok_0),
    ;
}

/// The component that renders to nothing. It stands where a container is
/// to have no children.
#[derive(Default, Debug, Eq, PartialEq, Ord, PartialOrd, Hash, Clone)]
pub struct Empty;

impl Component for Empty {
    open spec fn rendered(&self, doc: DocumentView) -> (
        DocumentView,
        Result<Option<NodeId>, DocumentError>,
    ) {
        (doc, Ok(None))
    }

    open spec fn tidy(&self) -> bool {
        true
    }

    fn render(&self, doc: &mut VDocument) -> (out: Result<Option<NodeId>, DocumentError>) {
        proof {
            doc@.lemma_same_tables(doc@);
            doc.lemma_wf_view();
            doc@.lemma_no_new_children(doc@);
        }
        Ok(None)
    }
}

/// A piece of text renders to a text node without children or key.
impl Component for &'static str {
    open spec fn rendered(&self, doc: DocumentView) -> (
        DocumentView,
        Result<Option<NodeId>, DocumentError>,
    ) {
        (doc.create_text_node(self@).0, Ok(Some(doc.create_text_node(self@).1)))
    }

    open spec fn tidy(&self) -> bool {
        true
    }

    fn render(&self, doc: &mut VDocument) -> (out: Result<Option<NodeId>, DocumentError>) {
        let id = doc.create_text_node(*self);
        proof {
            doc@.lemma_same_tables(old(doc)@);
            old(doc).lemma_wf_view();
            doc@.lemma_no_new_children(old(doc)@);
        }
        Ok(Some(id))
    }
}

/// A component with a bag of properties: attribute names, each with a set
/// of values. Properties are metadata of the component; they add no nodes
/// to a document.
pub trait PropertyComponent: Component {
    type Properties;

    /// The properties, as a value.
    spec fn properties_spec(&self) -> Self::Properties;

    /// The properties.
    fn properties(&self) -> (properties: &Self::Properties)
        ensures
            *properties == self.properties_spec(),
    ;

    /// The properties, to change them.
    fn properties_mut(&mut self) -> (properties: &mut Self::Properties)
        ensures
            *properties == old(self).properties_spec(),
            final(self).properties_spec() == *final(properties),
    ;
}

/// A component with an ordered collection of child components.
pub trait ParentComponent: Component {
    type Children;

    /// The children, as a value.
    spec fn children_spec(&self) -> Self::Children;

    /// The children.
    fn children(&self) -> (children: &Self::Children)
        ensures
            *children == self.children_spec(),
    ;

    /// The children, to change them.
    fn children_mut(&mut self) -> (children: &mut Self::Children)
        ensures
            *children == old(self).children_spec(),
            final(self).children_spec() == *final(children),
    ;
}

/// What rendering the children `children[from..]` into `doc` gives, each
/// child that renders to a node being attached under `parent`: the node of
/// the parent, or the first error. Attaching is never refused: a child's
/// node is of the document and is not the root.
pub open spec fn render_children<C: Component>(
    children: Seq<C>,
    from: int,
    parent: NodeId,
    doc: DocumentView,
) -> (DocumentView, Result<Option<NodeId>, DocumentError>)
    decreases children.len() - from,
{
    if 0 <= from < children.len() {
        let (after, out) = children[from].rendered(doc);
        match out {
            Err(e) => (after, Err(e)),
            Ok(None) => render_children(children, from + 1, parent, after),
            Ok(Some(child)) => render_children(
                children,
                from + 1,
                parent,
                after.append_child(parent, child),
            ),
        }
    } else {
        (doc, Ok(Some(parent)))
    }
}

/// The nodes that rendering the children `children[from..]` into `doc`
/// attaches under `parent`, in order: the node of each child that renders
/// to one, up to the first error. A child that renders to nothing leaves no
/// place behind.
pub open spec fn attached_nodes<C: Component>(
    children: Seq<C>,
    from: int,
    parent: NodeId,
    doc: DocumentView,
) -> Seq<NodeId>
    decreases children.len() - from,
{
    if 0 <= from < children.len() {
        let (after, out) = children[from].rendered(doc);
        match out {
            Err(_) => Seq::empty(),
            Ok(None) => attached_nodes(children, from + 1, parent, after),
            Ok(Some(child)) => seq![child] + attached_nodes(
                children,
                from + 1,
                parent,
                after.append_child(parent, child),
            ),
        }
    } else {
        Seq::empty()
    }
}

/// A `div` element with children and properties.
#[derive(Default, Debug, Eq, PartialEq, Ord, PartialOrd, Hash, Clone)]
pub struct Div<C = Empty> {
    children: Vec<C>,
    properties: BTreeMap<String, BTreeSet<String>>,
}

impl<C> Div<C> {
    /// The child components, in order.
    pub closed spec fn children_value(&self) -> Vec<C> {
        self.children
    }

    /// The properties.
    pub closed spec fn properties_value(&self) -> BTreeMap<String, BTreeSet<String>> {
        self.properties
    }

    /// A `div` without children or properties.
    pub fn new() -> (div: Self)
        ensures
            div.children_value()@ == Seq::<C>::empty(),
            div.properties_value()@ == Map::<String, BTreeSet<String>>::empty(),
    {
        Div { properties: BTreeMap::new(), children: Vec::new() }
    }

    /// A `div` with the given properties and no children.
    pub fn with_properties(properties: BTreeMap<String, BTreeSet<String>>) -> (div: Self)
        ensures
            div.children_value()@ == Seq::<C>::empty(),
            div.properties_value() == properties,
    {
        Div { properties, children: Vec::new() }
    }
}

impl<C: Component> Div<C> {
    /// A `div` with the given children and no properties.
    pub fn with_children(children: Vec<C>) -> (div: Self)
        ensures
            div.children_value() == children,
            div.properties_value()@ == Map::<String, BTreeSet<String>>::empty(),
    {
        Div { properties: BTreeMap::new(), children }
    }
}

/// A `div` renders its own element first, then each child in order; a child
/// that renders to a node is attached under the element, one that renders
/// to nothing is passed over.
impl<C: Component> Component for Div<C> {
    open spec fn rendered(&self, doc: DocumentView) -> (
        DocumentView,
        Result<Option<NodeId>, DocumentError>,
    ) {
        let (with_parent, parent) = doc.create_element("div"@);
        render_children(self.children_value()@, 0, parent, with_parent)
    }

    open spec fn tidy(&self) -> bool {
        forall|i: int| 0 <= i < self.children_value()@.len() ==> (#[trigger] self.children_value()@[i]).tidy()
    }

    fn render(&self, doc: &mut VDocument) -> (out: Result<Option<NodeId>, DocumentError>)
        ensures
            out matches Ok(Some(id)) ==> {
                &&& id.0 == old(doc)@.nodes.len()
                &&& final(doc)@.nodes[id.0 as int] == (NodeView::Element { tag: "div"@ })
                &&& final(doc)@.detached(id)
                &&& forall|p: NodeId| !final(doc)@.keyed(p, id)
                &&& final(doc)@.children_of(id) == attached_nodes(
                    self.children_value()@,
                    0,
                    id,
                    old(doc)@.create_element("div"@).0,
                )
            },
    {
        let parent = doc.create_element("div");
        let ghost start = doc@;
        proof {
            old(doc).lemma_wf_view();
            start.lemma_same_tables(old(doc)@);
            start.lemma_no_new_children(old(doc)@);
            old(doc)@.lemma_foreign_is_bare(parent);
            assert(start.children_of(parent) =~= Seq::empty());
            assert forall|p: NodeId| !start.keyed(p, parent) by {
                if start.keyed(p, parent) {
                    let k = choose|k: Key| start.has_key(p, parent, k);
                    assert(old(doc)@.has_key(p, parent, k));
                    assert(old(doc)@.keyed(p, parent));
                    assert(false);
                }
            }
        }
        let mut i: usize = 0;
        while i < self.children.len()
            invariant
                i <= self.children.len(),
                doc.wf(),
                old(doc)@.wf(),
                doc@.rendered_from(old(doc)@),
                old(doc)@.acyclic() ==> doc@.acyclic(),
                old(doc)@.single_parent() ==> doc@.single_parent(),
                self.tidy() ==> doc@.tidy_from(old(doc)@, Some(parent)),
                self.children@ == self.children_value()@,
                doc@.contains(parent),
                parent.0 == old(doc)@.nodes.len(),
                doc@.nodes[parent.0 as int] == (NodeView::Element { tag: "div"@ }),
                doc@.detached(parent),
                forall|p: NodeId| !doc@.keyed(p, parent),
                start == old(doc)@.create_element("div"@).0,
                self.rendered(old(doc)@) == render_children(self.children@, 0, parent, start),
                render_children(self.children@, i as int, parent, doc@) == render_children(
                    self.children@,
                    0,
                    parent,
                    start,
                ),
                doc@.children_of(parent) + attached_nodes(self.children@, i as int, parent, doc@)
                    == attached_nodes(self.children@, 0, parent, start),
            decreases self.children.len() - i,
        {
            let ghost before = doc@;
            let rendered = self.children[i].render(doc);
            let ghost mid = doc@;
            proof {
                mid.lemma_rendered_from_trans(before, old(doc)@);
                mid.lemma_detached_kept(before, parent);
                assert(mid.children_of(parent) == before.children_of(parent));
                assert forall|p: NodeId| !mid.keyed(p, parent) by {
                    if mid.keyed(p, parent) {
                        let k = choose|k: Key| mid.has_key(p, parent, k);
                        assert(mid.key_bound(p, k));
                        if before.key_bound(p, k) {
                            assert(before.keys.contains_key(p) && before.keys[p].contains_key(k));
                            assert(before.has_key(p, parent, k));
                            assert(before.keyed(p, parent));
                        } else {
                            assert(!before.contains(mid.scope(p)[k]));
                        }
                        assert(false);
                    }
                }
            }
            proof {
                if self.tidy() && rendered is Ok {
                    assert(self.children_value()@[i as int].tidy());
                    mid.lemma_tidy_step(before, old(doc)@, parent, rendered->Ok_0);
                }
            }
            match rendered {
                Err(e) => {
                    return Err(e);
                },
                Ok(None) => {},
                Ok(Some(child)) => {
                    let attached = doc.append_child(parent, child);
                    assert(attached is Ok);
                    proof {
                        let last = doc@;
                        last.lemma_extends_trans(mid, old(doc)@);
                        if old(doc)@.acyclic() {
                            mid.lemma_append_child_acyclic(parent, child);
                        }
                        if old(doc)@.single_parent() {
                            mid.lemma_append_detached(parent, child);
                        }
                        if self.tidy() {
                            mid.lemma_tidy_attach(old(doc)@, parent, child);
                        }
                        assert forall|p: NodeId, j: int|
                            0 <= j < last.children_of(p).len() implies #[trigger] last.children_of(
                            p,
                        )[j] != parent by {
                            if p != parent || j < mid.children_of(p).len() {
                                assert(last.children_of(p)[j] == mid.children_of(p)[j]);
                            }
                        }
                        assert forall|p: NodeId, j: int|
                            old(doc)@.children_of(p).len() <= j < last.children_of(p).len() implies !old(
                            doc,
                        )@.contains(#[trigger] last.children_of(p)[j]) by {
                            if p != parent || j < mid.children_of(p).len() {
                                assert(last.children_of(p)[j] == mid.children_of(p)[j]);
                            }
                        }
                        assert forall|p: NodeId| old(doc)@.contains(p) implies #[trigger] last.children_of(
                            p,
                        ) == old(doc)@.children_of(p) by {
                            assert(mid.children_of(p) == old(doc)@.children_of(p));
                        }
                        assert forall|p: NodeId| !last.keyed(p, parent) by {
                            if last.keyed(p, parent) {
                                let k = choose|k: Key| last.has_key(p, parent, k);
                                assert(mid.has_key(p, parent, k));
                                assert(mid.keyed(p, parent));
                                assert(false);
                            }
                        }
                        assert forall|p: NodeId, k: Key| #[trigger]
                            last.key_bound(p, k) && !old(doc)@.key_bound(p, k) implies !old(
                            doc,
                        )@.contains(last.scope(p)[k]) by {
                            assert(mid.key_bound(p, k));
                            assert(last.scope(p)[k] == mid.scope(p)[k]);
                        }
                        assert(last.children_of(parent) + attached_nodes(
                            self.children@,
                            i as int + 1,
                            parent,
                            last,
                        ) =~= before.children_of(parent) + attached_nodes(
                            self.children@,
                            i as int,
                            parent,
                            before,
                        ));
                    }
                },
            }
            i += 1;
        }
        proof {
            assert(doc@.children_of(parent) + attached_nodes(
                self.children@,
                i as int,
                parent,
                doc@,
            ) =~= doc@.children_of(parent));
        }
        Ok(Some(parent))
    }
}

impl<C: Component> ParentComponent for Div<C> {
    type Children = Vec<C>;

    open spec fn children_spec(&self) -> Vec<C> {
        self.children_value()
    }

    fn children(&self) -> (children: &Vec<C>) {
        &self.children
    }

    fn children_mut(&mut self) -> (children: &mut Vec<C>)
        ensures
            final(self).properties_value() == old(self).properties_value(),
    {
        &mut self.children
    }
}

impl<C: Component> PropertyComponent for Div<C> {
    type Properties = BTreeMap<String, BTreeSet<String>>;

    open spec fn properties_spec(&self) -> BTreeMap<String, BTreeSet<String>> {
        self.properties_value()
    }

    fn properties(&self) -> (properties: &BTreeMap<String, BTreeSet<String>>) {
        &self.properties
    }

    fn properties_mut(&mut self) -> (properties: &mut BTreeMap<String, BTreeSet<String>>)
        ensures
            final(self).children_value() == old(self).children_value(),
    {
        &mut self.properties
    }
}

/// A component with a key: it renders the inner component and, where that
/// gives a node, binds the key to the node in the scope of the parent that
/// was declared when the wrapper was made.
#[derive(Debug, Eq, PartialEq, Ord, PartialOrd, Hash, Clone)]
pub struct Keyed<C, K> {
    component: C,
    key: K,
    hashed: u64,
    parent_id: NodeId,
}

impl<C, K> Keyed<C, K> {
    /// The inner component.
    pub closed spec fn inner(&self) -> C {
        self.component
    }

    /// The user's value that the key was made from.
    pub closed spec fn key_value(&self) -> K {
        self.key
    }

    /// The key under which the node is registered.
    pub closed spec fn scope_key(&self) -> Key {
        Key(self.hashed)
    }

    /// The parent in whose scope the key is bound.
    pub closed spec fn scope_parent(&self) -> NodeId {
        self.parent_id
    }
}

impl<C, K: Hash> Keyed<C, K> {
    /// Wraps `component`, to be registered under the hash of `key` in the
    /// scope of `parent_id`. The caller names the parent that the node will
    /// have; it is not inferred.
    pub fn new(component: C, key: K, parent_id: NodeId) -> (keyed: Self)
        ensures
            keyed.inner() == component,
            keyed.key_value() == key,
            keyed.scope_parent() == parent_id,
    {
        let hashed = Key::from(&key);
        Keyed { component, key, hashed: hashed.0, parent_id }
    }
}

impl<C> Keyed<C, Key> {
    /// Wraps `component`, to be registered under `key` itself in the scope
    /// of `parent_id`.
    pub fn with_key(component: C, key: Key, parent_id: NodeId) -> (keyed: Self)
        ensures
            keyed.inner() == component,
            keyed.key_value() == key,
            keyed.scope_key() == key,
            keyed.scope_parent() == parent_id,
    {
        Keyed { component, key, hashed: key.0, parent_id }
    }
}

impl<C: Default, K: Default + Hash> Default for Keyed<C, K> {
    /// The default component under the hash of the default key, in the
    /// scope of the root.
    fn default() -> (keyed: Self)
        ensures
            call_ensures(C::default, (), keyed.inner()),
            call_ensures(K::default, (), keyed.key_value()),
            keyed.scope_parent() == root_id(),
    {
        Keyed::new(C::default(), K::default(), NodeId(0))
    }
}

impl<C: Component, K> Component for Keyed<C, K> {
    open spec fn rendered(&self, doc: DocumentView) -> (
        DocumentView,
        Result<Option<NodeId>, DocumentError>,
    ) {
        let (after, out) = self.inner().rendered(doc);
        match out {
            Ok(Some(id)) => match after.set_key_error(id, self.scope_key(), self.scope_parent()) {
                Some(e) => (after, Err(e)),
                None => (after.set_key(id, self.scope_key(), self.scope_parent()), Ok(Some(id))),
            },
            _ => (after, out),
        }
    }

    open spec fn tidy(&self) -> bool {
        self.inner().tidy()
    }

    fn render(&self, doc: &mut VDocument) -> (out: Result<Option<NodeId>, DocumentError>) {
        let ghost before = doc@;
        match self.component.render(doc) {
            Ok(Some(id)) => {
                let ghost mid = doc@;
                let bound = doc.set_key(id, Key(self.hashed), self.parent_id);
                proof {
                    let last = doc@;
                    last.lemma_same_children(mid);
                    assert forall|p: NodeId, k: Key| #[trigger]
                        last.key_bound(p, k) && !before.key_bound(p, k) implies !before.contains(
                        last.scope(p)[k],
                    ) by {
                        if mid.key_bound(p, k) {
                            assert(mid.keys.contains_key(p) && mid.keys[p].contains_key(k));
                            assert(last.scope(p)[k] == mid.scope(p)[k]);
                        }
                    }
                    last.lemma_extends_trans(mid, before);
                    last.lemma_attaches_only_new_trans(mid, before);
                    if self.tidy() {
                        last.lemma_tidy_same_children(mid, before, Some(id));
                    }
                    assert forall|p: NodeId| before.contains(p) implies #[trigger] last.children_of(
                        p,
                    ) == before.children_of(p) by {
                        assert(mid.children_of(p) == before.children_of(p));
                    }
                }
                match bound {
                    Ok(()) => Ok(Some(id)),
                    Err(e) => Err(e),
                }
            },
            out => out,
        }
    }
}

impl<C: ParentComponent, K> ParentComponent for Keyed<C, K> {
    type Children = C::Children;

    open spec fn children_spec(&self) -> C::Children {
        self.inner().children_spec()
    }

    fn children(&self) -> (children: &C::Children) {
        self.component.children()
    }

    fn children_mut(&mut self) -> (children: &mut C::Children)
        ensures
            final(self).scope_key() == old(self).scope_key(),
            final(self).scope_parent() == old(self).scope_parent(),
    {
        self.component.children_mut()
    }
}

impl<C: PropertyComponent, K> PropertyComponent for Keyed<C, K> {
    type Properties = C::Properties;

    open spec fn properties_spec(&self) -> C::Properties {
        self.inner().properties_spec()
    }

    fn properties(&self) -> (properties: &C::Properties) {
        self.component.properties()
    }

    fn properties_mut(&mut self) -> (properties: &mut C::Properties)
        ensures
            final(self).scope_key() == old(self).scope_key(),
            final(self).scope_parent() == old(self).scope_parent(),
    {
        self.component.properties_mut()
    }
}

/// The document that rendering `component` into an empty document and
/// attaching its node under the root gives, or the error that ended the
/// render pass.
pub open spec fn document_of<C: Component>(component: C) -> Result<DocumentView, DocumentError> {
    let (after, out) = component.rendered(DocumentView::empty());
    match out {
        Err(e) => Err(e),
        Ok(None) => Ok(after),
        Ok(Some(child)) => Ok(after.append_child(root_id(), child)),
    }
}

impl VDocument {
    /// Turns a component tree into a document: renders `component` into a
    /// fresh document and, where that gives a node, attaches the node under
    /// the root. The document has no cycle, and no node of it is a child in
    /// two places; of a component that builds a tidy tree it is one tree.
    pub fn from_component<C: Component>(component: C) -> (made: Result<VDocument, DocumentError>)
        ensures
            match made {
                Ok(doc) => doc.wf() && doc@.acyclic() && doc@.single_parent() && (component.tidy()
                    ==> doc@.tree()) && document_of(component) == Ok::<
                    DocumentView,
                    DocumentError,
                >(doc@),
                Err(e) => document_of(component) == Err::<DocumentView, DocumentError>(e),
            },
    {
        let mut new_doc = VDocument::default();
        proof {
            DocumentView::lemma_empty_acyclic();
        }
        match component.render(&mut new_doc) {
            Err(e) => Err(e),
            Ok(None) => {
                proof {
                    new_doc.lemma_wf_view();
                    if component.tidy() {
                        new_doc@.lemma_tidy_tree(None);
                    }
                }
                Ok(new_doc)
            },
            Ok(Some(child)) => {
                let root = new_doc.root();
                proof {
                    new_doc.lemma_wf_view();
                    new_doc@.lemma_root_detached();
                    new_doc@.lemma_append_child_acyclic(root, child);
                    new_doc@.lemma_append_detached(root, child);
                    if component.tidy() {
                        new_doc@.lemma_tidy_tree(Some(child));
                    }
                }
                let attached = new_doc.append_child(root, child);
                assert(attached is Ok);
                Ok(new_doc)
            },
        }
    }
}

} // verus!
