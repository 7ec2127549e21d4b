use rende::{DocumentError, Key, KeyMap, NodeId, VDocument, VNode};

#[test]
fn fresh_document_holds_only_the_root() {
    let doc = VDocument::default();
    assert_eq!(doc.len(), 1);
    assert_eq!(doc.root(), NodeId(0));
    assert_eq!(doc.node(NodeId(0)), Some(&VNode::Root));
    assert_eq!(doc.node(NodeId(1)), None);
    assert_eq!(doc.child_count(doc.root()), 0);
    assert_eq!(doc.child(doc.root(), 0), None);
}

#[test]
fn identities_are_given_in_order_of_creation() {
    let mut doc = VDocument::default();
    let a = doc.create_element("div");
    let b = doc.create_text_node("hello");
    let c = doc.create_element("span");
    assert_eq!((a, b, c), (NodeId(1), NodeId(2), NodeId(3)));
    assert!(a < b && b < c);
    assert_eq!(doc.len(), 4);
    assert_eq!(doc.node(a), Some(&VNode::Element("div")));
    assert_eq!(doc.node(b), Some(&VNode::Text("hello".to_string())));
    assert_eq!(doc.node(c), Some(&VNode::Element("span")));
}

#[test]
fn created_nodes_are_attached_nowhere() {
    let mut doc = VDocument::default();
    let a = doc.create_element("div");
    let b = doc.create_text_node("x");
    assert_eq!(doc.child_count(doc.root()), 0);
    assert_eq!(doc.child_count(a), 0);
    assert_eq!(doc.child_count(b), 0);
}

#[test]
fn children_keep_the_order_of_insertion() {
    let mut doc = VDocument::default();
    let parent = doc.create_element("div");
    let first = doc.create_text_node("1");
    let second = doc.create_text_node("2");
    assert_eq!(doc.append_child(parent, second), Ok(()));
    assert_eq!(doc.append_child(parent, first), Ok(()));
    assert_eq!(doc.child_count(parent), 2);
    assert_eq!(doc.child(parent, 0), Some(second));
    assert_eq!(doc.child(parent, 1), Some(first));
    assert_eq!(doc.child(parent, 2), None);
}

#[test]
fn appending_twice_inserts_twice() {
    let mut doc = VDocument::default();
    let parent = doc.create_element("div");
    let child = doc.create_text_node("x");
    assert_eq!(doc.append_child(parent, child), Ok(()));
    assert_eq!(doc.append_child(parent, child), Ok(()));
    assert_eq!(doc.child_count(parent), 2);
    assert_eq!(doc.child(parent, 0), Some(child));
    assert_eq!(doc.child(parent, 1), Some(child));
}

#[test]
fn a_child_made_before_its_parent_can_be_attached() {
    let mut doc = VDocument::default();
    let child = doc.create_text_node("x");
    let parent = doc.create_element("div");
    assert_eq!(doc.append_child(parent, child), Ok(()));
    assert_eq!(doc.child(parent, 0), Some(child));
}

#[test]
fn append_child_refuses_foreign_identities() {
    let mut doc = VDocument::default();
    let a = doc.create_element("div");
    assert_eq!(doc.append_child(NodeId(5), a), Err(DocumentError::UnknownParent));
    assert_eq!(doc.append_child(a, NodeId(5)), Err(DocumentError::UnknownChild));
    assert_eq!(doc.append_child(NodeId(5), NodeId(6)), Err(DocumentError::UnknownParent));
    assert_eq!(doc.child_count(a), 0);
    assert_eq!(doc.len(), 2);
}

#[test]
fn the_root_is_nobodys_child() {
    let mut doc = VDocument::default();
    let a = doc.create_element("div");
    assert_eq!(doc.append_child(a, doc.root()), Err(DocumentError::RootAsChild));
    assert_eq!(doc.append_child(doc.root(), doc.root()), Err(DocumentError::RootAsChild));
    assert_eq!(doc.child_count(a), 0);
    assert_eq!(doc.child_count(doc.root()), 0);
}

#[test]
fn same_key_twice_under_one_parent_fails() {
    let mut doc = VDocument::default();
    let parent = doc.create_element("div");
    let a = doc.create_text_node("a");
    let b = doc.create_text_node("b");
    assert_eq!(doc.set_key(a, Key(7), parent), Ok(()));
    assert_eq!(doc.set_key(b, Key(7), parent), Err(DocumentError::DuplicateKey));
    assert_eq!(doc.set_key(a, Key(7), parent), Err(DocumentError::DuplicateKey));
    assert_eq!(doc.keyed_child(parent, Key(7)), Some(a));
    assert_eq!(doc.key_of(parent, a), Some(Key(7)));
    assert_eq!(doc.key_of(parent, b), None);
}

#[test]
fn same_key_under_two_parents_succeeds() {
    let mut doc = VDocument::default();
    let left = doc.create_element("div");
    let right = doc.create_element("div");
    let a = doc.create_text_node("a");
    let b = doc.create_text_node("b");
    assert_eq!(doc.set_key(a, Key(7), left), Ok(()));
    assert_eq!(doc.set_key(b, Key(7), right), Ok(()));
    assert_eq!(doc.keyed_child(left, Key(7)), Some(a));
    assert_eq!(doc.keyed_child(right, Key(7)), Some(b));
    assert_eq!(doc.set_key(a, Key(7), right), Err(DocumentError::DuplicateKey));
}

#[test]
fn a_node_has_one_key_in_a_scope() {
    let mut doc = VDocument::default();
    let parent = doc.create_element("div");
    let a = doc.create_text_node("a");
    assert_eq!(doc.set_key(a, Key(1), parent), Ok(()));
    assert_eq!(doc.set_key(a, Key(2), parent), Err(DocumentError::DuplicateKey));
    assert_eq!(doc.key_of(parent, a), Some(Key(1)));
    assert_eq!(doc.keyed_child(parent, Key(2)), None);
    assert_eq!(doc.set_key(a, Key(2), doc.root()), Ok(()));
    assert_eq!(doc.key_of(doc.root(), a), Some(Key(2)));
}

#[test]
fn set_key_refuses_foreign_identities() {
    let mut doc = VDocument::default();
    let a = doc.create_element("div");
    assert_eq!(doc.set_key(a, Key(1), NodeId(9)), Err(DocumentError::UnknownParent));
    assert_eq!(doc.set_key(NodeId(9), Key(1), a), Err(DocumentError::UnknownChild));
    assert_eq!(doc.keyed_child(a, Key(1)), None);
    assert_eq!(doc.set_key(a, Key(1), a), Ok(()));
}

#[test]
fn a_bound_key_is_a_duplicate_whatever_the_node() {
    let mut doc = VDocument::default();
    let a = doc.create_element("div");
    assert_eq!(doc.set_key(a, Key(7), doc.root()), Ok(()));
    assert_eq!(doc.set_key(NodeId(9), Key(7), doc.root()), Err(DocumentError::DuplicateKey));
    assert_eq!(doc.set_key(NodeId(9), Key(8), doc.root()), Err(DocumentError::UnknownChild));
    assert_eq!(doc.set_key(a, Key(7), NodeId(9)), Err(DocumentError::UnknownParent));
    assert_eq!(doc.keyed_child(doc.root(), Key(7)), Some(a));
    assert_eq!(doc.keyed_child(doc.root(), Key(8)), None);
    assert_eq!(doc.key_of(doc.root(), NodeId(9)), None);
}

#[test]
fn a_refused_key_leaves_no_scope_behind() {
    let mut doc = VDocument::default();
    let a = doc.create_element("div");
    assert_eq!(doc.set_key(NodeId(9), Key(1), a), Err(DocumentError::UnknownChild));
    let mut other = VDocument::default();
    other.create_element("div");
    assert_eq!(doc, other);
}

#[test]
fn a_refused_operation_leaves_the_document_as_it_was() {
    let mut doc = VDocument::default();
    let parent = doc.create_element("div");
    let a = doc.create_text_node("a");
    doc.append_child(parent, a).unwrap();
    doc.set_key(a, Key(1), parent).unwrap();
    let mut other = VDocument::default();
    let parent2 = other.create_element("div");
    let a2 = other.create_text_node("a");
    other.append_child(parent2, a2).unwrap();
    other.set_key(a2, Key(1), parent2).unwrap();
    assert_eq!(doc, other);
    assert!(doc.append_child(parent, NodeId(40)).is_err());
    assert!(doc.set_key(a, Key(2), parent).is_err());
    assert!(doc.set_key(parent, Key(1), parent).is_err());
    assert_eq!(doc, other);
}

#[test]
fn key_map_finds_each_from_the_other() {
    let mut scope = KeyMap::new();
    assert_eq!(scope.get_id(Key(3)), None);
    assert_eq!(scope.get_key(NodeId(4)), None);
    assert_eq!(scope.insert(NodeId(4), Key(3)), Ok(()));
    assert_eq!(scope.get_id(Key(3)), Some(NodeId(4)));
    assert_eq!(scope.get_key(NodeId(4)), Some(Key(3)));
    assert_eq!(scope.insert(NodeId(5), Key(3)), Err(DocumentError::DuplicateKey));
    assert_eq!(scope.insert(NodeId(4), Key(8)), Err(DocumentError::DuplicateKey));
    assert_eq!(scope.get_id(Key(8)), None);
    assert_eq!(scope.get_key(NodeId(5)), None);
    assert_eq!(scope.insert(NodeId(5), Key(8)), Ok(()));
    assert_eq!(scope.get_id(Key(8)), Some(NodeId(5)));
}

#[test]
fn equal_values_hash_to_the_same_key() {
    assert_eq!(Key::from("header"), Key::from("header"));
    assert_eq!(Key::from(17u32), Key::from(17u32));
    assert_eq!(Key::from(&"header"), Key::from("header"));
    assert_ne!(Key::from("header"), Key::from("footer"));
    assert_ne!(Key::from(17u64), Key(17));
}
