use rende::component::{Component, Div, Empty, Keyed, ParentComponent, PropertyComponent};
use rende::{DocumentError, Key, NodeId, VDocument, VNode};
use std::collections::{BTreeMap, BTreeSet};

#[test]
fn smoke() {
    let mut div = Div::with_children(vec![Empty]);
    div.children_mut().push(Empty);
    div.properties_mut().insert("test".into(), BTreeSet::new());
}

#[test]
fn children_and_properties_can_be_read_back() {
    let mut div = Div::with_children(vec!["a", "b"]);
    assert_eq!(div.children(), &vec!["a", "b"]);
    assert!(div.properties().is_empty());
    div.children_mut().push("c");
    let mut classes = BTreeSet::new();
    classes.insert("wide".to_string());
    div.properties_mut().insert("class".to_string(), classes.clone());
    assert_eq!(div.children(), &vec!["a", "b", "c"]);
    assert_eq!(div.properties().get("class"), Some(&classes));
}

#[test]
fn div_constructors() {
    let plain = Div::<Empty>::new();
    assert!(plain.children().is_empty());
    assert!(plain.properties().is_empty());
    let mut bag = BTreeMap::new();
    bag.insert("id".to_string(), BTreeSet::new());
    let with = Div::<Empty>::with_properties(bag.clone());
    assert!(with.children().is_empty());
    assert_eq!(with.properties(), &bag);
    assert_eq!(Div::<Empty>::new(), Div::<Empty>::default());
}

#[test]
fn text_renders_to_a_text_node() {
    let mut doc = VDocument::default();
    let out = "hello".render(&mut doc);
    assert_eq!(out, Ok(Some(NodeId(1))));
    assert_eq!(doc.node(NodeId(1)), Some(&VNode::Text("hello".to_string())));
    assert_eq!(doc.child_count(NodeId(1)), 0);
    assert_eq!(doc.child_count(doc.root()), 0);
    assert_eq!(doc.key_of(doc.root(), NodeId(1)), None);
}

#[test]
fn empty_renders_to_nothing() {
    let mut doc = VDocument::default();
    assert_eq!(Empty.render(&mut doc), Ok(None));
    assert_eq!(doc, VDocument::default());
    let made = VDocument::from_component(Empty).unwrap();
    assert_eq!(made, VDocument::default());
}

#[test]
fn div_renders_itself_before_its_children() {
    let doc = VDocument::from_component(Div::with_children(vec!["a", "b"])).unwrap();
    assert_eq!(doc.len(), 4);
    assert_eq!(doc.node(NodeId(1)), Some(&VNode::Element("div")));
    assert_eq!(doc.node(NodeId(2)), Some(&VNode::Text("a".to_string())));
    assert_eq!(doc.node(NodeId(3)), Some(&VNode::Text("b".to_string())));
    assert_eq!(doc.child_count(doc.root()), 1);
    assert_eq!(doc.child(doc.root(), 0), Some(NodeId(1)));
    assert_eq!(doc.child_count(NodeId(1)), 2);
    assert_eq!(doc.child(NodeId(1), 0), Some(NodeId(2)));
    assert_eq!(doc.child(NodeId(1), 1), Some(NodeId(3)));
}

#[test]
fn a_child_that_renders_to_nothing_is_passed_over() {
    let inner = Div::with_children(vec![Empty, Empty]);
    let doc = VDocument::from_component(Div::with_children(vec![inner])).unwrap();
    assert_eq!(doc.len(), 3);
    assert_eq!(doc.child_count(NodeId(1)), 1);
    assert_eq!(doc.child(NodeId(1), 0), Some(NodeId(2)));
    assert_eq!(doc.child_count(NodeId(2)), 0);
}

#[test]
fn a_keyed_component_that_renders_to_nothing_gets_no_key() {
    let mut doc = VDocument::default();
    let keyed = Keyed::new(Empty, "k", NodeId(0));
    assert_eq!(keyed.render(&mut doc), Ok(None));
    assert_eq!(doc.keyed_child(NodeId(0), Key::from("k")), None);
    assert_eq!(doc, VDocument::default());
}

#[test]
fn a_keyed_component_is_found_by_its_key() {
    let keyed = Keyed::new("text", "greeting", NodeId(0));
    let doc = VDocument::from_component(keyed).unwrap();
    assert_eq!(doc.keyed_child(doc.root(), Key::from("greeting")), Some(NodeId(1)));
    assert_eq!(doc.key_of(doc.root(), NodeId(1)), Some(Key::from("greeting")));
    assert_eq!(doc.child(doc.root(), 0), Some(NodeId(1)));
    assert_eq!(doc.keyed_child(doc.root(), Key::from("other")), None);
}

#[test]
fn the_key_is_bound_in_the_declared_scope() {
    // The div is node 1; its children declare it as their parent.
    let children = vec![Keyed::new("a", 1u8, NodeId(1)), Keyed::new("b", 2u8, NodeId(1))];
    let doc = VDocument::from_component(Div::with_children(children)).unwrap();
    assert_eq!(doc.keyed_child(NodeId(1), Key::from(1u8)), Some(NodeId(2)));
    assert_eq!(doc.keyed_child(NodeId(1), Key::from(2u8)), Some(NodeId(3)));
    assert_eq!(doc.keyed_child(doc.root(), Key::from(1u8)), None);
}

#[test]
fn a_duplicate_key_ends_the_render_pass() {
    let children = vec![Keyed::new("a", "same", NodeId(1)), Keyed::new("b", "same", NodeId(1))];
    let made = VDocument::from_component(Div::with_children(children));
    assert_eq!(made, Err(DocumentError::DuplicateKey));
}

#[test]
fn the_same_key_under_two_parents_renders() {
    let first = Div::with_children(vec![Keyed::new("a", "same", NodeId(2))]);
    let second = Div::with_children(vec![Keyed::new("b", "same", NodeId(4))]);
    let doc = VDocument::from_component(Div::with_children(vec![first, second])).unwrap();
    assert_eq!(doc.keyed_child(NodeId(2), Key::from("same")), Some(NodeId(3)));
    assert_eq!(doc.keyed_child(NodeId(4), Key::from("same")), Some(NodeId(5)));
}

#[test]
fn a_key_in_the_scope_of_a_missing_parent_is_refused() {
    let keyed = Keyed::new("a", "k", NodeId(9));
    assert_eq!(VDocument::from_component(keyed), Err(DocumentError::UnknownParent));
}

#[test]
fn keyed_passes_children_and_properties_through() {
    let mut keyed = Keyed::new(Div::with_children(vec!["a"]), "k", NodeId(0));
    keyed.children_mut().push("b");
    keyed.properties_mut().insert("class".to_string(), BTreeSet::new());
    assert_eq!(keyed.children(), &vec!["a", "b"]);
    assert_eq!(keyed.properties().len(), 1);
    let doc = VDocument::from_component(keyed).unwrap();
    assert_eq!(doc.child_count(NodeId(1)), 2);
    assert_eq!(doc.key_of(doc.root(), NodeId(1)), Some(Key::from("k")));
}

#[test]
fn a_component_can_be_keyed_by_a_key_itself() {
    let keyed = Keyed::with_key("text", Key(42), NodeId(0));
    let doc = VDocument::from_component(keyed).unwrap();
    assert_eq!(doc.keyed_child(doc.root(), Key(42)), Some(NodeId(1)));
    assert_eq!(doc.key_of(doc.root(), NodeId(1)), Some(Key(42)));
}

#[test]
fn the_default_keyed_component_has_the_default_key_in_the_scope_of_the_root() {
    let keyed = Keyed::<Div<Empty>, u8>::default();
    assert_eq!(keyed, Keyed::new(Div::<Empty>::new(), 0u8, NodeId(0)));
    let doc = VDocument::from_component(keyed).unwrap();
    assert_eq!(doc.node(NodeId(1)), Some(&VNode::Element("div")));
    assert_eq!(doc.keyed_child(doc.root(), Key::from(0u8)), Some(NodeId(1)));
}

#[test]
fn a_div_leaves_its_element_with_the_rendered_children_in_order() {
    let mut doc = VDocument::default();
    let spare = doc.create_text_node("spare");
    let inner = Div::with_children(vec![Empty]);
    let div = Div::with_children(vec![inner.clone(), inner.clone(), inner]);
    let out = div.render(&mut doc);
    assert_eq!(out, Ok(Some(NodeId(2))));
    assert_eq!(doc.node(NodeId(2)), Some(&VNode::Element("div")));
    assert_eq!(doc.child_count(NodeId(2)), 3);
    assert_eq!(doc.child(NodeId(2), 0), Some(NodeId(3)));
    assert_eq!(doc.child(NodeId(2), 1), Some(NodeId(4)));
    assert_eq!(doc.child(NodeId(2), 2), Some(NodeId(5)));
    assert_eq!(doc.child_count(doc.root()), 0);
    assert_eq!(doc.child_count(spare), 0);
    assert_eq!(doc.key_of(doc.root(), NodeId(2)), None);
}
