use rende::component::{Div, Empty};
use rende::diff::{diff_children, Patch};
use rende::{NodeId, VDocument};

const ROOT_ID: NodeId = NodeId(0);

#[test]
fn create_element() {
    let div = Div::<Empty>::new();
    let old_doc = VDocument::default();
    let new_doc = VDocument::from_component(div).unwrap();

    let patches: Vec<_> = old_doc.diff(&new_doc).collect();
    let expected = vec![Patch::Reuse(ROOT_ID, ROOT_ID), Patch::Create(NodeId(1))];

    assert_eq!(patches, expected);
}

#[test]
fn delete_element() {
    let div = Div::<Empty>::new();
    let old_doc = VDocument::from_component(div).unwrap();
    let new_doc = VDocument::default();

    let patches: Vec<_> = old_doc.diff(&new_doc).collect();
    let expected = vec![Patch::Reuse(ROOT_ID, ROOT_ID), Patch::Delete(NodeId(1))];

    assert_eq!(patches, expected);
}

#[test]
fn recurse_children() {
    let div = Div::with_children(vec!["test"]);
    let old_div = Div::with_children(vec![div.clone(), div.clone()]);
    let new_div = Div::with_children(vec![Div::<Empty>::new()]);
    let old_doc = VDocument::from_component(old_div).unwrap();
    let new_doc = VDocument::from_component(new_div).unwrap();

    let patches: Vec<_> = old_doc.diff(&new_doc).collect();
    let expected = vec![
        Patch::Reuse(ROOT_ID, ROOT_ID),
        Patch::Reuse(NodeId(1), NodeId(1)),
        Patch::Delete(NodeId(4)),
        Patch::Reuse(NodeId(2), NodeId(2)),
        Patch::Delete(NodeId(3)),
    ];

    assert_eq!(patches, expected);
}

#[test]
fn two_empty_documents_reuse_the_root() {
    let old_doc = VDocument::default();
    let new_doc = VDocument::default();
    assert_eq!(old_doc.diff(&new_doc).collect(), vec![Patch::Reuse(ROOT_ID, ROOT_ID)]);
}

#[test]
fn the_same_tree_rendered_twice_is_reused_throughout() {
    let leaf = Div::with_children(vec!["a", "b"]);
    let tree = Div::with_children(vec![leaf.clone(), leaf.clone(), leaf]);
    let old_doc = VDocument::from_component(tree.clone()).unwrap();
    let new_doc = VDocument::from_component(tree).unwrap();
    assert_eq!(old_doc, new_doc);

    let patches = old_doc.diff(&new_doc).collect();
    assert_eq!(patches.len(), old_doc.len());
    for patch in &patches {
        assert!(matches!(patch, Patch::Reuse(old, new) if old == new));
    }
    // breadth first: the root, its child, the three leaves' elements, then the texts
    let order: Vec<usize> = vec![0, 1, 2, 5, 8, 3, 4, 6, 7, 9, 10];
    let expected: Vec<Patch> =
        order.into_iter().map(|i| Patch::Reuse(NodeId(i), NodeId(i))).collect();
    assert_eq!(patches, expected);
}

#[test]
fn matched_positions_are_reused_whatever_they_hold() {
    let old_doc = VDocument::from_component(Div::with_children(vec!["old text"])).unwrap();
    let new_doc =
        VDocument::from_component(Div::with_children(vec![Div::<Empty>::new()])).unwrap();
    let expected = vec![
        Patch::Reuse(ROOT_ID, ROOT_ID),
        Patch::Reuse(NodeId(1), NodeId(1)),
        Patch::Reuse(NodeId(2), NodeId(2)),
    ];
    assert_eq!(old_doc.diff(&new_doc).collect(), expected);
}

#[test]
fn children_are_matched_by_index_in_each_document() {
    // old: root -> 3 -> [1, 2]; new: root -> 1 -> [2, 3, 4]
    let mut old_doc = VDocument::default();
    let a = old_doc.create_text_node("a");
    let b = old_doc.create_text_node("b");
    let top = old_doc.create_element("div");
    old_doc.append_child(top, a).unwrap();
    old_doc.append_child(top, b).unwrap();
    old_doc.append_child(ROOT_ID, top).unwrap();
    let new_doc = VDocument::from_component(Div::with_children(vec!["x", "y", "z"])).unwrap();

    let expected = vec![
        Patch::Reuse(ROOT_ID, ROOT_ID),
        Patch::Reuse(NodeId(3), NodeId(1)),
        Patch::Create(NodeId(4)),
        Patch::Reuse(NodeId(1), NodeId(2)),
        Patch::Reuse(NodeId(2), NodeId(3)),
    ];
    assert_eq!(old_doc.diff(&new_doc).collect(), expected);
}

#[test]
fn the_subtree_of_a_created_node_gets_no_patches() {
    let old_doc = VDocument::default();
    let new_doc = VDocument::from_component(Div::with_children(vec!["a", "b"])).unwrap();
    let expected = vec![Patch::Reuse(ROOT_ID, ROOT_ID), Patch::Create(NodeId(1))];
    assert_eq!(old_doc.diff(&new_doc).collect(), expected);
}

#[test]
fn next_yields_one_patch_at_a_time() {
    let old_doc = VDocument::from_component(Div::with_children(vec!["a"])).unwrap();
    let new_doc = VDocument::from_component(Div::with_children(vec!["a", "b"])).unwrap();
    let mut walk = old_doc.diff(&new_doc);
    assert_eq!(walk.next(), Some(Patch::Reuse(ROOT_ID, ROOT_ID)));
    assert_eq!(walk.next(), Some(Patch::Reuse(NodeId(1), NodeId(1))));
    assert_eq!(walk.next(), Some(Patch::Create(NodeId(3))));
    assert_eq!(walk.next(), Some(Patch::Reuse(NodeId(2), NodeId(2))));
    assert_eq!(walk.next(), None);
    assert_eq!(walk.next(), None);
}

#[test]
fn take_stops_at_the_limit_or_at_the_end() {
    let old_doc = VDocument::from_component(Div::with_children(vec!["a", "b"])).unwrap();
    let new_doc = VDocument::from_component(Div::<Empty>::new()).unwrap();
    let all = vec![
        Patch::Reuse(ROOT_ID, ROOT_ID),
        Patch::Reuse(NodeId(1), NodeId(1)),
        Patch::Delete(NodeId(2)),
        Patch::Delete(NodeId(3)),
    ];
    let mut walk = old_doc.diff(&new_doc);
    assert_eq!(walk.take(0), vec![]);
    assert_eq!(walk.take(3), all[..3].to_vec());
    assert_eq!(walk.take(5), all[3..].to_vec());
    assert_eq!(walk.take(5), vec![]);
    assert_eq!(old_doc.diff(&new_doc).take(100), all);
    assert_eq!(old_doc.diff(&new_doc).collect(), all);
}

#[test]
fn a_walk_over_a_cycle_can_be_taken_piece_by_piece() {
    let mut doc = VDocument::default();
    let a = doc.create_element("div");
    doc.append_child(ROOT_ID, a).unwrap();
    doc.append_child(a, a).unwrap();
    let mut walk = doc.diff(&doc);
    let first = walk.take(4);
    assert_eq!(
        first,
        vec![
            Patch::Reuse(ROOT_ID, ROOT_ID),
            Patch::Reuse(a, a),
            Patch::Reuse(a, a),
            Patch::Reuse(a, a),
        ]
    );
    assert_eq!(walk.next(), Some(Patch::Reuse(a, a)));
}

#[test]
fn a_walk_ends_when_only_one_document_has_a_cycle() {
    let mut looped = VDocument::default();
    let a = looped.create_element("div");
    looped.append_child(ROOT_ID, a).unwrap();
    looped.append_child(a, a).unwrap();
    let plain = VDocument::from_component(Div::with_children(vec!["x"])).unwrap();
    let expected = vec![
        Patch::Reuse(ROOT_ID, ROOT_ID),
        Patch::Reuse(NodeId(1), NodeId(1)),
        Patch::Reuse(NodeId(1), NodeId(2)),
        Patch::Delete(NodeId(1)),
    ];
    assert_eq!(looped.diff(&plain).collect(), expected);
}

#[test]
fn a_child_attached_twice_is_walked_twice() {
    let mut old_doc = VDocument::default();
    let a = old_doc.create_element("div");
    let t = old_doc.create_text_node("t");
    old_doc.append_child(a, t).unwrap();
    old_doc.append_child(ROOT_ID, a).unwrap();
    old_doc.append_child(ROOT_ID, a).unwrap();
    let new_doc = VDocument::from_component(Div::<Empty>::new()).unwrap();
    let expected = vec![
        Patch::Reuse(ROOT_ID, ROOT_ID),
        Patch::Delete(a),
        Patch::Reuse(a, NodeId(1)),
        Patch::Delete(t),
    ];
    assert_eq!(old_doc.diff(&new_doc).collect(), expected);
}

#[test]
fn diff_children_creates_beyond_the_old_children() {
    let old = vec![NodeId(1)];
    let new = vec![NodeId(4), NodeId(5), NodeId(6)];
    assert_eq!(diff_children(&old, &new), vec![Patch::Create(NodeId(5)), Patch::Create(NodeId(6))]);
}

#[test]
fn diff_children_deletes_beyond_the_new_children() {
    let old = vec![NodeId(1), NodeId(2), NodeId(3)];
    let new = vec![NodeId(4)];
    assert_eq!(diff_children(&old, &new), vec![Patch::Delete(NodeId(2)), Patch::Delete(NodeId(3))]);
}

#[test]
fn diff_children_of_equal_length_gives_nothing() {
    let old = vec![NodeId(1), NodeId(2)];
    let new = vec![NodeId(7), NodeId(8)];
    assert_eq!(diff_children(&old, &new), vec![]);
    assert_eq!(diff_children(&vec![], &vec![]), vec![]);
}

#[test]
fn a_document_built_from_the_top_down_can_be_compared() {
    let mut old_doc = VDocument::default();
    let top = old_doc.create_element("div");
    old_doc.append_child(ROOT_ID, top).unwrap();
    let a = old_doc.create_text_node("a");
    old_doc.append_child(top, a).unwrap();
    let new_doc = VDocument::from_component(Div::with_children(vec!["a"])).unwrap();
    let expected = vec![
        Patch::Reuse(ROOT_ID, ROOT_ID),
        Patch::Reuse(top, NodeId(1)),
        Patch::Reuse(a, NodeId(2)),
    ];
    assert_eq!(old_doc.diff(&new_doc).collect(), expected);
}
