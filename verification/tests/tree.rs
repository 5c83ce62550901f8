use nisabo::forest::build_forest;
use nisabo::models::{LinkType, NoteIdName, NoteLinkIds, StoreError};

fn leaf(id: i64, name: &str) -> NoteIdName {
    NoteIdName { id, name: name.to_string(), children: Vec::new(), has_parent: false }
}

fn edge(source: i64, target: i64) -> NoteLinkIds {
    NoteLinkIds { source_note_id: source, target_note_id: target }
}

fn ids(tree: &[NoteIdName]) -> Vec<i64> {
    tree.iter().map(|n| n.id).collect()
}

#[test]
fn forest_without_edges_is_the_list() {
    let out = build_forest(vec![leaf(3, "c"), leaf(1, "a")], &Vec::new());
    assert_eq!(ids(&out), vec![3, 1]);
}

#[test]
fn forest_moves_a_child_under_its_parent() {
    let out = build_forest(vec![leaf(1, "a"), leaf(2, "b"), leaf(3, "c")], &vec![edge(3, 1)]);
    assert_eq!(ids(&out), vec![2, 3]);
    assert_eq!(ids(&out[1].children), vec![1]);
    assert!(out[1].children[0].has_parent);
    assert!(!out[1].has_parent);
    assert_eq!(out[1].children[0].name, "a");
}

#[test]
fn forest_keeps_a_child_whose_parent_is_not_listed() {
    let out = build_forest(vec![leaf(1, "a"), leaf(2, "b")], &vec![edge(9, 1)]);
    assert_eq!(ids(&out), vec![1, 2]);
    assert!(!out[0].has_parent);
}

#[test]
fn forest_passes_over_an_edge_from_a_note_to_itself() {
    let out = build_forest(vec![leaf(1, "a")], &vec![edge(1, 1)]);
    assert_eq!(ids(&out), vec![1]);
    assert!(out[0].children.is_empty());
}

#[test]
fn forest_depends_on_the_order_of_the_edges() {
    let deep = build_forest(
        vec![leaf(1, "p"), leaf(2, "c"), leaf(3, "g")],
        &vec![edge(2, 3), edge(1, 2)],
    );
    assert_eq!(ids(&deep), vec![1]);
    assert_eq!(ids(&deep[0].children), vec![2]);
    assert_eq!(ids(&deep[0].children[0].children), vec![3]);
    let flat = build_forest(
        vec![leaf(1, "p"), leaf(2, "c"), leaf(3, "g")],
        &vec![edge(1, 2), edge(2, 3)],
    );
    assert_eq!(ids(&flat), vec![1, 3]);
    assert_eq!(ids(&flat[0].children), vec![2]);
    assert!(!flat[1].has_parent);
}

#[test]
fn forest_files_several_children_in_the_order_of_the_edges() {
    let out = build_forest(
        vec![leaf(1, "a"), leaf(2, "b"), leaf(3, "c")],
        &vec![edge(2, 3), edge(2, 1)],
    );
    assert_eq!(ids(&out), vec![2]);
    assert_eq!(ids(&out[0].children), vec![3, 1]);
}

#[test]
fn link_type_words() {
    assert_eq!(LinkType::Parent.to_string(), "parent");
    assert_eq!(LinkType::Related.to_string(), "related");
    assert_eq!(LinkType::from_str("parent"), Ok(LinkType::Parent));
    assert_eq!(LinkType::from_str("related"), Ok(LinkType::Related));
    assert_eq!(LinkType::from_str("Parent"), Err(()));
    assert_eq!(LinkType::from_str(""), Err(()));
}

#[test]
fn store_errors_say_what_went_wrong() {
    assert_eq!(StoreError::NotFound.to_string(), "not found");
    assert_eq!(StoreError::ConstraintViolation.to_string(), "constraint violated");
    assert_eq!(StoreError::StorageFailure.to_string(), "storage failure");
    assert_eq!(StoreError::SerializationFailure.to_string(), "serialization failed");
}
