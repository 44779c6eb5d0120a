//! Tree assembly in both modes, on concrete record lists.

use mdr_ontology::assemble::{build_concept_tree, to_tree};
use mdr_ontology::concept::Concept;
use mdr_ontology::tree::ConceptTree;

fn concept(id: u128, parent_id: Option<u128>, display: &str) -> Concept {
    Concept {
        id,
        display: String::from(display),
        parent_id,
        module_id: 7,
        term_codes: None,
        leaf: false,
        time_restriction_allowed: None,
        filter_type: None,
        selectable: true,
        filter_options: None,
        version: String::from("1.0"),
    }
}

fn node_count(t: &ConceptTree) -> usize {
    let mut n = 1;
    for c in t.children.iter() {
        n += node_count(c);
    }
    n
}

fn forest_count(f: &[ConceptTree]) -> usize {
    f.iter().map(node_count).sum()
}

fn same_shape(a: &ConceptTree, b: &ConceptTree) -> bool {
    a.id == b.id && a.children.len() == b.children.len()
        && a.children.iter().zip(b.children.iter()).all(|(x, y)| same_shape(x, y))
}

#[test]
fn builds_nested_concepts() {
    let c1 = Concept {
        id: 101,
        ..Concept::default()
    };
    let c2 = Concept {
        id: 102,
        parent_id: Some(c1.id),
        ..Concept::default()
    };
    let c3 = Concept {
        id: 103,
        ..Concept::default()
    };
    let c4 = Concept {
        id: 104,
        parent_id: Some(c2.id),
        ..Concept::default()
    };

    // act
    let result = build_concept_tree(vec![c1.clone(), c2, c3, c4.clone()]);

    // check deeply nested
    let nested = result
        .iter()
        // c2
        .find(|c| c.id == c1.id)
        .unwrap()
        // nested child
        .children
        .first()
        .unwrap()
        // nested child
        .children
        .first()
        .unwrap();

    // two root elements
    assert_eq!(result.len(), 2);
    assert_eq!(nested.id, c4.id);
}

#[test]
fn ordered_mode_two_roots_nested_chain() {
    let input = vec![
        concept(1, None, "A"),
        concept(2, Some(1), "B"),
        concept(3, None, "C"),
        concept(4, Some(2), "D"),
    ];
    let forest = build_concept_tree(input);

    assert_eq!(forest.len(), 2);
    assert_eq!(forest[0].id, 1);
    assert_eq!(forest[0].display, "A");
    assert_eq!(forest[1].id, 3);
    assert_eq!(forest[1].display, "C");
    assert!(forest[1].children.is_empty());

    let a = &forest[0];
    assert_eq!(a.children.len(), 1);
    let b = &a.children[0];
    assert_eq!(b.id, 2);
    assert_eq!(b.children.len(), 1);
    let d = &b.children[0];
    assert_eq!(d.id, 4);
    assert!(d.children.is_empty());
}

#[test]
fn reorder_mode_missing_parent_becomes_root() {
    // D's parent (2) was filtered out of the set; A is a true root.
    let input = vec![concept(4, Some(2), "D"), concept(1, None, "A")];
    let forest = to_tree(input);

    assert_eq!(forest.len(), 2);
    assert_eq!(forest[0].id, 4);
    assert!(forest[0].children.is_empty());
    assert_eq!(forest[1].id, 1);
    assert!(forest[1].children.is_empty());
}

#[test]
fn orphan_divergence_between_modes() {
    // X names a parent that no record carries.
    let input_ordered = vec![concept(1, None, "A"), concept(5, Some(99), "X")];
    let ordered = build_concept_tree(input_ordered);
    assert_eq!(ordered.len(), 1);
    assert_eq!(ordered[0].id, 1);
    assert_eq!(forest_count(&ordered), 1); // X is dropped entirely

    let input_reorder = vec![concept(1, None, "A"), concept(5, Some(99), "X")];
    let reorder = to_tree(input_reorder);
    assert_eq!(reorder.len(), 2); // X is promoted to a root
    assert_eq!(reorder[0].id, 1);
    assert_eq!(reorder[1].id, 5);
}

#[test]
fn ordered_mode_node_count() {
    // no orphans: every record ends up in the forest
    let full = vec![
        concept(1, None, "A"),
        concept(2, Some(1), "B"),
        concept(3, None, "C"),
        concept(4, Some(2), "D"),
    ];
    assert_eq!(forest_count(&build_concept_tree(full)), 4);

    // one orphan: one node fewer than the input length
    let with_orphan = vec![
        concept(1, None, "A"),
        concept(2, Some(1), "B"),
        concept(9, Some(77), "stray"),
    ];
    assert_eq!(forest_count(&build_concept_tree(with_orphan)), 2);
}

#[test]
fn reorder_matches_ordered_on_sorted_input() {
    // no missing parents, but roots come last and out of order
    let unordered = vec![
        concept(2, Some(1), "B"),
        concept(4, Some(2), "D"),
        concept(1, None, "A"),
        concept(3, None, "C"),
    ];
    // the same records sorted roots-first
    let sorted = vec![
        concept(1, None, "A"),
        concept(3, None, "C"),
        concept(2, Some(1), "B"),
        concept(4, Some(2), "D"),
    ];
    let via_reorder = to_tree(unordered);
    let via_ordered = build_concept_tree(sorted);

    assert_eq!(via_reorder.len(), via_ordered.len());
    for (x, y) in via_reorder.iter().zip(via_ordered.iter()) {
        assert!(same_shape(x, y));
    }
    // spot-check the shape: A > B > D, and C alone
    assert_eq!(via_reorder[0].id, 1);
    assert_eq!(via_reorder[0].children[0].id, 2);
    assert_eq!(via_reorder[0].children[0].children[0].id, 4);
    assert_eq!(via_reorder[1].id, 3);
}

#[test]
fn null_parent_is_root_in_both_modes() {
    let input = vec![
        concept(2, Some(1), "child"),
        concept(1, None, "root"),
        concept(3, Some(99), "stray"),
    ];
    let ordered = build_concept_tree(vec![
        concept(1, None, "root"),
        concept(2, Some(1), "child"),
        concept(3, Some(99), "stray"),
    ]);
    assert!(ordered.iter().any(|t| t.id == 1));

    let reordered = to_tree(input);
    assert!(reordered.iter().any(|t| t.id == 1));
}

#[test]
fn reorder_shared_parent_keeps_sibling_order() {
    // two records claim the same parent: siblings in input order
    let input = vec![
        concept(5, Some(1), "second"),
        concept(1, None, "root"),
        concept(4, Some(1), "third"),
    ];
    let forest = to_tree(input);
    assert_eq!(forest.len(), 1);
    let kids: Vec<u128> = forest[0].children.iter().map(|c| c.id).collect();
    assert_eq!(kids, vec![5, 4]);
}

#[test]
fn reorder_attaches_into_newly_attached_subtrees() {
    // C's parent B is itself attached first; the search still finds B
    // inside A's subtree
    let input = vec![
        concept(2, Some(1), "B"),
        concept(3, Some(2), "C"),
        concept(1, None, "A"),
    ];
    let forest = to_tree(input);
    assert_eq!(forest.len(), 1);
    assert_eq!(forest[0].id, 1);
    assert_eq!(forest[0].children.len(), 1);
    assert_eq!(forest[0].children[0].id, 2);
    assert_eq!(forest[0].children[0].children.len(), 1);
    assert_eq!(forest[0].children[0].children[0].id, 3);
}

#[test]
fn empty_input_gives_empty_forest() {
    assert!(build_concept_tree(Vec::new()).is_empty());
    assert!(to_tree(Vec::new()).is_empty());
}

#[test]
fn siblings_keep_input_order() {
    let input = vec![
        concept(1, None, "root"),
        concept(2, Some(1), "first"),
        concept(3, Some(1), "second"),
        concept(4, Some(1), "third"),
    ];
    let forest = build_concept_tree(input);
    assert_eq!(forest.len(), 1);
    let kids: Vec<u128> = forest[0].children.iter().map(|c| c.id).collect();
    assert_eq!(kids, vec![2, 3, 4]);
}

#[test]
fn attach_hands_back_unmatched_child() {
    let mut root = ConceptTree::from(concept(1, None, "root"));
    let stray = ConceptTree::from(concept(2, Some(42), "stray"));
    let back = root.add_child_to_tree(stray);
    assert!(back.is_some());
    assert_eq!(back.unwrap().id, 2);
    assert!(root.children.is_empty());

    let child = ConceptTree::from(concept(3, Some(1), "child"));
    assert!(root.add_child_to_tree(child).is_none());
    assert_eq!(root.children.len(), 1);
    assert_eq!(root.children[0].id, 3);
}

#[test]
fn add_child_appends_at_end() {
    let mut root = ConceptTree::from(concept(1, None, "root"));
    root.add_child(ConceptTree::from(concept(2, Some(1), "x")));
    root.add_child(ConceptTree::from(concept(3, Some(1), "y")));
    assert_eq!(root.children.len(), 2);
    assert_eq!(root.children[0].id, 2);
    assert_eq!(root.children[1].id, 3);
}

#[test]
fn node_equality_is_by_identifier() {
    let a = ConceptTree::from(concept(5, None, "one name"));
    let mut b = ConceptTree::from(concept(5, Some(1), "another name"));
    b.add_child(ConceptTree::from(concept(6, Some(5), "kid")));
    assert!(a == b);
    let c = ConceptTree::from(concept(7, None, "one name"));
    assert!(a != c);
}
