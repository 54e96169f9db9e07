use render_sync::dirty::DirtyNodes;
use render_sync::focus::FocusState;
use render_sync::tree::{Mutation, ShadowTree};

fn add(id: u64, parent: Option<u64>) -> Mutation {
    Mutation::NodeAdded { id, parent }
}

fn tab(id: u64, value: &str) -> Mutation {
    Mutation::AttributeChanged { id, name: "tabindex".to_string(), value: Some(value.to_string()) }
}

/// Document order 0 1 3 4 2 5; focusable: 3, 2, 5; node 4 by program only.
fn sample() -> ShadowTree {
    let mut tree = ShadowTree::new();
    tree.apply_mutations(&vec![
        add(0, None),
        add(1, Some(0)),
        add(2, Some(0)),
        add(3, Some(1)),
        add(4, Some(1)),
        add(5, Some(2)),
        tab(3, "0"),
        tab(2, "0"),
        tab(5, "1"),
        tab(4, "-1"),
    ]);
    tree.update_state();
    tree
}

fn focused(tree: &ShadowTree) -> Vec<u64> {
    (0..tree.len()).filter(|i| tree.node(*i).state.focused).map(|i| tree.node(i).id).collect()
}

#[test]
fn focus_starts_unfocused() {
    let f = FocusState::default();
    assert_eq!(f.last_focused_id, None);
    assert!(!f.dirty);
}

#[test]
fn progress_walks_the_document_order_and_wraps() {
    let mut tree = sample();
    let mut dirty = DirtyNodes::empty();
    let mut f = FocusState::default();
    let mut seen = Vec::new();
    for _ in 0..7 {
        assert!(f.progress(&mut tree, &mut dirty, true));
        seen.push(f.last_focused_id.unwrap());
        assert_eq!(focused(&tree), vec![f.last_focused_id.unwrap()]);
    }
    assert_eq!(seen, vec![3, 2, 5, 3, 2, 5, 3]);
}

#[test]
fn progress_backward_walks_the_other_way() {
    let mut tree = sample();
    let mut dirty = DirtyNodes::empty();
    let mut f = FocusState::default();
    let mut seen = Vec::new();
    for _ in 0..5 {
        assert!(f.progress(&mut tree, &mut dirty, false));
        seen.push(f.last_focused_id.unwrap());
    }
    assert_eq!(seen, vec![5, 2, 3, 5, 2]);
    assert_eq!(focused(&tree), vec![2]);
}

#[test]
fn forward_then_backward_returns_to_the_start() {
    for start in [3u64, 2, 5] {
        let mut tree = sample();
        let mut dirty = DirtyNodes::empty();
        let mut f = FocusState::default();
        while f.last_focused_id != Some(start) {
            f.progress(&mut tree, &mut dirty, true);
        }
        assert!(f.progress(&mut tree, &mut dirty, true));
        assert_ne!(f.last_focused_id, Some(start));
        assert!(f.progress(&mut tree, &mut dirty, false));
        assert_eq!(f.last_focused_id, Some(start));
        assert_eq!(focused(&tree), vec![start]);
    }
}

#[test]
fn a_single_focusable_node_keeps_the_focus() {
    let mut tree = ShadowTree::new();
    tree.apply_mutations(&vec![add(0, None), add(1, Some(0)), tab(1, "0")]);
    tree.update_state();
    let mut dirty = DirtyNodes::empty();
    let mut f = FocusState::default();
    assert!(f.progress(&mut tree, &mut dirty, true));
    assert_eq!(f.last_focused_id, Some(1));
    assert!(f.clean());
    assert!(f.progress(&mut tree, &mut dirty, true));
    assert_eq!(f.last_focused_id, Some(1));
    assert!(!f.dirty);
    assert!(f.progress(&mut tree, &mut dirty, false));
    assert_eq!(f.last_focused_id, Some(1));
    assert_eq!(focused(&tree), vec![1]);
}

#[test]
fn without_focusable_nodes_nothing_changes() {
    let mut tree = ShadowTree::new();
    let mut dirty = DirtyNodes::empty();
    let mut f = FocusState::default();
    assert!(!f.progress(&mut tree, &mut dirty, true));
    tree.apply_mutations(&vec![add(0, None), add(1, Some(0)), tab(1, "-1")]);
    tree.update_state();
    assert!(!f.progress(&mut tree, &mut dirty, true));
    assert!(!f.progress(&mut tree, &mut dirty, false));
    assert_eq!(f.last_focused_id, None);
    assert!(!f.dirty);
    assert!(dirty.is_empty());
    assert!(focused(&tree).is_empty());
}

#[test]
fn progress_marks_both_nodes_as_stale() {
    let mut tree = sample();
    let mut dirty = DirtyNodes::empty();
    let mut f = FocusState::default();
    f.progress(&mut tree, &mut dirty, true);
    assert!(dirty.covers(3));
    assert!(!dirty.covers(2));
    assert!(f.dirty);
    let mut dirty = DirtyNodes::empty();
    f.progress(&mut tree, &mut dirty, true);
    assert!(dirty.covers(3));
    assert!(dirty.covers(2));
    assert!(!dirty.covers(5));
    assert!(!dirty.covers(0));
}

#[test]
fn clean_reports_a_change_once() {
    let mut tree = sample();
    let mut dirty = DirtyNodes::empty();
    let mut f = FocusState::default();
    assert!(!f.clean());
    f.progress(&mut tree, &mut dirty, true);
    assert!(f.clean());
    assert!(!f.clean());
    assert_eq!(f.last_focused_id, Some(3));
}

#[test]
fn a_stale_target_counts_as_none() {
    let mut tree = sample();
    let mut dirty = DirtyNodes::empty();
    let mut f = FocusState { last_focused_id: Some(99), dirty: false };
    assert!(f.progress(&mut tree, &mut dirty, true));
    assert_eq!(f.last_focused_id, Some(3));
    let mut f = FocusState { last_focused_id: Some(99), dirty: false };
    assert!(f.progress(&mut tree, &mut dirty, false));
    assert_eq!(f.last_focused_id, Some(5));
}

#[test]
fn progress_from_a_node_outside_the_tab_order() {
    let mut tree = sample();
    let mut dirty = DirtyNodes::empty();
    let mut f = FocusState { last_focused_id: Some(4), dirty: false };
    assert_eq!(f.target(&tree, true), Some(4));
    assert_eq!(f.target(&tree, false), Some(2));
    assert!(f.progress(&mut tree, &mut dirty, true));
    assert_eq!(f.last_focused_id, Some(2));
}

#[test]
fn prune_unfocuses_when_the_target_leaves() {
    let tree = sample();
    let mut f = FocusState { last_focused_id: Some(3), dirty: false };
    f.prune(&Mutation::NodeRemoved { id: 3 }, &tree);
    assert_eq!(f.last_focused_id, None);
    assert!(f.dirty);
}

#[test]
fn prune_unfocuses_when_an_ancestor_leaves() {
    let mut tree = sample();
    let mut f = FocusState { last_focused_id: Some(5), dirty: false };
    let m = Mutation::NodeRemoved { id: 2 };
    f.prune(&m, &tree);
    assert_eq!(f.last_focused_id, None);
    assert!(f.dirty);
    tree.apply_mutation(&m);
    assert!(!tree.contains(5));
    assert_eq!(tree.state_of(5), None);

    let tree = sample();
    let mut f = FocusState { last_focused_id: Some(5), dirty: false };
    f.prune(&Mutation::NodeRemoved { id: 0 }, &tree);
    assert_eq!(f.last_focused_id, None);
}

#[test]
fn prune_keeps_the_focus_otherwise() {
    let tree = sample();
    let mut f = FocusState { last_focused_id: Some(2), dirty: false };
    f.prune(&Mutation::NodeRemoved { id: 5 }, &tree);
    assert_eq!(f.last_focused_id, Some(2));
    f.prune(&Mutation::NodeRemoved { id: 1 }, &tree);
    assert_eq!(f.last_focused_id, Some(2));
    f.prune(&Mutation::NodeRemoved { id: 77 }, &tree);
    assert_eq!(f.last_focused_id, Some(2));
    f.prune(&add(9, Some(2)), &tree);
    f.prune(&tab(2, "-1"), &tree);
    f.prune(&Mutation::TextChanged { id: 2, text: "x".to_string() }, &tree);
    assert_eq!(f.last_focused_id, Some(2));
    assert!(!f.dirty);
    let mut f = FocusState { last_focused_id: Some(99), dirty: false };
    f.prune(&Mutation::NodeRemoved { id: 0 }, &tree);
    assert_eq!(f.last_focused_id, Some(99));
    let mut f = FocusState::default();
    f.prune(&Mutation::NodeRemoved { id: 0 }, &tree);
    assert_eq!(f.last_focused_id, None);
    assert!(!f.dirty);
}

#[test]
fn at_most_one_node_is_focused() {
    let mut tree = sample();
    let mut dirty = DirtyNodes::empty();
    let mut f = FocusState::default();
    let steps = [true, true, false, true, true, true, false, false, false, true];
    for (n, forward) in steps.iter().enumerate() {
        f.progress(&mut tree, &mut dirty, *forward);
        assert!(focused(&tree).len() <= 1);
        if n == 4 {
            let m = Mutation::NodeRemoved { id: 2 };
            f.prune(&m, &tree);
            tree.apply_mutation(&m);
            assert!(focused(&tree).len() <= 1);
        }
    }
    assert_eq!(focused(&tree), vec![3]);
}

#[test]
fn detached_nodes_are_no_part_of_the_tab_order() {
    let mut tree = sample();
    tree.apply_mutations(&vec![add(8, None), add(9, Some(8)), tab(8, "0"), tab(9, "0")]);
    tree.update_state();
    assert_eq!(tree.document_len(), 6);
    let mut dirty = DirtyNodes::empty();
    let mut f = FocusState::default();
    let mut seen = Vec::new();
    for _ in 0..4 {
        assert!(f.progress(&mut tree, &mut dirty, true));
        seen.push(f.last_focused_id.unwrap());
    }
    assert_eq!(seen, vec![3, 2, 5, 3]);
    let mut f = FocusState { last_focused_id: Some(9), dirty: false };
    assert!(f.progress(&mut tree, &mut dirty, false));
    assert_eq!(f.last_focused_id, Some(5));
    tree.move_node(8, render_sync::model::Place::LastChildOf(0));
    assert_eq!(tree.document_len(), 8);
    assert!(f.progress(&mut tree, &mut dirty, true));
    assert_eq!(f.last_focused_id, Some(8));
}
