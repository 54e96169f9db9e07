use render_sync::reducer::Solved;
use render_sync::state::{FocusLevel, PreventDefault, Rect};
use render_sync::model::Place;
use render_sync::tree::{
    attribute_position, find_solved, lookup_attribute, write_attribute, Attribute, Mutation, Node, ShadowTree,
};

fn add(id: u64, parent: Option<u64>) -> Mutation {
    Mutation::NodeAdded { id, parent }
}

fn attr(id: u64, name: &str, value: Option<&str>) -> Mutation {
    Mutation::AttributeChanged { id, name: name.to_string(), value: value.map(|v| v.to_string()) }
}

/// 0
/// +- 1
/// |  +- 3
/// |  +- 4
/// +- 2
///    +- 5
fn sample() -> ShadowTree {
    let mut tree = ShadowTree::new();
    tree.apply_mutations(&vec![
        add(0, None),
        add(1, Some(0)),
        add(2, Some(0)),
        add(3, Some(1)),
        add(4, Some(1)),
        add(5, Some(2)),
    ]);
    tree
}

#[test]
fn new_tree_is_empty() {
    let tree = ShadowTree::new();
    assert!(tree.is_empty());
    assert_eq!(tree.len(), 0);
    assert_eq!(tree.root_id(), None);
    assert_eq!(tree.order(), Vec::<u64>::new());
    assert_eq!(tree.find(0), None);
    assert!(!tree.contains(0));
}

#[test]
fn nodes_stand_in_document_order() {
    let tree = sample();
    assert_eq!(tree.len(), 6);
    assert_eq!(tree.root_id(), Some(0));
    assert_eq!(tree.order(), vec![0, 1, 3, 4, 2, 5]);
    let depths: Vec<usize> = (0..6).map(|i| tree.node(i).depth).collect();
    assert_eq!(depths, vec![0, 1, 2, 2, 1, 2]);
    assert_eq!(tree.find(4), Some(3));
    assert_eq!(tree.find(9), None);
}

#[test]
fn subtrees_are_runs_of_nodes() {
    let tree = sample();
    assert_eq!(tree.subtree_end(0), 6);
    assert_eq!(tree.subtree_end(1), 4);
    assert_eq!(tree.subtree_end(2), 3);
    assert_eq!(tree.subtree_end(4), 6);
    assert_eq!(tree.subtree_end(5), 6);
    assert_eq!(tree.parent_index(0), None);
    assert_eq!(tree.parent_index(1), Some(0));
    assert_eq!(tree.parent_index(3), Some(1));
    assert_eq!(tree.parent_index(4), Some(0));
    assert_eq!(tree.parent_index(5), Some(4));
    assert_eq!(tree.children_of(0), vec![1, 2]);
    assert_eq!(tree.children_of(1), vec![3, 4]);
    assert_eq!(tree.children_of(2), Vec::<u64>::new());
    assert_eq!(tree.children_of(4), vec![5]);
}

#[test]
fn added_node_has_the_initial_state() {
    let mut tree = ShadowTree::new();
    let gone = tree.apply_mutation(&add(8, None));
    assert!(gone.is_empty());
    let node = tree.get(8).unwrap();
    assert_eq!(node.id, 8);
    assert_eq!(node.depth, 0);
    assert!(node.attributes.is_empty());
    assert_eq!(node.text, "");
    assert_eq!(node.state.prevent_default, PreventDefault::Unknown);
    assert_eq!(node.state.focus.level, FocusLevel::Unfocusable);
    assert!(!node.state.focused);
    assert_eq!(node.state.layout.node, None);
    assert!(node.pending.suppression && node.pending.focus && node.pending.layout);
}

#[test]
fn inconsistent_additions_change_nothing() {
    let mut tree = sample();
    tree.add_node(3, Some(0));
    assert_eq!(tree.order(), vec![0, 1, 3, 4, 2, 5]);
    tree.add_node(9, Some(77));
    assert_eq!(tree.order(), vec![0, 1, 3, 4, 2, 5]);
    assert!(!tree.contains(9));
}

#[test]
fn a_node_without_parent_is_detached() {
    let mut tree = sample();
    tree.add_node(9, None);
    tree.add_node(10, Some(9));
    assert_eq!(tree.order(), vec![0, 1, 3, 4, 2, 5, 9, 10]);
    assert_eq!(tree.get(9).unwrap().depth, 0);
    assert_eq!(tree.get(10).unwrap().depth, 1);
    assert_eq!(tree.subtree_end(0), 6);
    assert_eq!(tree.subtree_end(6), 8);
    assert_eq!(tree.parent_index(6), None);
    assert_eq!(tree.root_id(), Some(0));
}

#[test]
fn a_subtree_moves_below_a_parent() {
    let mut tree = sample();
    tree.update_state();
    tree.move_node(1, Place::LastChildOf(5));
    assert_eq!(tree.order(), vec![0, 2, 5, 1, 3, 4]);
    let depths: Vec<usize> = (0..6).map(|i| tree.node(i).depth).collect();
    assert_eq!(depths, vec![0, 1, 2, 3, 4, 4]);
    assert!(tree.get(0).unwrap().pending.layout);
    assert!(tree.get(5).unwrap().pending.layout);
    assert!(!tree.get(2).unwrap().pending.layout);
    assert!(!tree.get(1).unwrap().pending.layout);
    tree.move_node(3, Place::LastChildOf(0));
    assert_eq!(tree.order(), vec![0, 2, 5, 1, 4, 3]);
    assert_eq!(tree.get(3).unwrap().depth, 1);
}

#[test]
fn a_subtree_moves_next_to_a_sibling() {
    let mut tree = sample();
    tree.move_node(2, Place::Before(1));
    assert_eq!(tree.order(), vec![0, 2, 5, 1, 3, 4]);
    tree.move_node(2, Place::After(1));
    assert_eq!(tree.order(), vec![0, 1, 3, 4, 2, 5]);
    tree.move_node(5, Place::Before(4));
    assert_eq!(tree.order(), vec![0, 1, 3, 5, 4, 2]);
    assert_eq!(tree.get(5).unwrap().depth, 2);
    tree.move_node(4, Place::After(3));
    assert_eq!(tree.order(), vec![0, 1, 3, 4, 5, 2]);
    tree.move_node(1, Place::After(2));
    assert_eq!(tree.order(), vec![0, 2, 1, 3, 4, 5]);
    let depths: Vec<usize> = (0..6).map(|i| tree.node(i).depth).collect();
    assert_eq!(depths, vec![0, 1, 1, 2, 2, 2]);
}

#[test]
fn a_detached_subtree_is_attached_by_a_move() {
    let mut tree = ShadowTree::new();
    tree.apply_mutations(&vec![
        add(0, None),
        add(1, None),
        add(2, None),
        add(3, None),
        Mutation::NodeMoved { id: 2, place: Place::LastChildOf(1) },
        Mutation::NodeMoved { id: 3, place: Place::LastChildOf(1) },
        Mutation::NodeMoved { id: 1, place: Place::LastChildOf(0) },
    ]);
    assert_eq!(tree.order(), vec![0, 1, 2, 3]);
    let depths: Vec<usize> = (0..4).map(|i| tree.node(i).depth).collect();
    assert_eq!(depths, vec![0, 1, 2, 2]);
    assert_eq!(tree.subtree_end(0), 4);
}

#[test]
fn impossible_moves_change_nothing() {
    let mut tree = sample();
    tree.move_node(1, Place::LastChildOf(1));
    tree.move_node(1, Place::LastChildOf(3));
    tree.move_node(1, Place::Before(4));
    tree.move_node(0, Place::LastChildOf(5));
    tree.move_node(2, Place::Before(0));
    tree.move_node(2, Place::After(0));
    tree.move_node(9, Place::LastChildOf(0));
    tree.move_node(2, Place::LastChildOf(9));
    assert_eq!(tree.order(), vec![0, 1, 3, 4, 2, 5]);
    let depths: Vec<usize> = (0..6).map(|i| tree.node(i).depth).collect();
    assert_eq!(depths, vec![0, 1, 2, 2, 1, 2]);
}

#[test]
fn a_move_keeps_the_derived_state() {
    let mut tree = sample();
    tree.apply_mutation(&attr(3, "dioxus-prevent-default", Some("onclick")));
    tree.update_state();
    tree.move_node(1, Place::After(2));
    assert_eq!(tree.state_of(3).unwrap().prevent_default, PreventDefault::Click);
    assert_eq!(tree.state_of(3).unwrap().layout.node, Some(3));
    let r = tree.update_state();
    assert_eq!(r.to_rerender, vec![0]);
    assert_eq!(r.requests.len(), 1);
    assert_eq!(r.requests[0].children, vec![2, 1]);
}

#[test]
fn a_child_is_added_after_its_siblings() {
    let mut tree = sample();
    tree.add_node(6, Some(1));
    assert_eq!(tree.order(), vec![0, 1, 3, 4, 6, 2, 5]);
    assert_eq!(tree.get(6).unwrap().depth, 2);
    tree.add_node(7, Some(3));
    assert_eq!(tree.order(), vec![0, 1, 3, 7, 4, 6, 2, 5]);
    assert_eq!(tree.get(7).unwrap().depth, 3);
    tree.add_node(10, Some(0));
    assert_eq!(tree.order(), vec![0, 1, 3, 7, 4, 6, 2, 5, 10]);
}

#[test]
fn removal_takes_the_whole_subtree() {
    let mut tree = sample();
    let gone = tree.remove_node(1);
    assert_eq!(gone, vec![1, 3, 4]);
    assert_eq!(tree.order(), vec![0, 2, 5]);
    assert!(!tree.contains(3));
    assert_eq!(tree.state_of(3), None);
    let gone = tree.remove_node(1);
    assert!(gone.is_empty());
    assert_eq!(tree.order(), vec![0, 2, 5]);
    let gone = tree.apply_mutation(&Mutation::NodeRemoved { id: 0 });
    assert_eq!(gone, vec![0, 2, 5]);
    assert!(tree.is_empty());
}

#[test]
fn removal_marks_the_parent_layout() {
    let mut tree = sample();
    tree.update_state();
    assert!(!tree.get(2).unwrap().pending.layout);
    tree.remove_node(5);
    assert!(tree.get(2).unwrap().pending.layout);
    assert!(!tree.get(0).unwrap().pending.layout);
    assert!(!tree.get(1).unwrap().pending.layout);
}

#[test]
fn batch_reports_every_handle_that_left() {
    let mut tree = sample();
    let gone = tree.apply_mutations(&vec![
        Mutation::NodeRemoved { id: 5 },
        add(6, Some(2)),
        Mutation::NodeRemoved { id: 1 },
        Mutation::NodeRemoved { id: 44 },
    ]);
    assert_eq!(gone, vec![5, 1, 3, 4]);
    assert_eq!(tree.order(), vec![0, 2, 6]);
}

#[test]
fn attributes_are_written_replaced_and_removed() {
    let mut tree = sample();
    tree.set_attribute(3, "width", Some("10"));
    tree.set_attribute(3, "height", Some("20"));
    tree.set_attribute(3, "width", Some("30"));
    {
        let node = tree.get(3).unwrap();
        assert_eq!(node.attributes.len(), 2);
        assert_eq!(lookup_attribute(&node.attributes, "width"), Some("30"));
        assert_eq!(lookup_attribute(&node.attributes, "height"), Some("20"));
        assert_eq!(lookup_attribute(&node.attributes, "depth"), None);
    }
    tree.set_attribute(3, "width", None);
    tree.set_attribute(3, "depth", None);
    let node = tree.get(3).unwrap();
    assert_eq!(node.attributes.len(), 1);
    assert_eq!(lookup_attribute(&node.attributes, "width"), None);
    tree.set_attribute(99, "width", Some("1"));
    assert_eq!(tree.len(), 6);
}

#[test]
fn lookup_returns_the_first_match() {
    let attrs = vec![
        Attribute { name: "a".to_string(), value: "1".to_string() },
        Attribute { name: "b".to_string(), value: "2".to_string() },
        Attribute { name: "a".to_string(), value: "3".to_string() },
    ];
    assert_eq!(lookup_attribute(&attrs, "a"), Some("1"));
    assert_eq!(lookup_attribute(&attrs, "b"), Some("2"));
    assert_eq!(lookup_attribute(&attrs, "c"), None);
}

#[test]
fn each_field_watches_its_own_attribute() {
    let mut tree = sample();
    tree.update_state();
    tree.set_attribute(3, "dioxus-prevent-default", Some("onclick"));
    let p = tree.get(3).unwrap().pending;
    assert!(p.suppression && !p.focus && !p.layout);
    tree.set_attribute(4, "tabindex", Some("0"));
    let p = tree.get(4).unwrap().pending;
    assert!(!p.suppression && p.focus && !p.layout);
    tree.set_attribute(5, "width", Some("3"));
    let p = tree.get(5).unwrap().pending;
    assert!(!p.suppression && !p.focus && p.layout);
    tree.set_text(2, "hello");
    assert_eq!(tree.get(2).unwrap().text, "hello");
    let p = tree.get(2).unwrap().pending;
    assert!(!p.suppression && !p.focus && p.layout);
}

#[test]
fn reducer_visits_children_before_parents() {
    let mut tree = sample();
    let r = tree.update_state();
    assert_eq!(r.to_rerender, vec![5, 2, 4, 3, 1, 0]);
    let nodes: Vec<u64> = r.requests.iter().map(|q| q.node).collect();
    assert_eq!(nodes, vec![5, 2, 4, 3, 1, 0]);
    assert!(r.requests.iter().all(|q| q.created));
    assert_eq!(r.requests[1].children, vec![5]);
    assert_eq!(r.requests[4].children, vec![3, 4]);
    assert_eq!(r.requests[5].children, vec![1, 2]);
    for i in 0..tree.len() {
        let node = tree.node(i);
        assert_eq!(node.state.layout.node, Some(node.id));
        assert!(!node.pending.suppression && !node.pending.focus && !node.pending.layout);
    }
}

#[test]
fn reducer_reports_nothing_when_nothing_waits() {
    let mut tree = sample();
    tree.update_state();
    let r = tree.update_state();
    assert!(r.to_rerender.is_empty());
    assert!(r.requests.is_empty());
}

#[test]
fn reducer_reports_only_what_changed() {
    let mut tree = sample();
    tree.update_state();
    tree.apply_mutations(&vec![
        attr(3, "dioxus-prevent-default", Some("onwheel")),
        attr(4, "dioxus-prevent-default", Some("bogus")),
        attr(5, "tabindex", Some("0")),
        attr(2, "tabindex", Some("x")),
    ]);
    let r = tree.update_state();
    assert_eq!(r.to_rerender, vec![5, 3]);
    assert!(r.requests.is_empty());
    assert_eq!(tree.state_of(3).unwrap().prevent_default, PreventDefault::Wheel);
    assert_eq!(tree.state_of(4).unwrap().prevent_default, PreventDefault::Unknown);
    assert_eq!(tree.state_of(5).unwrap().focus.level, FocusLevel::Focusable);
    assert_eq!(tree.state_of(2).unwrap().focus.level, FocusLevel::Unfocusable);

    tree.apply_mutation(&attr(3, "dioxus-prevent-default", None));
    let r = tree.update_state();
    assert_eq!(r.to_rerender, vec![3]);
    assert_eq!(tree.state_of(3).unwrap().prevent_default, PreventDefault::Unknown);
}

#[test]
fn measurement_nodes_are_created_once() {
    let mut tree = sample();
    tree.update_state();
    tree.add_node(6, Some(2));
    let r = tree.update_state();
    assert_eq!(r.to_rerender, vec![6, 2]);
    assert_eq!(r.requests.len(), 2);
    assert_eq!(r.requests[0].node, 6);
    assert!(r.requests[0].created);
    assert!(r.requests[0].children.is_empty());
    assert_eq!(r.requests[1].node, 2);
    assert!(!r.requests[1].created);
    assert_eq!(r.requests[1].children, vec![5, 6]);
    assert_eq!(tree.measure_requests().len(), 0);
}

#[test]
fn resolve_layout_stores_geometry_and_reports_changes() {
    let mut tree = sample();
    tree.update_state();
    let a = Rect { x: 0, y: 0, width: 800, height: 600 };
    let b = Rect { x: 0, y: 0, width: 400, height: 600 };
    let solved = vec![
        Solved { key: 0, rect: a },
        Solved { key: 1, rect: b },
        Solved { key: 1, rect: a },
        Solved { key: 77, rect: a },
    ];
    let changed = tree.resolve_layout(&solved);
    assert_eq!(changed, vec![1, 0]);
    assert_eq!(tree.state_of(0).unwrap().layout.layout, Some(a));
    assert_eq!(tree.state_of(1).unwrap().layout.layout, Some(b));
    assert_eq!(tree.state_of(2).unwrap().layout.layout, None);
    let changed = tree.resolve_layout(&solved);
    assert!(changed.is_empty());
    let changed = tree.resolve_layout(&vec![Solved { key: 0, rect: b }]);
    assert_eq!(changed, vec![0]);
    assert_eq!(tree.state_of(0).unwrap().layout.layout, Some(b));
    assert_eq!(tree.state_of(1).unwrap().layout.layout, Some(b));
}

#[test]
fn nodes_without_measurement_node_get_no_geometry() {
    let mut tree = sample();
    let a = Rect { x: 1, y: 2, width: 3, height: 4 };
    let changed = tree.resolve_layout(&vec![Solved { key: 0, rect: a }]);
    assert!(changed.is_empty());
    assert_eq!(tree.state_of(0).unwrap().layout.layout, None);
}

#[test]
fn a_new_node_waits_for_the_reducer() {
    let node = Node::new(4, 2);
    assert_eq!(node.id, 4);
    assert_eq!(node.depth, 2);
    assert!(node.attributes.is_empty());
    assert_eq!(node.text, "");
    assert_eq!(node.state, render_sync::state::NodeState::default());
    assert!(node.pending.suppression && node.pending.focus && node.pending.layout);
}

#[test]
fn write_attribute_updates_the_first_match() {
    let mut attrs: Vec<Attribute> = Vec::new();
    write_attribute(&mut attrs, "a", None);
    assert!(attrs.is_empty());
    write_attribute(&mut attrs, "a", Some("1"));
    write_attribute(&mut attrs, "b", Some("2"));
    write_attribute(&mut attrs, "a", Some("3"));
    assert_eq!(attrs.len(), 2);
    assert_eq!(attribute_position(&attrs, "a"), Some(0));
    assert_eq!(attribute_position(&attrs, "b"), Some(1));
    assert_eq!(attribute_position(&attrs, "c"), None);
    assert_eq!(attrs[0].value, "3");
    write_attribute(&mut attrs, "a", None);
    assert_eq!(attrs.len(), 1);
    assert_eq!(attrs[0].name, "b");
    assert_eq!(attribute_position(&attrs, "b"), Some(0));
}

#[test]
fn find_solved_returns_the_first_entry() {
    let a = Rect { x: 1, y: 2, width: 3, height: 4 };
    let b = Rect { x: 5, y: 6, width: 7, height: 8 };
    let solved = vec![Solved { key: 1, rect: a }, Solved { key: 2, rect: b }, Solved { key: 1, rect: b }];
    assert_eq!(find_solved(&solved, 1), Some(a));
    assert_eq!(find_solved(&solved, 2), Some(b));
    assert_eq!(find_solved(&solved, 3), None);
    assert_eq!(find_solved(&Vec::new(), 1), None);
}

#[test]
fn scan_up_finds_the_nearest_shallower_node() {
    let tree = sample();
    assert_eq!(tree.scan_up(2, 4), Some(1));
    assert_eq!(tree.scan_up(1, 4), Some(0));
    assert_eq!(tree.scan_up(0, 4), None);
    assert_eq!(tree.scan_up(3, 6), Some(5));
    assert_eq!(tree.scan_up(5, 0), None);
}

#[test]
fn focus_only_moves_the_flag() {
    let mut tree = sample();
    assert_eq!(tree.focus_only(2), vec![3]);
    assert!(tree.state_of(3).unwrap().focused);
    assert_eq!(tree.focus_only(4), vec![3, 2]);
    assert!(!tree.state_of(3).unwrap().focused);
    assert!(tree.state_of(2).unwrap().focused);
    assert_eq!(tree.focus_only(4), vec![2]);
    let flagged = (0..tree.len()).filter(|i| tree.node(*i).state.focused).count();
    assert_eq!(flagged, 1);
}

#[test]
fn the_document_ends_where_detached_nodes_begin() {
    let mut tree = ShadowTree::new();
    assert_eq!(tree.document_len(), 0);
    tree.add_node(0, None);
    tree.add_node(1, Some(0));
    tree.add_node(2, None);
    assert_eq!(tree.document_len(), 2);
    assert_eq!(tree.len(), 3);
    tree.remove_node(0);
    assert_eq!(tree.order(), vec![2]);
    assert_eq!(tree.document_len(), 1);
}

#[test]
fn a_suppression_attribute_resolves_on_the_node() {
    let mut tree = ShadowTree::new();
    tree.apply_mutations(&vec![
        add(0, None),
        add(1, Some(0)),
        add(2, Some(0)),
        add(3, Some(0)),
        attr(1, "dioxus-prevent-default", Some("onclick")),
        attr(2, "dioxus-prevent-default", Some("onwheel")),
        attr(3, "dioxus-prevent-default", Some("ondrag")),
    ]);
    tree.update_state();
    assert_eq!(tree.state_of(0).unwrap().prevent_default, PreventDefault::Unknown);
    assert_eq!(tree.state_of(1).unwrap().prevent_default, PreventDefault::Click);
    assert_eq!(tree.state_of(2).unwrap().prevent_default, PreventDefault::Wheel);
    assert_eq!(tree.state_of(3).unwrap().prevent_default, PreventDefault::Unknown);
}
