use vstd::prelude::*;
use crate::model::{
    attribute_value, depth_step, in_sync, subtree_end, well_formed, NodeModel, Pending,
};
use crate::state::{focus_level_of, suppression_of, Focus, NodeState, Rect, StretchLayout};

verus! {

/// The derived state of a node after the reducer visited it. A field that
/// does not wait keeps its value. The suppression and the focus level are
/// computed from the node's own attributes; the layout gets its
/// measurement node, keyed by the node's handle, and keeps its geometry
/// until the solver has run.
pub open spec fn reduced_state(n: NodeModel) -> NodeState {
    NodeState {
        layout: if n.pending.layout {
            StretchLayout { node: Some(n.id), layout: n.state.layout.layout }
        } else {
            n.state.layout
        },
        focus: if n.pending.focus {
            Focus { level: focus_level_of(attribute_value(n.attributes, "tabindex"@)) }
        } else {
            n.state.focus
        },
        focused: n.state.focused,
        prevent_default: if n.pending.suppression {
            suppression_of(attribute_value(n.attributes, "dioxus-prevent-default"@))
        } else {
            n.state.prevent_default
        },
    }
}

/// A node after the reducer visited it: nothing waits any more.
pub open spec fn reduced_node(n: NodeModel) -> NodeModel {
    NodeModel { state: reduced_state(n), pending: Pending::none(), ..n }
}

/// The tree after the reducer visited every node.
pub open spec fn reduced(nodes: Seq<NodeModel>) -> Seq<NodeModel> {
    nodes.map_values(|n: NodeModel| reduced_node(n))
}

/// Whether the appearance of a node may have changed: its layout waited
/// for the reducer, or a derived field got another value.
pub open spec fn needs_rerender(n: NodeModel) -> bool {
    n.pending.layout || reduced_state(n) != n.state
}

/// The handles of the nodes from index `from` on whose appearance may have
/// changed, children before parents.
pub open spec fn to_rerender(nodes: Seq<NodeModel>, from: int) -> Seq<u64>
    decreases nodes.len() - from,
{
    if from < 0 || from >= nodes.len() {
        Seq::empty()
    } else if needs_rerender(nodes[from]) {
        to_rerender(nodes, from + 1).push(nodes[from].id)
    } else {
        to_rerender(nodes, from + 1)
    }
}

/// The handles of the children of the node at index `i` among the nodes
/// before index `to`, in document order.
pub open spec fn children_upto(nodes: Seq<NodeModel>, i: int, to: int) -> Seq<u64>
    decreases to - i,
{
    if to <= i + 1 || to > nodes.len() {
        Seq::empty()
    } else if nodes[to - 1].depth == nodes[i].depth + 1 {
        children_upto(nodes, i, to - 1).push(nodes[to - 1].id)
    } else {
        children_upto(nodes, i, to - 1)
    }
}

/// The handles of the children of the node at index `i`, in document order.
pub open spec fn child_ids(nodes: Seq<NodeModel>, i: int) -> Seq<u64> {
    children_upto(nodes, i, subtree_end(nodes, i))
}

/// A request to the box-model solver, as a mathematical value.
pub ghost struct MeasureModel {
    pub node: u64,
    pub created: bool,
    pub children: Seq<u64>,
}

/// The request that the node at index `i` pushes to the solver.
pub open spec fn request_of(nodes: Seq<NodeModel>, i: int) -> MeasureModel {
    MeasureModel {
        node: nodes[i].id,
        created: nodes[i].state.layout.node is None,
        children: child_ids(nodes, i),
    }
}

/// The requests of the nodes from index `from` on whose layout waits for
/// the reducer, children before parents.
pub open spec fn requests_from(nodes: Seq<NodeModel>, from: int) -> Seq<MeasureModel>
    decreases nodes.len() - from,
{
    if from < 0 || from >= nodes.len() {
        Seq::empty()
    } else if nodes[from].pending.layout {
        requests_from(nodes, from + 1).push(request_of(nodes, from))
    } else {
        requests_from(nodes, from + 1)
    }
}

/// One rectangle that the solver resolved, with the key of its
/// measurement node.
#[derive(PartialEq, Eq, Structural, Debug, Clone, Copy)]
pub struct Solved {
    pub key: u64,
    pub rect: Rect,
}

/// The rectangle of the first entry at or after `from` with this key.
pub open spec fn solved_rect(solved: Seq<Solved>, key: u64, from: int) -> Option<Rect>
    decreases solved.len() - from,
{
    if from < 0 || from >= solved.len() {
        None
    } else if solved[from].key == key {
        Some(solved[from].rect)
    } else {
        solved_rect(solved, key, from + 1)
    }
}

/// The layout of a node after the solver has run: a node with a
/// measurement node for which the solver resolved a rectangle gets that
/// rectangle, and every other node keeps what it had.
pub open spec fn resolved_layout(n: NodeModel, solved: Seq<Solved>) -> StretchLayout {
    match n.state.layout.node {
        Some(key) => match solved_rect(solved, key, 0) {
            Some(rect) => StretchLayout { node: Some(key), layout: Some(rect) },
            None => n.state.layout,
        },
        None => n.state.layout,
    }
}

/// A node after the solver has run.
pub open spec fn resolved_node(n: NodeModel, solved: Seq<Solved>) -> NodeModel {
    NodeModel { state: NodeState { layout: resolved_layout(n, solved), ..n.state }, ..n }
}

/// The tree after the solver has run.
pub open spec fn resolved(nodes: Seq<NodeModel>, solved: Seq<Solved>) -> Seq<NodeModel> {
    nodes.map_values(|n: NodeModel| resolved_node(n, solved))
}

/// The handles of the nodes from index `from` on whose geometry the
/// solver changed, children before parents.
pub open spec fn geometry_changed(nodes: Seq<NodeModel>, solved: Seq<Solved>, from: int) -> Seq<u64>
    decreases nodes.len() - from,
{
    if from < 0 || from >= nodes.len() {
        Seq::empty()
    } else if resolved_layout(nodes[from], solved) != nodes[from].state.layout {
        geometry_changed(nodes, solved, from + 1).push(nodes[from].id)
    } else {
        geometry_changed(nodes, solved, from + 1)
    }
}

/// The reducer keeps the tree well formed, and afterwards every node has
/// its measurement node.
pub proof fn lemma_reduced_wf(nodes: Seq<NodeModel>)
    requires
        well_formed(nodes),
    ensures
        well_formed(reduced(nodes)),
        forall|k: int| 0 <= k < nodes.len() ==> (#[trigger] reduced(nodes)[k]).state.layout.node == Some(nodes[k].id),
        forall|k: int| 0 <= k < nodes.len() ==> !(#[trigger] reduced(nodes)[k]).pending.any(),
{
    let r = reduced(nodes);
    assert forall|i: int, j: int| 0 <= i < j < r.len() implies (#[trigger] r[i]).id != (#[trigger] r[j]).id by {
        assert(nodes[i].id != nodes[j].id);
    }
    assert forall|i: int| 0 < i < r.len() implies #[trigger] depth_step(r, i) by {
        assert(depth_step(nodes, i));
    }
    assert forall|i: int, j: int|
        0 <= i < r.len() && 0 <= j < r.len() && (#[trigger] r[i]).state.focused && (#[trigger] r[j]).state.focused implies i
        == j by {
        assert(nodes[i].state.focused && nodes[j].state.focused);
    }
    assert forall|i: int| 0 <= i < r.len() implies (#[trigger] r[i]).state.layout.node == Some(nodes[i].id) by {
        assert(nodes[i].state.layout.node matches Some(k) ==> k == nodes[i].id);
        assert(!nodes[i].pending.layout ==> nodes[i].state.layout.node is Some);
    }
}

/// After the reducer ran, the attribute-driven fields of every node are
/// what the node's attributes give: the suppression is the category that
/// the suppression attribute names (`Unknown` where the node has none or
/// its value names no category), and the focus level what the tab index
/// gives.
pub proof fn lemma_reduced_in_sync(nodes: Seq<NodeModel>, k: int)
    requires
        well_formed(nodes),
        0 <= k < nodes.len(),
    ensures
        reduced(nodes)[k].state.prevent_default == suppression_of(
            attribute_value(nodes[k].attributes, "dioxus-prevent-default"@),
        ),
        reduced(nodes)[k].state.focus.level == focus_level_of(attribute_value(nodes[k].attributes, "tabindex"@)),
{
    assert(in_sync(nodes[k]));
}

/// The solver's results keep the tree well formed.
pub proof fn lemma_resolved_wf(nodes: Seq<NodeModel>, solved: Seq<Solved>)
    requires
        well_formed(nodes),
    ensures
        well_formed(resolved(nodes, solved)),
{
    let r = resolved(nodes, solved);
    assert forall|i: int, j: int| 0 <= i < j < r.len() implies (#[trigger] r[i]).id != (#[trigger] r[j]).id by {
        assert(nodes[i].id != nodes[j].id);
    }
    assert forall|i: int| 0 < i < r.len() implies #[trigger] depth_step(r, i) by {
        assert(depth_step(nodes, i));
    }
    assert forall|i: int, j: int|
        0 <= i < r.len() && 0 <= j < r.len() && (#[trigger] r[i]).state.focused && (#[trigger] r[j]).state.focused implies i
        == j by {
        assert(nodes[i].state.focused && nodes[j].state.focused);
    }
    assert forall|i: int| 0 <= i < r.len() implies {
        &&& (#[trigger] r[i]).state.layout.node matches Some(k) ==> k == r[i].id
        &&& !r[i].pending.layout ==> r[i].state.layout.node is Some
    } by {
        assert(nodes[i].state.layout.node matches Some(k) ==> k == nodes[i].id);
        assert(!nodes[i].pending.layout ==> nodes[i].state.layout.node is Some);
    }
}

/// The reducer reports every node whose derived state it changed.
pub proof fn lemma_to_rerender_sound(nodes: Seq<NodeModel>, from: int, k: int)
    requires
        0 <= from <= k < nodes.len(),
        reduced(nodes)[k].state != nodes[k].state || nodes[k].pending.layout,
    ensures
        to_rerender(nodes, from).contains(nodes[k].id),
    decreases k - from,
{
    if from < k {
        lemma_to_rerender_sound(nodes, from + 1, k);
        let rest = to_rerender(nodes, from + 1);
        let j = choose|j: int| 0 <= j < rest.len() && rest[j] == nodes[k].id;
        if needs_rerender(nodes[from]) {
            assert(rest.push(nodes[from].id)[j] == nodes[k].id);
        }
    } else {
        let rest = to_rerender(nodes, from + 1);
        assert(rest.push(nodes[k].id)[rest.len() as int] == nodes[k].id);
    }
}

/// The reducer reports no node that it left as it was: every handle that
/// it reports belongs to a node whose appearance may have changed.
pub proof fn lemma_to_rerender_minimal(nodes: Seq<NodeModel>, from: int, h: u64)
    requires
        0 <= from <= nodes.len(),
        to_rerender(nodes, from).contains(h),
    ensures
        exists|k: int| from <= k < nodes.len() && (#[trigger] nodes[k]).id == h && needs_rerender(nodes[k]),
    decreases nodes.len() - from,
{
    if from < nodes.len() {
        let rest = to_rerender(nodes, from + 1);
        if needs_rerender(nodes[from]) {
            let j = choose|j: int| 0 <= j < rest.push(nodes[from].id).len() && rest.push(nodes[from].id)[j] == h;
            if j < rest.len() {
                assert(rest[j] == h);
                lemma_to_rerender_minimal(nodes, from + 1, h);
            } else {
                assert(nodes[from].id == h);
            }
        } else {
            lemma_to_rerender_minimal(nodes, from + 1, h);
        }
    }
}

/// The solver's pass reports every node whose geometry it changed.
pub proof fn lemma_geometry_changed_sound(nodes: Seq<NodeModel>, solved: Seq<Solved>, from: int, k: int)
    requires
        0 <= from <= k < nodes.len(),
        resolved(nodes, solved)[k].state != nodes[k].state,
    ensures
        geometry_changed(nodes, solved, from).contains(nodes[k].id),
    decreases k - from,
{
    if from < k {
        lemma_geometry_changed_sound(nodes, solved, from + 1, k);
        let rest = geometry_changed(nodes, solved, from + 1);
        let j = choose|j: int| 0 <= j < rest.len() && rest[j] == nodes[k].id;
        if resolved_layout(nodes[from], solved) != nodes[from].state.layout {
            assert(rest.push(nodes[from].id)[j] == nodes[k].id);
        }
    } else {
        let rest = geometry_changed(nodes, solved, from + 1);
        assert(rest.push(nodes[k].id)[rest.len() as int] == nodes[k].id);
    }
}

} // verus!
