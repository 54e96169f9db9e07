use vstd::prelude::*;
use crate::focus::{lemma_prune_safety, lemma_pruned_first_in_tree, pruned, pruned_first};
use crate::model::{
    has_id, index_of, lemma_index_of, lemma_subtree_end, parent_index, scan_parent, subtree_end,
    well_formed, MutationModel, NodeModel, Place,
};
use crate::moving::{
    can_move, lemma_move_fits, lemma_moved_has_id, lemma_moved_wf, lemma_with_run_shape, moved,
    place_depth, place_index, shifted,
};
use crate::mutation::{
    added, applied, applied_first, lemma_added_wf, lemma_applied_first_wf, lemma_applied_wf,
    lemma_removed_has_id, lemma_removed_shape, lemma_removed_wf, lemma_touch_parent_wf, removed,
    touch_parent,
};
use crate::state::NodeState;

verus! {

/// The derived state of the node with this handle.
pub open spec fn state_of(nodes: Seq<NodeModel>, h: u64) -> NodeState {
    nodes[index_of(nodes, h)].state
}

/// Whether a node stays in the tree through the first `n` mutations of a
/// batch: the tree holds its handle before the batch and after each of
/// those mutations.
pub open spec fn survives(nodes: Seq<NodeModel>, batch: Seq<MutationModel>, n: int, h: u64) -> bool
    decreases n,
{
    if n <= 0 {
        has_id(nodes, h)
    } else {
        survives(nodes, batch, n - 1, h) && has_id(applied_first(nodes, batch, n), h)
    }
}

/// A node that stays through the addition of another keeps its derived state.
pub proof fn lemma_added_keeps_state(nodes: Seq<NodeModel>, id: u64, parent: Option<u64>, h: u64)
    requires
        well_formed(nodes),
        has_id(nodes, h),
    ensures
        has_id(added(nodes, id, parent), h),
        state_of(added(nodes, id, parent), h) == state_of(nodes, h),
{
    let r = added(nodes, id, parent);
    let o = index_of(nodes, h);
    lemma_added_wf(nodes, id, parent);
    if r != nodes {
        match parent {
            None => {
                assert(r[o] == nodes[o]);
                lemma_index_of(r, o);
            },
            Some(p) => {
                let pi = index_of(nodes, p);
                let e = subtree_end(nodes, pi);
                lemma_subtree_end(nodes, pi);
                let k = if o < e { o } else { o + 1 };
                assert(r[k].id == h && r[k].state == nodes[o].state);
                lemma_index_of(r, k);
            },
        }
    }
}

/// A node that stays through a removal keeps its derived state.
pub proof fn lemma_removed_keeps_state(nodes: Seq<NodeModel>, id: u64, h: u64)
    requires
        well_formed(nodes),
        has_id(nodes, h),
        has_id(removed(nodes, id), h),
    ensures
        state_of(removed(nodes, id), h) == state_of(nodes, h),
{
    if has_id(nodes, id) {
        let r = removed(nodes, id);
        let o = index_of(nodes, h);
        let i = index_of(nodes, id);
        let e = subtree_end(nodes, i);
        let t = touch_parent(nodes, parent_index(nodes, i));
        lemma_removed_wf(nodes, id);
        lemma_removed_shape(nodes, id);
        lemma_removed_has_id(nodes, id, h);
        lemma_touch_parent_wf(nodes, parent_index(nodes, i));
        let k = if o < i { o } else { o - (e - i) };
        assert(r[k] == t[o]);
        assert(r[k].id == h && r[k].state == nodes[o].state);
        lemma_index_of(r, k);
    }
}

/// A node keeps its derived state through a move, its own or another's.
pub proof fn lemma_moved_keeps_state(nodes: Seq<NodeModel>, id: u64, place: Place, h: u64)
    requires
        well_formed(nodes),
        has_id(nodes, h),
    ensures
        has_id(moved(nodes, id, place), h),
        state_of(moved(nodes, id, place), h) == state_of(nodes, h),
{
    if can_move(nodes, id, place) {
        let r = moved(nodes, id, place);
        let o = index_of(nodes, h);
        let i = index_of(nodes, id);
        let e = subtree_end(nodes, i);
        let run = nodes.subrange(i, e);
        let rest = removed(nodes, id);
        let at = place_index(rest, place);
        let base = place_depth(rest, place);
        let m = run.len() as int;
        let t = touch_parent(rest, scan_parent(rest, base, at - 1));
        lemma_moved_wf(nodes, id, place);
        lemma_move_fits(nodes, id, place);
        lemma_with_run_shape(rest, run, at, base);
        lemma_subtree_end(nodes, i);
        if i <= o < e {
            let k = at + (o - i);
            assert(r[k] == shifted(run, base)[o - i]);
            assert(r[k].id == h && r[k].state == nodes[o].state);
            lemma_index_of(r, k);
        } else {
            lemma_removed_has_id(nodes, id, h);
            lemma_removed_keeps_state(nodes, id, h);
            let x = index_of(rest, h);
            let k = if x < at { x } else { x + m };
            assert(r[k] == t[x]);
            assert(r[k].id == h && r[k].state == rest[x].state);
            lemma_index_of(r, k);
        }
    }
}

/// No mutation changes the derived state of a node that stays in the
/// tree: only the reducer, the solver's results and a move of the focus do.
pub proof fn lemma_applied_keeps_state(nodes: Seq<NodeModel>, m: MutationModel, h: u64)
    requires
        well_formed(nodes),
        has_id(nodes, h),
        has_id(applied(nodes, m), h),
    ensures
        state_of(applied(nodes, m), h) == state_of(nodes, h),
{
    let r = applied(nodes, m);
    let o = index_of(nodes, h);
    lemma_applied_wf(nodes, m);
    match m {
        MutationModel::NodeAdded { id, parent } => lemma_added_keeps_state(nodes, id, parent, h),
        MutationModel::NodeMoved { id, place } => lemma_moved_keeps_state(nodes, id, place, h),
        MutationModel::NodeRemoved { id } => lemma_removed_keeps_state(nodes, id, h),
        MutationModel::AttributeChanged { id, name, value } => {
            assert(r[o].id == h && r[o].state == nodes[o].state);
            lemma_index_of(r, o);
        },
        MutationModel::TextChanged { id, text } => {
            assert(r[o].id == h && r[o].state == nodes[o].state);
            lemma_index_of(r, o);
        },
    }
}

/// A node that stays in the tree through a batch has, after the batch was
/// applied and before the reducer ran, the derived state that it had.
pub proof fn lemma_batch_keeps_state(nodes: Seq<NodeModel>, batch: Seq<MutationModel>, n: int, h: u64)
    requires
        well_formed(nodes),
        0 <= n <= batch.len(),
        survives(nodes, batch, n, h),
    ensures
        has_id(applied_first(nodes, batch, n), h),
        state_of(applied_first(nodes, batch, n), h) == state_of(nodes, h),
    decreases n,
{
    if n > 0 {
        lemma_batch_keeps_state(nodes, batch, n - 1, h);
        lemma_applied_first_wf(nodes, batch, n - 1);
        lemma_applied_keeps_state(applied_first(nodes, batch, n - 1), batch[n - 1], h);
    }
}

/// Whether the `focused` flags agree with the focus target: a node that
/// is focused is the target.
pub open spec fn flags_agree(nodes: Seq<NodeModel>, current: Option<u64>) -> bool {
    forall|i: int| 0 <= i < nodes.len() && (#[trigger] nodes[i]).state.focused ==> current == Some(nodes[i].id)
}

/// A node that is focused after a mutation was in the tree before it: a
/// node enters the tree unfocused.
pub proof fn lemma_focused_was_there(nodes: Seq<NodeModel>, m: MutationModel, k: int)
    requires
        well_formed(nodes),
        0 <= k < applied(nodes, m).len(),
        applied(nodes, m)[k].state.focused,
    ensures
        has_id(nodes, applied(nodes, m)[k].id),
{
    let r = applied(nodes, m);
    match m {
        MutationModel::NodeAdded { id, parent } => {
            if r != nodes {
                match parent {
                    None => {
                        assert(nodes[k].id == r[k].id);
                    },
                    Some(p) => {
                        let e = subtree_end(nodes, index_of(nodes, p));
                        lemma_subtree_end(nodes, index_of(nodes, p));
                        let o = if k < e { k } else { k - 1 };
                        assert(nodes[o].id == r[k].id);
                    },
                }
            } else {
                assert(nodes[k].id == r[k].id);
            }
        },
        MutationModel::NodeMoved { id, place } => {
            assert(has_id(r, r[k].id));
            lemma_moved_has_id(nodes, id, place, r[k].id);
        },
        MutationModel::NodeRemoved { id } => {
            if has_id(nodes, id) {
                assert(has_id(r, r[k].id));
                lemma_removed_has_id(nodes, id, r[k].id);
            } else {
                assert(nodes[k].id == r[k].id);
            }
        },
        MutationModel::AttributeChanged { id, name, value } => {
            assert(nodes[k].id == r[k].id);
        },
        MutationModel::TextChanged { id, text } => {
            assert(nodes[k].id == r[k].id);
        },
    }
}

/// The `focused` flags agree with the focus target after a mutation that
/// was announced to the focus state and then applied, if they did before.
pub proof fn lemma_prune_keeps_agreement(nodes: Seq<NodeModel>, current: Option<u64>, m: MutationModel)
    requires
        well_formed(nodes),
        current matches Some(h) ==> has_id(nodes, h),
        flags_agree(nodes, current),
    ensures
        flags_agree(applied(nodes, m), pruned(nodes, current, m)),
{
    let r = applied(nodes, m);
    lemma_applied_wf(nodes, m);
    lemma_prune_safety(nodes, current, m);
    assert forall|k: int| 0 <= k < r.len() && (#[trigger] r[k]).state.focused implies pruned(nodes, current, m) == Some(
        r[k].id,
    ) by {
        let h = r[k].id;
        lemma_focused_was_there(nodes, m, k);
        lemma_index_of(r, k);
        lemma_applied_keeps_state(nodes, m, h);
        let o = index_of(nodes, h);
        assert(nodes[o].state.focused);
        assert(current == Some(h));
    }
}

/// The `focused` flags agree with the focus target after every prefix of
/// a batch, each mutation announced and then applied.
pub proof fn lemma_batch_keeps_agreement(nodes: Seq<NodeModel>, current: Option<u64>, batch: Seq<MutationModel>, n: int)
    requires
        well_formed(nodes),
        current matches Some(h) ==> has_id(nodes, h),
        flags_agree(nodes, current),
        0 <= n <= batch.len(),
    ensures
        flags_agree(applied_first(nodes, batch, n), pruned_first(nodes, current, batch, n)),
    decreases n,
{
    if n > 0 {
        lemma_batch_keeps_agreement(nodes, current, batch, n - 1);
        lemma_applied_first_wf(nodes, batch, n - 1);
        lemma_pruned_first_in_tree(nodes, current, batch, n - 1);
        lemma_prune_keeps_agreement(
            applied_first(nodes, batch, n - 1),
            pruned_first(nodes, current, batch, n - 1),
            batch[n - 1],
        );
    }
}

} // verus!
