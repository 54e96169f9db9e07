use vstd::prelude::*;
use crate::model::{
    depth_step, has_id, ids, in_subtree, in_sync, index_of, lemma_depth_bound, lemma_index_of,
    lemma_scan_parent, lemma_subtree_end, lemma_with_attribute_other, parent_index, scan_end,
    subtree_end, well_formed, with_attribute, MutationModel, NodeModel, Pending,
};
use crate::moving::{lemma_moved_wf, moved};
use crate::state::NodeState;

verus! {

/// A node as it enters the tree: no attributes, no text, the initial
/// derived state, and every field waiting for the reducer.
pub open spec fn fresh(id: u64, depth: usize) -> NodeModel {
    NodeModel {
        id,
        depth,
        attributes: Seq::empty(),
        text: Seq::empty(),
        state: NodeState::initial(),
        pending: Pending::all(),
    }
}

/// The node with its layout waiting for the reducer.
pub open spec fn touch_layout(n: NodeModel) -> NodeModel {
    NodeModel { pending: Pending { layout: true, ..n.pending }, ..n }
}

/// The tree with the layout of the node at index `p`, if any, waiting for
/// the reducer.
pub open spec fn touch_parent(nodes: Seq<NodeModel>, p: Option<int>) -> Seq<NodeModel> {
    match p {
        Some(k) => nodes.update(k, touch_layout(nodes[k])),
        None => nodes,
    }
}

/// The tree after a node was added as the last child of `parent`. Without
/// a parent the node becomes the root of an empty tree, and a detached
/// node after the document otherwise. A handle that the tree already
/// holds, a parent that it does not hold and a tree that is full change
/// nothing.
pub open spec fn added(nodes: Seq<NodeModel>, id: u64, parent: Option<u64>) -> Seq<NodeModel> {
    if has_id(nodes, id) || nodes.len() >= usize::MAX {
        nodes
    } else {
        match parent {
            None => nodes.push(fresh(id, 0)),
            Some(p) => if has_id(nodes, p) {
                let pi = index_of(nodes, p);
                touch_parent(nodes, Some(pi)).insert(
                    subtree_end(nodes, pi),
                    fresh(id, (nodes[pi].depth + 1) as usize),
                )
            } else {
                nodes
            },
        }
    }
}

/// The tree after the node with this handle left with everything below it.
/// A handle that the tree does not hold changes nothing.
pub open spec fn removed(nodes: Seq<NodeModel>, id: u64) -> Seq<NodeModel> {
    if has_id(nodes, id) {
        let i = index_of(nodes, id);
        let marked = touch_parent(nodes, parent_index(nodes, i));
        marked.subrange(0, i) + marked.subrange(subtree_end(nodes, i), nodes.len() as int)
    } else {
        nodes
    }
}

/// The handles that leave with the node `id`, in document order.
pub open spec fn removed_ids(nodes: Seq<NodeModel>, id: u64) -> Seq<u64> {
    if has_id(nodes, id) {
        ids(nodes.subrange(index_of(nodes, id), subtree_end(nodes, index_of(nodes, id))))
    } else {
        Seq::empty()
    }
}

/// The tree after a write to, or the removal of, an attribute.
pub open spec fn attribute_changed(nodes: Seq<NodeModel>, id: u64, name: Seq<char>, value: Option<Seq<char>>) -> Seq<NodeModel> {
    if has_id(nodes, id) {
        let i = index_of(nodes, id);
        nodes.update(
            i,
            NodeModel {
                attributes: with_attribute(nodes[i].attributes, name, value),
                pending: nodes[i].pending.touched_by(name),
                ..nodes[i]
            },
        )
    } else {
        nodes
    }
}

/// The tree after a node's text was replaced.
pub open spec fn text_changed(nodes: Seq<NodeModel>, id: u64, text: Seq<char>) -> Seq<NodeModel> {
    if has_id(nodes, id) {
        let i = index_of(nodes, id);
        nodes.update(i, NodeModel { text, ..touch_layout(nodes[i]) })
    } else {
        nodes
    }
}

/// The tree after one mutation.
pub open spec fn applied(nodes: Seq<NodeModel>, m: MutationModel) -> Seq<NodeModel> {
    match m {
        MutationModel::NodeAdded { id, parent } => added(nodes, id, parent),
        MutationModel::NodeMoved { id, place } => moved(nodes, id, place),
        MutationModel::NodeRemoved { id } => removed(nodes, id),
        MutationModel::AttributeChanged { id, name, value } => attribute_changed(nodes, id, name, value),
        MutationModel::TextChanged { id, text } => text_changed(nodes, id, text),
    }
}

/// The handles that leave the tree with one mutation.
pub open spec fn dropped(nodes: Seq<NodeModel>, m: MutationModel) -> Seq<u64> {
    match m {
        MutationModel::NodeRemoved { id } => removed_ids(nodes, id),
        _ => Seq::empty(),
    }
}

/// The tree after the first `n` mutations of a batch, in order.
pub open spec fn applied_first(nodes: Seq<NodeModel>, batch: Seq<MutationModel>, n: int) -> Seq<NodeModel>
    decreases n,
{
    if n <= 0 {
        nodes
    } else {
        applied(applied_first(nodes, batch, n - 1), batch[n - 1])
    }
}

/// The tree after a whole batch.
pub open spec fn applied_all(nodes: Seq<NodeModel>, batch: Seq<MutationModel>) -> Seq<NodeModel> {
    applied_first(nodes, batch, batch.len() as int)
}

/// The handles that leave the tree with the first `n` mutations of a batch.
pub open spec fn dropped_first(nodes: Seq<NodeModel>, batch: Seq<MutationModel>, n: int) -> Seq<u64>
    decreases n,
{
    if n <= 0 {
        Seq::empty()
    } else {
        dropped_first(nodes, batch, n - 1) + dropped(applied_first(nodes, batch, n - 1), batch[n - 1])
    }
}

/// Letting a layout wait keeps the tree well formed, and changes neither
/// handles nor depths nor derived states.
pub proof fn lemma_touch_parent_wf(nodes: Seq<NodeModel>, p: Option<int>)
    requires
        well_formed(nodes),
        p matches Some(k) ==> 0 <= k < nodes.len(),
    ensures
        well_formed(touch_parent(nodes, p)),
        touch_parent(nodes, p).len() == nodes.len(),
        forall|k: int| 0 <= k < nodes.len() ==> {
            &&& (#[trigger] touch_parent(nodes, p)[k]).id == nodes[k].id
            &&& touch_parent(nodes, p)[k].depth == nodes[k].depth
            &&& touch_parent(nodes, p)[k].state == nodes[k].state
        },
{
    let t = touch_parent(nodes, p);
    assert forall|i: int| 0 < i < t.len() implies #[trigger] depth_step(t, i) by {
        assert(depth_step(nodes, i));
    }
    assert forall|i: int, j: int| 0 <= i < j < t.len() implies (#[trigger] t[i]).id != (#[trigger] t[j]).id by {
        assert(nodes[i].id != nodes[j].id);
    }
    assert forall|i: int, j: int|
        0 <= i < t.len() && 0 <= j < t.len() && (#[trigger] t[i]).state.focused && (#[trigger] t[j]).state.focused implies i
        == j by {
        assert(nodes[i].state.focused && nodes[j].state.focused);
    }
    assert forall|i: int| 0 <= i < t.len() implies {
        &&& (#[trigger] t[i]).state.layout.node matches Some(k) ==> k == t[i].id
        &&& !t[i].pending.layout ==> t[i].state.layout.node is Some
    } by {
        assert(nodes[i].state.layout.node matches Some(k) ==> k == nodes[i].id);
        assert(!nodes[i].pending.layout ==> nodes[i].state.layout.node is Some);
    }
}

/// Depths decide where subtrees end: two trees with the same depths have
/// the same subtrees.
pub proof fn lemma_scan_end_same_depths(a: Seq<NodeModel>, b: Seq<NodeModel>, depth: usize, from: int)
    requires
        a.len() == b.len(),
        forall|k: int| 0 <= k < a.len() ==> (#[trigger] a[k]).depth == b[k].depth,
    ensures
        scan_end(a, depth, from) == scan_end(b, depth, from),
    decreases a.len() - from,
{
    if 0 <= from < a.len() {
        assert(a[from].depth == b[from].depth);
        if a[from].depth > depth {
            lemma_scan_end_same_depths(a, b, depth, from + 1);
        }
    }
}

/// Appending a detached node keeps the tree well formed.
pub proof fn lemma_pushed_wf(nodes: Seq<NodeModel>, id: u64)
    requires
        well_formed(nodes),
        !has_id(nodes, id),
        nodes.len() < usize::MAX,
    ensures
        well_formed(nodes.push(fresh(id, 0))),
{
    let r = nodes.push(fresh(id, 0));
    let n = nodes.len() as int;
    assert forall|k: int| 0 < k < r.len() implies #[trigger] depth_step(r, k) by {
        if k < n {
            assert(depth_step(nodes, k));
        }
    }
    assert forall|i: int, j: int| 0 <= i < j < r.len() implies (#[trigger] r[i]).id != (#[trigger] r[j]).id by {
        if j < n {
            assert(nodes[i].id != nodes[j].id);
        } else {
            assert(nodes[i].id != id);
        }
    }
    assert forall|i: int, j: int|
        0 <= i < r.len() && 0 <= j < r.len() && (#[trigger] r[i]).state.focused && (#[trigger] r[j]).state.focused implies i
        == j by {
        assert(i < n && j < n);
        assert(nodes[i].state.focused && nodes[j].state.focused);
    }
    assert forall|i: int| 0 <= i < r.len() implies {
        &&& (#[trigger] r[i]).state.layout.node matches Some(k) ==> k == r[i].id
        &&& !r[i].pending.layout ==> r[i].state.layout.node is Some
    } by {
        if i < n {
            assert(nodes[i].state.layout.node matches Some(k) ==> k == nodes[i].id);
        }
    }
}

/// Inserting a new last child keeps the tree well formed.
#[verifier::rlimit(40)]
pub proof fn lemma_child_added_wf(nodes: Seq<NodeModel>, id: u64, p: u64)
    requires
        well_formed(nodes),
        !has_id(nodes, id),
        has_id(nodes, p),
        nodes.len() < usize::MAX,
    ensures
        well_formed(added(nodes, id, Some(p))),
{
    let r = added(nodes, id, Some(p));
    let pi = index_of(nodes, p);
    lemma_depth_bound(nodes, pi);
    let e = subtree_end(nodes, pi);
    let d = nodes[pi].depth;
    let t = touch_parent(nodes, Some(pi));
    let f = fresh(id, (d + 1) as usize);
    lemma_subtree_end(nodes, pi);
    lemma_touch_parent_wf(nodes, Some(pi));
    assert(r == t.insert(e, f));
    assert(r.len() == nodes.len() + 1);
    assert forall|k: int| 0 <= k < r.len() implies (#[trigger] r[k]) == (if k < e {
        t[k]
    } else if k == e {
        f
    } else {
        t[k - 1]
    }) by {}
    assert(nodes[e - 1].depth >= d) by {
        if e - 1 > pi {
            assert(nodes[e - 1].depth > d);
        }
    }
    assert forall|k: int| 0 < k < r.len() implies #[trigger] depth_step(r, k) by {
        if k < e {
            assert(depth_step(t, k));
        } else if k == e {
            assert(t[e - 1].depth == nodes[e - 1].depth);
        } else if k == e + 1 {
            assert(t[e].depth == nodes[e].depth);
        } else {
            assert(depth_step(t, k - 1));
        }
    }
    assert(r[0] == t[0]);
    assert forall|i: int, j: int| 0 <= i < j < r.len() implies (#[trigger] r[i]).id != (#[trigger] r[j]).id by {
        let oi = if i < e { i } else { i - 1 };
        let oj = if j < e { j } else { j - 1 };
        if i == e {
            assert(t[oj].id == nodes[oj].id);
            assert(nodes[oj].id != id);
        } else if j == e {
            assert(t[oi].id == nodes[oi].id);
            assert(nodes[oi].id != id);
        } else {
            assert(t[oi].id != t[oj].id);
        }
    }
    assert forall|i: int, j: int|
        0 <= i < r.len() && 0 <= j < r.len() && (#[trigger] r[i]).state.focused && (#[trigger] r[j]).state.focused implies i
        == j by {
        let oi = if i < e { i } else { i - 1 };
        let oj = if j < e { j } else { j - 1 };
        assert(i != e && j != e);
        assert(t[oi].state.focused && t[oj].state.focused);
    }
    assert forall|i: int| 0 <= i < r.len() implies {
        &&& (#[trigger] r[i]).state.layout.node matches Some(k) ==> k == r[i].id
        &&& !r[i].pending.layout ==> r[i].state.layout.node is Some
    } by {
        if i != e {
            let oi = if i < e { i } else { i - 1 };
            assert(t[oi].state.layout.node matches Some(k) ==> k == t[oi].id);
        }
    }
}

/// Adding a node keeps the tree well formed.
pub proof fn lemma_added_wf(nodes: Seq<NodeModel>, id: u64, parent: Option<u64>)
    requires
        well_formed(nodes),
    ensures
        well_formed(added(nodes, id, parent)),
{
    if !has_id(nodes, id) && nodes.len() < usize::MAX {
        match parent {
            None => lemma_pushed_wf(nodes, id),
            Some(p) => {
                if has_id(nodes, p) {
                    lemma_child_added_wf(nodes, id, p);
                }
            },
        }
    }
}

/// What stays after the removal of the subtree at index `i`: the nodes
/// before it and the nodes from its end on, in their order.
pub proof fn lemma_removed_shape(nodes: Seq<NodeModel>, id: u64)
    requires
        well_formed(nodes),
        has_id(nodes, id),
    ensures
        ({
            let i = index_of(nodes, id);
            let e = subtree_end(nodes, i);
            let r = removed(nodes, id);
            let t = touch_parent(nodes, parent_index(nodes, i));
            &&& 0 <= i < e <= nodes.len()
            &&& r.len() == nodes.len() - (e - i)
            &&& t.len() == nodes.len()
            &&& forall|k: int| 0 <= k < i ==> (#[trigger] r[k]) == t[k]
            &&& forall|k: int| i <= k < r.len() ==> (#[trigger] r[k]) == t[k + (e - i)]
            &&& parent_index(nodes, i) matches Some(p) ==> 0 <= p < i
        }),
{
    let i = index_of(nodes, id);
    lemma_subtree_end(nodes, i);
    lemma_scan_parent(nodes, nodes[i].depth, i - 1);
    let p = parent_index(nodes, i);
    lemma_touch_parent_wf(nodes, p);
}

/// Removing a node with its subtree keeps the tree well formed.
#[verifier::rlimit(40)]
pub proof fn lemma_removed_wf(nodes: Seq<NodeModel>, id: u64)
    requires
        well_formed(nodes),
    ensures
        well_formed(removed(nodes, id)),
{
    if has_id(nodes, id) {
        let i = index_of(nodes, id);
        let e = subtree_end(nodes, i);
        let r = removed(nodes, id);
        let p = parent_index(nodes, i);
        let t = touch_parent(nodes, p);
        lemma_removed_shape(nodes, id);
        lemma_subtree_end(nodes, i);
        lemma_touch_parent_wf(nodes, p);
        assert forall|k: int| 0 < k < r.len() implies #[trigger] depth_step(r, k) by {
            if k < i {
                assert(depth_step(t, k));
            } else if k == i {
                assert(r[k] == t[e]);
                assert(r[k - 1] == t[i - 1]);
                assert(t[e].depth == nodes[e].depth);
                assert(depth_step(nodes, i));
                assert(t[i - 1].depth == nodes[i - 1].depth);
            } else {
                assert(r[k] == t[k + (e - i)]);
                assert(r[k - 1] == t[k - 1 + (e - i)]);
                assert(depth_step(t, k + (e - i)));
            }
        }
        if r.len() > 0 {
            if i > 0 {
                assert(r[0] == t[0]);
            } else {
                assert(r[0] == t[e]);
                assert(t[e].depth == nodes[e].depth);
            }
        }
        assert forall|a: int, b: int| 0 <= a < b < r.len() implies (#[trigger] r[a]).id != (#[trigger] r[b]).id by {
            let oa = if a < i { a } else { a + (e - i) };
            let ob = if b < i { b } else { b + (e - i) };
            assert(r[a] == t[oa] && r[b] == t[ob]);
            assert(t[oa].id != t[ob].id);
        }
        assert forall|a: int, b: int|
            0 <= a < r.len() && 0 <= b < r.len() && (#[trigger] r[a]).state.focused && (#[trigger] r[b]).state.focused implies a
            == b by {
            let oa = if a < i { a } else { a + (e - i) };
            let ob = if b < i { b } else { b + (e - i) };
            assert(r[a] == t[oa] && r[b] == t[ob]);
            assert(t[oa].state.focused && t[ob].state.focused);
        }
        assert forall|a: int| 0 <= a < r.len() implies {
            &&& (#[trigger] r[a]).state.layout.node matches Some(k) ==> k == r[a].id
            &&& !r[a].pending.layout ==> r[a].state.layout.node is Some
        } by {
            let oa = if a < i { a } else { a + (e - i) };
            assert(r[a] == t[oa]);
            assert(t[oa].state.layout.node matches Some(k) ==> k == t[oa].id);
        }
    }
}

/// After a removal the tree holds exactly the handles that stood outside
/// the removed subtree.
pub proof fn lemma_removed_has_id(nodes: Seq<NodeModel>, id: u64, other: u64)
    requires
        well_formed(nodes),
        has_id(nodes, id),
    ensures
        has_id(removed(nodes, id), other) <==> (has_id(nodes, other) && !in_subtree(
            nodes,
            index_of(nodes, id),
            index_of(nodes, other),
        )),
{
    let i = index_of(nodes, id);
    let e = subtree_end(nodes, i);
    let r = removed(nodes, id);
    let t = touch_parent(nodes, parent_index(nodes, i));
    lemma_removed_shape(nodes, id);
    lemma_touch_parent_wf(nodes, parent_index(nodes, i));
    if has_id(r, other) {
        let a = index_of(r, other);
        let oa = if a < i { a } else { a + (e - i) };
        assert(r[a] == t[oa]);
        assert(nodes[oa].id == other);
        lemma_index_of(nodes, oa);
    }
    if has_id(nodes, other) && !in_subtree(nodes, i, index_of(nodes, other)) {
        let o = index_of(nodes, other);
        let a = if o < i { o } else { o - (e - i) };
        assert(r[a] == t[o]);
        assert(r[a].id == other);
    }
}

/// Writing an attribute keeps the tree well formed.
pub proof fn lemma_attribute_changed_wf(nodes: Seq<NodeModel>, id: u64, name: Seq<char>, value: Option<Seq<char>>)
    requires
        well_formed(nodes),
    ensures
        well_formed(attribute_changed(nodes, id, name, value)),
{
    let r = attribute_changed(nodes, id, name, value);
    if has_id(nodes, id) {
        let i = index_of(nodes, id);
        assert(in_sync(nodes[i]));
        if name != "dioxus-prevent-default"@ {
            lemma_with_attribute_other(nodes[i].attributes, name, value, "dioxus-prevent-default"@);
        }
        if name != "tabindex"@ {
            lemma_with_attribute_other(nodes[i].attributes, name, value, "tabindex"@);
        }
        assert(in_sync(r[i]));
        assert forall|k: int| 0 <= k < nodes.len() implies in_sync(#[trigger] r[k]) by {
            if k != i {
                assert(in_sync(nodes[k]));
            }
        }
        lemma_same_shape_wf(nodes, r);
    }
}

/// Replacing a text keeps the tree well formed.
pub proof fn lemma_text_changed_wf(nodes: Seq<NodeModel>, id: u64, text: Seq<char>)
    requires
        well_formed(nodes),
    ensures
        well_formed(text_changed(nodes, id, text)),
{
    let r = text_changed(nodes, id, text);
    if has_id(nodes, id) {
        assert forall|k: int| 0 <= k < nodes.len() implies in_sync(#[trigger] r[k]) by {
            assert(in_sync(nodes[k]));
        }
        lemma_same_shape_wf(nodes, r);
    }
}

/// A tree that differs from a well-formed one only in attributes, texts and
/// in fields that were added to the pending ones, and whose nodes are in
/// sync with their attributes, is well formed.
pub proof fn lemma_same_shape_wf(nodes: Seq<NodeModel>, r: Seq<NodeModel>)
    requires
        well_formed(nodes),
        r.len() == nodes.len(),
        forall|k: int| 0 <= k < nodes.len() ==> {
            &&& (#[trigger] r[k]).id == nodes[k].id
            &&& r[k].depth == nodes[k].depth
            &&& r[k].state == nodes[k].state
            &&& nodes[k].pending.layout ==> r[k].pending.layout
            &&& in_sync(r[k])
        },
    ensures
        well_formed(r),
{
    assert forall|i: int| 0 < i < r.len() implies #[trigger] depth_step(r, i) by {
        assert(depth_step(nodes, i));
        assert(r[i - 1].depth == nodes[i - 1].depth);
    }
    if r.len() > 0 {
        assert(r[0].depth == nodes[0].depth);
    }
    assert forall|i: int, j: int| 0 <= i < j < r.len() implies (#[trigger] r[i]).id != (#[trigger] r[j]).id by {
        assert(nodes[i].id != nodes[j].id);
    }
    assert forall|i: int, j: int|
        0 <= i < r.len() && 0 <= j < r.len() && (#[trigger] r[i]).state.focused && (#[trigger] r[j]).state.focused implies i
        == j by {
        assert(nodes[i].state.focused && nodes[j].state.focused);
    }
    assert forall|i: int| 0 <= i < r.len() implies {
        &&& (#[trigger] r[i]).state.layout.node matches Some(k) ==> k == r[i].id
        &&& !r[i].pending.layout ==> r[i].state.layout.node is Some
    } by {
        assert(nodes[i].state.layout.node matches Some(k) ==> k == nodes[i].id);
        assert(!nodes[i].pending.layout ==> nodes[i].state.layout.node is Some);
    }
}

/// Every mutation keeps the tree well formed.
pub proof fn lemma_applied_wf(nodes: Seq<NodeModel>, m: MutationModel)
    requires
        well_formed(nodes),
    ensures
        well_formed(applied(nodes, m)),
{
    match m {
        MutationModel::NodeAdded { id, parent } => lemma_added_wf(nodes, id, parent),
        MutationModel::NodeMoved { id, place } => lemma_moved_wf(nodes, id, place),
        MutationModel::NodeRemoved { id } => lemma_removed_wf(nodes, id),
        MutationModel::AttributeChanged { id, name, value } => lemma_attribute_changed_wf(nodes, id, name, value),
        MutationModel::TextChanged { id, text } => lemma_text_changed_wf(nodes, id, text),
    }
}

/// Every prefix of a batch keeps the tree well formed.
pub proof fn lemma_applied_first_wf(nodes: Seq<NodeModel>, batch: Seq<MutationModel>, n: int)
    requires
        well_formed(nodes),
        0 <= n <= batch.len(),
    ensures
        well_formed(applied_first(nodes, batch, n)),
    decreases n,
{
    if n > 0 {
        lemma_applied_first_wf(nodes, batch, n - 1);
        lemma_applied_wf(applied_first(nodes, batch, n - 1), batch[n - 1]);
    }
}

} // verus!
