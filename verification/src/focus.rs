use vstd::prelude::*;
use crate::dirty::DirtyNodes;
use crate::model::{
    depth_step, document_len, has_id, in_subtree, index_of, lemma_index_of, lemma_subtree_end,
    subtree_end, well_formed, MutationModel, NodeModel,
};
use crate::moving::lemma_moved_has_id;
use crate::mutation::{
    applied, applied_first, lemma_applied_first_wf, lemma_removed_has_id,
    lemma_scan_end_same_depths,
};
use crate::state::{FocusLevel, NodeState};
use crate::tree::{Mutation, ShadowTree};

verus! {

/// Whether tab navigation can reach the node at index `k`.
pub open spec fn focusable(nodes: Seq<NodeModel>, k: int) -> bool {
    nodes[k].state.focus.level == FocusLevel::Focusable
}

/// The index `steps` places after `from` in a cycle of `n` places, or
/// before it where `forward` is false.
pub open spec fn cycle(n: int, from: int, steps: int, forward: bool) -> int {
    if forward {
        if from + steps < n {
            from + steps
        } else {
            from + steps - n
        }
    } else {
        if from - steps >= 0 {
            from - steps
        } else {
            from - steps + n
        }
    }
}

/// Where the search for the next focus target starts: just after the
/// current target in document order (just before it when going back), and
/// at the first node (the last) where there is no current target or the
/// document does not hold it.
pub open spec fn first_candidate(nodes: Seq<NodeModel>, current: Option<u64>, forward: bool) -> int {
    let n = document_len(nodes);
    match current {
        Some(h) => if has_id(nodes, h) && index_of(nodes, h) < n {
            cycle(n, index_of(nodes, h), 1, forward)
        } else if forward {
            0
        } else {
            n - 1
        },
        None => if forward {
            0
        } else {
            n - 1
        },
    }
}

/// The first node that tab navigation can reach among the candidates from
/// the `tried`-th on, going round the document order once from `start`.
pub open spec fn search(nodes: Seq<NodeModel>, start: int, forward: bool, tried: int) -> Option<int>
    decreases document_len(nodes) - tried,
{
    if tried < 0 || tried >= document_len(nodes) {
        None
    } else if focusable(nodes, cycle(document_len(nodes), start, tried, forward)) {
        Some(cycle(document_len(nodes), start, tried, forward))
    } else {
        search(nodes, start, forward, tried + 1)
    }
}

/// The index of the tab-order successor of the current target, or of its
/// predecessor where `forward` is false: the nearest focusable node in
/// document order, wrapping round at the ends. `None` where the document
/// has no focusable node. Detached nodes are no part of the tab order.
pub open spec fn focus_target(nodes: Seq<NodeModel>, current: Option<u64>, forward: bool) -> Option<int> {
    if document_len(nodes) == 0 {
        None
    } else {
        search(nodes, first_candidate(nodes, current, forward), forward, 0)
    }
}

/// The tree in which the node at index `t` is focused and no other is.
pub open spec fn focused_at(nodes: Seq<NodeModel>, t: int) -> Seq<NodeModel> {
    Seq::new(
        nodes.len(),
        |k: int| NodeModel { state: NodeState { focused: k == t, ..nodes[k].state }, ..nodes[k] },
    )
}

/// The handles, among the first `n` nodes, of the nodes that were focused
/// and of the node at index `t`: those that a move of the focus to `t`
/// may repaint.
pub open spec fn focus_touched(nodes: Seq<NodeModel>, t: int, n: int) -> Seq<u64>
    decreases n,
{
    if n <= 0 {
        Seq::empty()
    } else if nodes[n - 1].state.focused || n - 1 == t {
        focus_touched(nodes, t, n - 1).push(nodes[n - 1].id)
    } else {
        focus_touched(nodes, t, n - 1)
    }
}

/// Whether a mutation removes the current focus target: it removes the
/// target itself or one of its ancestors.
pub open spec fn removes_focus(nodes: Seq<NodeModel>, current: Option<u64>, m: MutationModel) -> bool {
    &&& m matches MutationModel::NodeRemoved { id }
    &&& current matches Some(h)
    &&& has_id(nodes, id)
    &&& has_id(nodes, h)
    &&& in_subtree(nodes, index_of(nodes, id), index_of(nodes, h))
}

/// The focus target after a mutation was announced.
pub open spec fn pruned(nodes: Seq<NodeModel>, current: Option<u64>, m: MutationModel) -> Option<u64> {
    if removes_focus(nodes, current, m) {
        None
    } else {
        current
    }
}

/// The focus target after the first `n` mutations of a batch, each
/// announced before it was applied.
pub open spec fn pruned_first(nodes: Seq<NodeModel>, current: Option<u64>, batch: Seq<MutationModel>, n: int) -> Option<u64>
    decreases n,
{
    if n <= 0 {
        current
    } else {
        pruned(applied_first(nodes, batch, n - 1), pruned_first(nodes, current, batch, n - 1), batch[n - 1])
    }
}

/// Whether one of the first `n` mutations of a batch removed the focus target.
pub open spec fn lost_first(nodes: Seq<NodeModel>, current: Option<u64>, batch: Seq<MutationModel>, n: int) -> bool
    decreases n,
{
    if n <= 0 {
        false
    } else {
        lost_first(nodes, current, batch, n - 1) || removes_focus(
            applied_first(nodes, batch, n - 1),
            pruned_first(nodes, current, batch, n - 1),
            batch[n - 1],
        )
    }
}

/// After a batch, each mutation announced before it was applied, the focus
/// target is a node of the tree: no stale handle stays behind.
pub proof fn lemma_pruned_first_in_tree(nodes: Seq<NodeModel>, current: Option<u64>, batch: Seq<MutationModel>, n: int)
    requires
        well_formed(nodes),
        current matches Some(h) ==> has_id(nodes, h),
        0 <= n <= batch.len(),
    ensures
        pruned_first(nodes, current, batch, n) matches Some(h) ==> has_id(applied_first(nodes, batch, n), h),
    decreases n,
{
    if n > 0 {
        lemma_pruned_first_in_tree(nodes, current, batch, n - 1);
        lemma_applied_first_wf(nodes, batch, n - 1);
        lemma_prune_safety(
            applied_first(nodes, batch, n - 1),
            pruned_first(nodes, current, batch, n - 1),
            batch[n - 1],
        );
    }
}

/// What a search returns: the first focusable candidate, or nothing where
/// no candidate is focusable.
pub proof fn lemma_search(nodes: Seq<NodeModel>, start: int, forward: bool, tried: int)
    requires
        0 <= tried <= document_len(nodes),
    ensures
        match search(nodes, start, forward, tried) {
            Some(t) => exists|j: int|
                tried <= j < document_len(nodes) && t == cycle(document_len(nodes), start, j, forward)
                    && focusable(nodes, t) && forall|i: int|
                    tried <= i < j ==> !focusable(nodes, #[trigger] cycle(document_len(nodes), start, i, forward)),
            None => forall|i: int|
                tried <= i < document_len(nodes) ==> !focusable(
                    nodes,
                    #[trigger] cycle(document_len(nodes), start, i, forward),
                ),
        },
    decreases document_len(nodes) - tried,
{
    let n = document_len(nodes);
    if tried < n {
        if focusable(nodes, cycle(n, start, tried, forward)) {
            assert(tried <= tried < n && focusable(nodes, cycle(n, start, tried, forward)));
        } else {
            lemma_search(nodes, start, forward, tried + 1);
            match search(nodes, start, forward, tried + 1) {
                Some(t) => {
                    let j = choose|j: int|
                        tried + 1 <= j < n && t == cycle(n, start, j, forward) && focusable(nodes, t) && forall|i: int|
                            tried + 1 <= i < j ==> !focusable(nodes, #[trigger] cycle(n, start, i, forward));
                    assert forall|i: int| tried <= i < j implies !focusable(
                        nodes,
                        #[trigger] cycle(n, start, i, forward),
                    ) by {}
                },
                None => {},
            }
        }
    }
}

/// A focusable candidate before which no candidate is focusable is what
/// the search returns.
pub proof fn lemma_search_finds(nodes: Seq<NodeModel>, start: int, forward: bool, tried: int, at: int)
    requires
        0 <= tried <= at < document_len(nodes),
        focusable(nodes, cycle(document_len(nodes), start, at, forward)),
        forall|i: int|
            tried <= i < at ==> !focusable(nodes, #[trigger] cycle(document_len(nodes), start, i, forward)),
    ensures
        search(nodes, start, forward, tried) == Some(cycle(document_len(nodes), start, at, forward)),
    decreases at - tried,
{
    if tried < at {
        assert(!focusable(nodes, cycle(document_len(nodes), start, tried, forward)));
        lemma_search_finds(nodes, start, forward, tried + 1, at);
    }
}

/// The document is a part of the tree.
pub proof fn lemma_document_len(nodes: Seq<NodeModel>)
    ensures
        0 <= document_len(nodes) <= nodes.len(),
        nodes.len() > 0 ==> document_len(nodes) >= 1,
{
    if nodes.len() > 0 {
        lemma_subtree_end(nodes, 0);
    }
}

/// Moving the focus changes nothing but the `focused` flags, and keeps the
/// tree well formed.
pub proof fn lemma_focused_at(nodes: Seq<NodeModel>, t: int)
    requires
        well_formed(nodes),
        0 <= t < nodes.len(),
    ensures
        well_formed(focused_at(nodes, t)),
        forall|h: u64| has_id(focused_at(nodes, t), h) == has_id(nodes, h),
        forall|h: u64| has_id(nodes, h) ==> index_of(focused_at(nodes, t), h) == index_of(nodes, h),
        forall|k: int| 0 <= k < nodes.len() ==> focusable(focused_at(nodes, t), k) == focusable(nodes, k),
        document_len(focused_at(nodes, t)) == document_len(nodes),
{
    let r = focused_at(nodes, t);
    lemma_scan_end_same_depths(r, nodes, nodes[0].depth, 1);
    assert forall|i: int, j: int| 0 <= i < j < r.len() implies (#[trigger] r[i]).id != (#[trigger] r[j]).id by {
        assert(nodes[i].id != nodes[j].id);
    }
    assert forall|i: int| 0 < i < r.len() implies #[trigger] depth_step(r, i) by {
        assert(depth_step(nodes, i));
    }
    assert forall|i: int| 0 <= i < r.len() implies {
        &&& (#[trigger] r[i]).state.layout.node matches Some(k) ==> k == r[i].id
        &&& !r[i].pending.layout ==> r[i].state.layout.node is Some
    } by {
        assert(nodes[i].state.layout.node matches Some(k) ==> k == nodes[i].id);
    }
    assert forall|h: u64| has_id(r, h) == has_id(nodes, h) by {
        if has_id(r, h) {
            let i = index_of(r, h);
            assert(nodes[i].id == h);
        }
        if has_id(nodes, h) {
            let i = index_of(nodes, h);
            assert(r[i].id == h);
        }
    }
    assert forall|h: u64| has_id(nodes, h) implies index_of(r, h) == index_of(nodes, h) by {
        let i = index_of(nodes, h);
        assert(r[i].id == h);
        lemma_index_of(r, i);
    }
}

/// A move of the focus reports every node whose state it changes.
pub proof fn lemma_focus_touched_sound(nodes: Seq<NodeModel>, t: int, n: int, k: int)
    requires
        0 <= k < n <= nodes.len(),
        focused_at(nodes, t)[k].state != nodes[k].state,
    ensures
        focus_touched(nodes, t, n).contains(nodes[k].id),
    decreases n - k,
{
    let rest = focus_touched(nodes, t, n - 1);
    if k < n - 1 {
        lemma_focus_touched_sound(nodes, t, n - 1, k);
        let j = choose|j: int| 0 <= j < rest.len() && rest[j] == nodes[k].id;
        if nodes[n - 1].state.focused || n - 1 == t {
            assert(rest.push(nodes[n - 1].id)[j] == nodes[k].id);
        }
    } else {
        assert(nodes[k].state.focused || k == t);
        assert(rest.push(nodes[k].id)[rest.len() as int] == nodes[k].id);
    }
}

/// A move of the focus reports its target.
pub proof fn lemma_focus_touched_target(nodes: Seq<NodeModel>, t: int, n: int)
    requires
        0 <= t < n <= nodes.len(),
    ensures
        focus_touched(nodes, t, n).contains(nodes[t].id),
    decreases n - t,
{
    let rest = focus_touched(nodes, t, n - 1);
    if t < n - 1 {
        lemma_focus_touched_target(nodes, t, n - 1);
        let j = choose|j: int| 0 <= j < rest.len() && rest[j] == nodes[t].id;
        if nodes[n - 1].state.focused || n - 1 == t {
            assert(rest.push(nodes[n - 1].id)[j] == nodes[t].id);
        }
    } else {
        assert(rest.push(nodes[t].id)[rest.len() as int] == nodes[t].id);
    }
}

/// At most one node of a well-formed tree is focused.
pub proof fn lemma_at_most_one_focused(nodes: Seq<NodeModel>, i: int, j: int)
    requires
        well_formed(nodes),
        0 <= i < nodes.len(),
        0 <= j < nodes.len(),
        nodes[i].state.focused,
        nodes[j].state.focused,
    ensures
        i == j,
{
}

/// Going forward and then back returns the focus to where it was: from a
/// focusable node that the tree holds, the successor exists, and the
/// predecessor of the successor is that node.
pub proof fn lemma_tab_round_trip(nodes: Seq<NodeModel>, h: u64)
    requires
        well_formed(nodes),
        has_id(nodes, h),
        index_of(nodes, h) < document_len(nodes),
        focusable(nodes, index_of(nodes, h)),
    ensures
        focus_target(nodes, Some(h), true) is Some,
        ({
            let t = focus_target(nodes, Some(h), true)->0;
            &&& 0 <= t < document_len(nodes)
            &&& focus_target(focused_at(nodes, t), Some(nodes[t].id), false) == Some(index_of(nodes, h))
        }),
{
    let n = document_len(nodes);
    lemma_document_len(nodes);
    let p = index_of(nodes, h);
    let start = cycle(n, p, 1, true);
    assert(first_candidate(nodes, Some(h), true) == start);
    lemma_search(nodes, start, true, 0);
    assert(cycle(n, start, n - 1, true) == p);
    assert(search(nodes, start, true, 0) is Some) by {
        if search(nodes, start, true, 0) is None {
            assert(!focusable(nodes, cycle(n, start, n - 1, true)));
        }
    }
    let t = search(nodes, start, true, 0)->0;
    let jf = choose|j: int|
        0 <= j < n && t == cycle(n, start, j, true) && focusable(nodes, t) && forall|i: int|
            0 <= i < j ==> !focusable(nodes, #[trigger] cycle(n, start, i, true));
    let after = focused_at(nodes, t);
    lemma_focused_at(nodes, t);
    lemma_index_of(nodes, t);
    assert(has_id(after, nodes[t].id));
    assert(index_of(after, nodes[t].id) == t);
    let back = cycle(n, t, 1, false);
    assert(first_candidate(after, Some(nodes[t].id), false) == back);
    assert(cycle(n, back, jf, false) == p);
    assert forall|i: int| 0 <= i < jf implies !focusable(after, #[trigger] cycle(n, back, i, false)) by {
        let k = jf - 1 - i;
        assert(cycle(n, back, i, false) == cycle(n, start, k, true));
        assert(!focusable(nodes, cycle(n, start, k, true)));
    }
    assert(focusable(after, p));
    lemma_search_finds(after, back, false, 0, jf);
}

/// A mutation that removes the focus target, or one of its ancestors,
/// leaves no focus target behind, and the tree no longer holds the handle:
/// no stale handle stays in the focus state.
pub proof fn lemma_prune_safety(nodes: Seq<NodeModel>, current: Option<u64>, m: MutationModel)
    requires
        well_formed(nodes),
        current matches Some(h) ==> has_id(nodes, h),
    ensures
        removes_focus(nodes, current, m) ==> pruned(nodes, current, m) is None && !has_id(
            applied(nodes, m),
            current->0,
        ),
        pruned(nodes, current, m) matches Some(h) ==> has_id(applied(nodes, m), h),
{
    match current {
        None => {},
        Some(h) => {
            let i = index_of(nodes, h);
            match m {
                MutationModel::NodeRemoved { id } => {
                    if has_id(nodes, id) {
                        lemma_removed_has_id(nodes, id, h);
                    }
                },
                MutationModel::NodeAdded { id, parent } => {
                    let r = applied(nodes, m);
                    if r != nodes {
                        match parent {
                            None => {
                                assert(r[i].id == h);
                            },
                            Some(p) => {
                                let pi = index_of(nodes, p);
                                let e = subtree_end(nodes, pi);
                                lemma_subtree_end(nodes, pi);
                                let k = if i < e { i } else { i + 1 };
                                assert(r[k].id == h);
                            },
                        }
                    }
                },
                MutationModel::NodeMoved { id, place } => {
                    lemma_moved_has_id(nodes, id, place, h);
                },
                MutationModel::AttributeChanged { id, name, value } => {
                    let r = applied(nodes, m);
                    assert(r[i].id == h);
                },
                MutationModel::TextChanged { id, text } => {
                    let r = applied(nodes, m);
                    assert(r[i].id == h);
                },
            }
        },
    }
}

/// The focus of one window: the current target, and whether the focus
/// changed since the last paint.
#[derive(Debug, Clone, Copy, PartialEq, Eq, Structural)]
pub struct FocusState {
    /// The handle of the focused node; `None` is the unfocused state.
    pub last_focused_id: Option<u64>,
    /// Whether the focus changed since `clean` was last called.
    pub dirty: bool,
}

impl Default for FocusState {
    fn default() -> (r: Self)
        ensures
            r.last_focused_id.is_none(),
            !r.dirty,
    {
        FocusState { last_focused_id: None, dirty: false }
    }
}

impl FocusState {
    /// The index that the search for the next target starts at.
    fn start_of(&self, tree: &ShadowTree, forward: bool) -> (r: usize)
        requires
            tree.wf(),
            tree@.len() > 0,
        ensures
            r == first_candidate(tree@, self.last_focused_id, forward),
            r < document_len(tree@),
    {
        let n = tree.document_len();
        proof {
            lemma_document_len(tree@);
        }
        let at: Option<usize> = match self.last_focused_id {
            Some(h) => tree.find(h),
            None => None,
        };
        let at: Option<usize> = match at {
            Some(p) => if p < n {
                Some(p)
            } else {
                None
            },
            None => None,
        };
        match at {
            Some(p) => {
                if forward {
                    if p + 1 < n {
                        p + 1
                    } else {
                        0
                    }
                } else {
                    if p >= 1 {
                        p - 1
                    } else {
                        n - 1
                    }
                }
            },
            None => {
                if forward {
                    0
                } else {
                    n - 1
                }
            },
        }
    }

    /// The index of the node that the focus moves to.
    pub fn target(&self, tree: &ShadowTree, forward: bool) -> (r: Option<usize>)
        requires
            tree.wf(),
        ensures
            r is Some == focus_target(tree@, self.last_focused_id, forward) is Some,
            r matches Some(t) ==> focus_target(tree@, self.last_focused_id, forward) == Some(t as int) && t
                < document_len(tree@) <= tree@.len(),
    {
        let n = tree.document_len();
        if n == 0 {
            return None;
        }
        let start = self.start_of(tree, forward);
        let mut at: usize = start;
        let mut tried: usize = 0;
        while tried < n
            invariant
                tried <= n,
                n == document_len(tree@),
                n <= tree@.len(),
                start < n,
                start == first_candidate(tree@, self.last_focused_id, forward),
                at < n,
                tried < n ==> at == cycle(n as int, start as int, tried as int, forward),
                search(tree@, start as int, forward, 0) == search(tree@, start as int, forward, tried as int),
            decreases n - tried,
        {
            if tree.node(at).state.focus.level == FocusLevel::Focusable {
                return Some(at);
            }
            if forward {
                at = if at + 1 < n { at + 1 } else { 0 };
            } else {
                at = if at >= 1 { at - 1 } else { n - 1 };
            }
            tried = tried + 1;
        }
        None
    }

    /// Moves the focus to the tab-order successor of the current target,
    /// or to its predecessor where `forward` is false, and says whether
    /// there was a node to move to. The target becomes the one focused
    /// node; it and the nodes that lose the focus are marked as stale.
    /// Where the tree has no focusable node nothing changes.
    pub fn progress(&mut self, tree: &mut ShadowTree, dirty: &mut DirtyNodes, forward: bool) -> (moved: bool)
        requires
            old(tree).wf(),
        ensures
            final(tree).wf(),
            moved == focus_target(old(tree)@, old(self).last_focused_id, forward) is Some,
            match focus_target(old(tree)@, old(self).last_focused_id, forward) {
                Some(t) => {
                    &&& 0 <= t < document_len(old(tree)@) <= old(tree)@.len()
                    &&& final(tree)@ == focused_at(old(tree)@, t)
                    &&& final(self).last_focused_id == Some(old(tree)@[t].id)
                    &&& final(self).dirty == (old(self).dirty || old(self).last_focused_id != Some(
                        old(tree)@[t].id,
                    ))
                    &&& final(dirty)@ == old(dirty)@.mark_each(
                        focus_touched(old(tree)@, t, old(tree)@.len() as int).to_set(),
                    )
                    &&& final(dirty)@.covers(old(tree)@[t].id)
                    &&& forall|k: int|
                        0 <= k < old(tree)@.len() && (#[trigger] final(tree)@[k]).state != old(tree)@[k].state
                            ==> final(dirty)@.covers(old(tree)@[k].id)
                },
                None => {
                    &&& final(tree)@ == old(tree)@
                    &&& *final(self) == *old(self)
                    &&& final(dirty)@ == old(dirty)@
                },
            },
    {
        match self.target(tree, forward) {
            None => false,
            Some(t) => {
                let id = tree.node(t).id;
                let same = match self.last_focused_id {
                    Some(h) => h == id,
                    None => false,
                };
                let ghost before = tree@;
                let touched = tree.focus_only(t);
                dirty.extend(&touched);
                proof {
                    assert forall|k: int| 0 <= k < before.len() && (#[trigger] tree@[k]).state != before[k].state implies dirty@.covers(
                        before[k].id,
                    ) by {
                        lemma_focus_touched_sound(before, t as int, before.len() as int, k);
                    }
                    lemma_focus_touched_target(before, t as int, before.len() as int);
                }
                if !same {
                    self.dirty = true;
                }
                self.last_focused_id = Some(id);
                true
            },
        }
    }

    /// Announces a mutation before it is applied to the tree: where it
    /// removes the focus target or one of its ancestors, the state becomes
    /// unfocused and the focus counts as changed. A handle that the tree
    /// does not hold is passed over.
    pub fn prune(&mut self, mutation: &Mutation, tree: &ShadowTree)
        requires
            tree.wf(),
        ensures
            final(self).last_focused_id == pruned(tree@, old(self).last_focused_id, mutation@),
            final(self).dirty == (old(self).dirty || removes_focus(tree@, old(self).last_focused_id, mutation@)),
    {
        match mutation {
            Mutation::NodeRemoved { id } => {
                match self.last_focused_id {
                    Some(h) => {
                        match tree.find(*id) {
                            Some(i) => {
                                match tree.find(h) {
                                    Some(at) => {
                                        let end = tree.subtree_end(i);
                                        if i <= at && at < end {
                                            self.last_focused_id = None;
                                            self.dirty = true;
                                        }
                                    },
                                    None => {},
                                }
                            },
                            None => {},
                        }
                    },
                    None => {},
                }
            },
            _ => {},
        }
    }

    /// Says whether the focus changed since the last call, and resets that.
    pub fn clean(&mut self) -> (changed: bool)
        ensures
            changed == old(self).dirty,
            !final(self).dirty,
            final(self).last_focused_id == old(self).last_focused_id,
    {
        let changed = self.dirty;
        self.dirty = false;
        changed
    }
}

} // verus!
