use vstd::prelude::*;
use crate::model::{
    depth_chain, depth_step, distinct_ids, has_id, in_subtree, in_sync, index_of, keyed,
    lemma_depth_bound, lemma_index_of, lemma_scan_parent, lemma_subtree_end, parent_index,
    scan_parent, single_focus, subtree_end, synced, well_formed, NodeModel, Place,
};
use crate::mutation::{
    lemma_removed_has_id, lemma_removed_shape, lemma_removed_wf, lemma_touch_parent_wf, removed,
    touch_parent,
};

verus! {

/// The depth of a node of a moved subtree at its new place: as far below
/// `base` as the node was below the subtree's root.
pub open spec fn shifted_depth(run: Seq<NodeModel>, k: int, base: usize) -> int {
    run[k].depth - run[0].depth + base
}

/// A moved subtree with its depths at the new place, whose root has the
/// depth `base`.
pub open spec fn shifted(run: Seq<NodeModel>, base: usize) -> Seq<NodeModel> {
    Seq::new(run.len(), |k: int| NodeModel { depth: shifted_depth(run, k, base) as usize, ..run[k] })
}

/// Whether a node can move to a place: the tree holds the node and the
/// anchor, the anchor is not the node or below it, and a sibling to move
/// next to has a parent.
pub open spec fn can_move(nodes: Seq<NodeModel>, id: u64, place: Place) -> bool {
    &&& has_id(nodes, id)
    &&& has_id(nodes, place.anchor())
    &&& !in_subtree(nodes, index_of(nodes, id), index_of(nodes, place.anchor()))
    &&& (place is LastChildOf || nodes[index_of(nodes, place.anchor())].depth >= 1)
}

/// The index at which a place lies in a tree.
pub open spec fn place_index(rest: Seq<NodeModel>, place: Place) -> int {
    let a = index_of(rest, place.anchor());
    match place {
        Place::LastChildOf(_) => subtree_end(rest, a),
        Place::Before(_) => a,
        Place::After(_) => subtree_end(rest, a),
    }
}

/// The depth of a node that stands at a place.
pub open spec fn place_depth(rest: Seq<NodeModel>, place: Place) -> usize {
    let a = index_of(rest, place.anchor());
    match place {
        Place::LastChildOf(_) => (rest[a].depth + 1) as usize,
        Place::Before(_) => rest[a].depth,
        Place::After(_) => rest[a].depth,
    }
}

/// The tree with a subtree put in at index `at`, its root at depth `base`;
/// the layout of the new parent waits for the reducer.
pub open spec fn with_run(rest: Seq<NodeModel>, run: Seq<NodeModel>, at: int, base: usize) -> Seq<NodeModel> {
    let marked = touch_parent(rest, scan_parent(rest, base, at - 1));
    marked.subrange(0, at) + shifted(run, base) + marked.subrange(at, rest.len() as int)
}

/// The tree after a node moved to a place with everything below it. The
/// layouts of the old and of the new parent wait for the reducer. A move
/// that cannot be made changes nothing.
pub open spec fn moved(nodes: Seq<NodeModel>, id: u64, place: Place) -> Seq<NodeModel> {
    if can_move(nodes, id, place) {
        let i = index_of(nodes, id);
        let rest = removed(nodes, id);
        with_run(
            rest,
            nodes.subrange(i, subtree_end(nodes, i)),
            place_index(rest, place),
            place_depth(rest, place),
        )
    } else {
        nodes
    }
}

/// A run of nodes that is one subtree: every node after the first is
/// deeper than the first, and at most one level deeper than the node
/// before it.
pub open spec fn is_subtree_run(run: Seq<NodeModel>) -> bool {
    &&& run.len() >= 1
    &&& forall|k: int| 0 < k < run.len() ==> #[trigger] run_step(run, k)
}

/// The node at index `k` of a run is deeper than the first node, and at
/// most one level deeper than the node before it.
pub open spec fn run_step(run: Seq<NodeModel>, k: int) -> bool {
    run[0].depth < run[k].depth <= run[k - 1].depth + 1
}

/// No node of a subtree is further below its root than its index.
pub proof fn lemma_run_depth_bound(run: Seq<NodeModel>, k: int)
    requires
        is_subtree_run(run),
        0 <= k < run.len(),
    ensures
        run[0].depth <= run[k].depth <= run[0].depth + k,
    decreases k,
{
    if k > 0 {
        lemma_run_depth_bound(run, k - 1);
        assert(run_step(run, k));
    }
}

/// Whether a subtree can go in at index `at` with its root at depth `base`.
pub open spec fn fits(rest: Seq<NodeModel>, run: Seq<NodeModel>, at: int, base: usize) -> bool {
    &&& is_subtree_run(run)
    &&& rest.len() + run.len() <= usize::MAX
    &&& 1 <= at <= rest.len()
    &&& base <= rest[at - 1].depth + 1
    &&& at < rest.len() ==> rest[at].depth <= base
    &&& distinct_ids(run)
    &&& forall|a: int, b: int|
        0 <= a < rest.len() && 0 <= b < run.len() ==> (#[trigger] rest[a]).id != (#[trigger] run[b]).id
    &&& single_focus(run)
    &&& forall|a: int, b: int|
        0 <= a < rest.len() && 0 <= b < run.len() ==> !((#[trigger] rest[a]).state.focused && (
        #[trigger] run[b]).state.focused)
    &&& keyed(run)
    &&& synced(run)
}

/// The depths of a subtree at its new place fit the machine's integers.
pub proof fn lemma_shift_in_range(rest: Seq<NodeModel>, run: Seq<NodeModel>, at: int, base: usize, k: int)
    requires
        well_formed(rest),
        fits(rest, run, at, base),
        0 <= k < run.len(),
    ensures
        base <= shifted_depth(run, k, base) <= at + k,
        shifted_depth(run, k, base) < usize::MAX,
        shifted(run, base)[k].depth == shifted_depth(run, k, base),
{
    lemma_run_depth_bound(run, k);
    lemma_depth_bound(rest, at - 1);
}

/// What the tree with a subtree put in holds at each index.
pub proof fn lemma_with_run_shape(rest: Seq<NodeModel>, run: Seq<NodeModel>, at: int, base: usize)
    requires
        well_formed(rest),
        fits(rest, run, at, base),
    ensures
        ({
            let r = with_run(rest, run, at, base);
            let t = touch_parent(rest, scan_parent(rest, base, at - 1));
            let m = run.len() as int;
            &&& r.len() == rest.len() + m
            &&& t.len() == rest.len()
            &&& well_formed(t)
            &&& forall|k: int| 0 <= k < at ==> (#[trigger] r[k]) == t[k]
            &&& forall|k: int| at <= k < at + m ==> (#[trigger] r[k]) == shifted(run, base)[k - at]
            &&& forall|k: int| at + m <= k < r.len() ==> (#[trigger] r[k]) == t[k - m]
            &&& forall|k: int|
                0 <= k < rest.len() ==> (#[trigger] t[k]).id == rest[k].id && t[k].depth == rest[k].depth
                    && t[k].state == rest[k].state
        }),
{
    lemma_scan_parent(rest, base, at - 1);
    lemma_touch_parent_wf(rest, scan_parent(rest, base, at - 1));
}

/// Putting a subtree in where it fits keeps the tree well formed.
#[verifier::rlimit(40)]
pub proof fn lemma_with_run_wf(rest: Seq<NodeModel>, run: Seq<NodeModel>, at: int, base: usize)
    requires
        well_formed(rest),
        fits(rest, run, at, base),
    ensures
        well_formed(with_run(rest, run, at, base)),
{
    let r = with_run(rest, run, at, base);
    let t = touch_parent(rest, scan_parent(rest, base, at - 1));
    let m = run.len() as int;
    let s = shifted(run, base);
    lemma_with_run_shape(rest, run, at, base);
    assert forall|k: int| 0 <= k < m implies base <= (#[trigger] s[k]).depth <= at + k && s[k].depth
        == shifted_depth(run, k, base) by {
        lemma_shift_in_range(rest, run, at, base, k);
    }
    assert(depth_chain(r)) by {
        assert(r[0] == t[0]);
        assert forall|k: int| 0 < k < r.len() implies #[trigger] depth_step(r, k) by {
            if k < at {
                assert(depth_step(t, k));
            } else if k == at {
                assert(r[k] == s[0]);
                assert(r[k - 1] == t[at - 1]);
            } else if k < at + m {
                assert(r[k] == s[k - at]);
                assert(r[k - 1] == s[k - at - 1]);
                assert(run_step(run, k - at));
            } else if k == at + m {
                assert(r[k] == t[at]);
                assert(r[k - 1] == s[m - 1]);
            } else {
                assert(r[k] == t[k - m]);
                assert(r[k - 1] == t[k - m - 1]);
                assert(depth_step(t, k - m));
            }
        }
    }
    assert(distinct_ids(r)) by {
        assert forall|i: int, j: int| 0 <= i < j < r.len() implies (#[trigger] r[i]).id != (#[trigger] r[j]).id by {
            if j < at {
                assert(t[i].id != t[j].id);
            } else if j < at + m {
                if i < at {
                    assert(rest[i].id != run[j - at].id);
                } else {
                    assert(run[i - at].id != run[j - at].id);
                }
            } else {
                if i < at {
                    assert(t[i].id != t[j - m].id);
                } else if i < at + m {
                    assert(rest[j - m].id != run[i - at].id);
                } else {
                    assert(t[i - m].id != t[j - m].id);
                }
            }
        }
    }
    assert(single_focus(r)) by {
        assert forall|i: int, j: int|
            0 <= i < r.len() && 0 <= j < r.len() && (#[trigger] r[i]).state.focused && (#[trigger] r[j]).state.focused implies i
            == j by {
            let in_run_i = at <= i < at + m;
            let in_run_j = at <= j < at + m;
            let oi = if i < at { i } else { i - m };
            let oj = if j < at { j } else { j - m };
            if in_run_i && in_run_j {
                assert(run[i - at].state.focused && run[j - at].state.focused);
            } else if in_run_i {
                assert(run[i - at].state.focused && rest[oj].state.focused);
            } else if in_run_j {
                assert(run[j - at].state.focused && rest[oi].state.focused);
            } else {
                assert(t[oi].state.focused && t[oj].state.focused);
            }
        }
    }
    assert(synced(r)) by {
        assert forall|i: int| 0 <= i < r.len() implies in_sync(#[trigger] r[i]) by {
            if at <= i < at + m {
                assert(in_sync(run[i - at]));
            } else {
                let oi = if i < at { i } else { i - m };
                assert(in_sync(rest[oi]));
                assert(r[i] == t[oi]);
            }
        }
    }
    assert(keyed(r)) by {
        assert forall|i: int| 0 <= i < r.len() implies {
            &&& (#[trigger] r[i]).state.layout.node matches Some(k) ==> k == r[i].id
            &&& !r[i].pending.layout ==> r[i].state.layout.node is Some
        } by {
            if at <= i < at + m {
                assert(run[i - at].state.layout.node matches Some(k) ==> k == run[i - at].id);
            } else {
                let oi = if i < at { i } else { i - m };
                assert(t[oi].state.layout.node matches Some(k) ==> k == t[oi].id);
            }
        }
    }
}

/// A subtree that leaves a well-formed tree fits at every place of what
/// stays that its move allows.
#[verifier::rlimit(40)]
pub proof fn lemma_move_fits(nodes: Seq<NodeModel>, id: u64, place: Place)
    requires
        well_formed(nodes),
        can_move(nodes, id, place),
    ensures
        ({
            let i = index_of(nodes, id);
            let rest = removed(nodes, id);
            &&& well_formed(rest)
            &&& has_id(rest, place.anchor())
            &&& fits(rest, nodes.subrange(i, subtree_end(nodes, i)), place_index(rest, place), place_depth(rest, place))
        }),
{
    let i = index_of(nodes, id);
    let e = subtree_end(nodes, i);
    let run = nodes.subrange(i, e);
    let rest = removed(nodes, id);
    let t = touch_parent(nodes, parent_index(nodes, i));
    lemma_removed_wf(nodes, id);
    lemma_removed_shape(nodes, id);
    lemma_removed_has_id(nodes, id, place.anchor());
    lemma_subtree_end(nodes, i);
    lemma_touch_parent_wf(nodes, parent_index(nodes, i));
    let a = index_of(rest, place.anchor());
    let at = place_index(rest, place);
    let base = place_depth(rest, place);
    lemma_subtree_end(rest, a);
    lemma_depth_bound(rest, a);
    assert(is_subtree_run(run)) by {
        assert forall|k: int| 0 < k < run.len() implies #[trigger] run_step(run, k) by {
            assert(nodes[i + k].depth > nodes[i].depth);
            assert(depth_step(nodes, i + k));
        }
    }
    // The anchor keeps its depth.
    let oa = if a < i { a } else { a + (e - i) };
    assert(rest[a] == t[oa]);
    assert(nodes[oa].id == place.anchor());
    lemma_index_of(nodes, oa);
    assert(rest[a].depth == nodes[index_of(nodes, place.anchor())].depth);
    match place {
        Place::LastChildOf(_) => {
            if at - 1 > a {
                assert(rest[at - 1].depth > rest[a].depth);
            }
        },
        Place::Before(_) => {
            assert(a >= 1);
            assert(depth_step(rest, a));
        },
        Place::After(_) => {
            if at - 1 > a {
                assert(rest[at - 1].depth > rest[a].depth);
            }
        },
    }
    assert forall|x: int, y: int| 0 <= x < rest.len() && 0 <= y < run.len() implies (#[trigger] rest[x]).id != (
    #[trigger] run[y]).id && !(rest[x].state.focused && run[y].state.focused) by {
        let ox = if x < i { x } else { x + (e - i) };
        assert(rest[x] == t[ox]);
        assert(t[ox].id == nodes[ox].id && t[ox].state == nodes[ox].state);
        if ox < i + y {
            assert(nodes[ox].id != nodes[i + y].id);
        } else {
            assert(nodes[i + y].id != nodes[ox].id);
        }
        if nodes[ox].state.focused && nodes[i + y].state.focused {
            assert(ox == i + y);
        }
    }
    assert(distinct_ids(run)) by {
        assert forall|x: int, y: int| 0 <= x < y < run.len() implies (#[trigger] run[x]).id != (#[trigger] run[y]).id by {
            assert(nodes[i + x].id != nodes[i + y].id);
        }
    }
    assert(single_focus(run)) by {
        assert forall|x: int, y: int|
            0 <= x < run.len() && 0 <= y < run.len() && (#[trigger] run[x]).state.focused && (
            #[trigger] run[y]).state.focused implies x == y by {
            assert(nodes[i + x].state.focused && nodes[i + y].state.focused);
        }
    }
    assert(synced(run)) by {
        assert forall|x: int| 0 <= x < run.len() implies in_sync(#[trigger] run[x]) by {
            assert(in_sync(nodes[i + x]));
        }
    }
    assert(keyed(run)) by {
        assert forall|x: int| 0 <= x < run.len() implies {
            &&& (#[trigger] run[x]).state.layout.node matches Some(k) ==> k == run[x].id
            &&& !run[x].pending.layout ==> run[x].state.layout.node is Some
        } by {
            assert(nodes[i + x].state.layout.node matches Some(k) ==> k == nodes[i + x].id);
        }
    }
}

/// A move keeps the tree well formed.
pub proof fn lemma_moved_wf(nodes: Seq<NodeModel>, id: u64, place: Place)
    requires
        well_formed(nodes),
    ensures
        well_formed(moved(nodes, id, place)),
{
    if can_move(nodes, id, place) {
        let i = index_of(nodes, id);
        let rest = removed(nodes, id);
        lemma_move_fits(nodes, id, place);
        lemma_with_run_wf(
            rest,
            nodes.subrange(i, subtree_end(nodes, i)),
            place_index(rest, place),
            place_depth(rest, place),
        );
    }
}

/// The tree with a subtree put in holds the handles of both.
pub proof fn lemma_with_run_has_id(rest: Seq<NodeModel>, run: Seq<NodeModel>, at: int, base: usize, h: u64)
    requires
        well_formed(rest),
        fits(rest, run, at, base),
    ensures
        has_id(with_run(rest, run, at, base), h) == (has_id(rest, h) || has_id(run, h)),
{
    let r = with_run(rest, run, at, base);
    let t = touch_parent(rest, scan_parent(rest, base, at - 1));
    let s = shifted(run, base);
    let m = run.len() as int;
    lemma_with_run_shape(rest, run, at, base);
    if has_id(r, h) {
        let k = index_of(r, h);
        if at <= k < at + m {
            assert(r[k] == s[k - at]);
            assert(run[k - at].id == h);
        } else if k < at {
            assert(r[k] == t[k]);
            assert(rest[k].id == h);
        } else {
            assert(r[k] == t[k - m]);
            assert(rest[k - m].id == h);
        }
    }
    if has_id(rest, h) {
        let x = index_of(rest, h);
        if x < at {
            assert(r[x] == t[x]);
            assert(r[x].id == h);
        } else {
            assert(r[x + m] == t[x]);
            assert(r[x + m].id == h);
        }
    }
    if has_id(run, h) {
        let y = index_of(run, h);
        assert(r[at + y] == s[y]);
        assert(r[at + y].id == h);
    }
}

/// A subtree holds the handles of the tree that stand in it.
pub proof fn lemma_subrange_has_id(nodes: Seq<NodeModel>, i: int, e: int, h: u64)
    requires
        distinct_ids(nodes),
        0 <= i <= e <= nodes.len(),
    ensures
        has_id(nodes.subrange(i, e), h) == (has_id(nodes, h) && i <= index_of(nodes, h) < e),
{
    let run = nodes.subrange(i, e);
    if has_id(run, h) {
        let y = index_of(run, h);
        assert(nodes[i + y].id == h);
        lemma_index_of(nodes, i + y);
    }
    if has_id(nodes, h) && i <= index_of(nodes, h) < e {
        let o = index_of(nodes, h);
        assert(run[o - i].id == h);
    }
}

/// A move neither adds nor drops a handle.
pub proof fn lemma_moved_has_id(nodes: Seq<NodeModel>, id: u64, place: Place, h: u64)
    requires
        well_formed(nodes),
    ensures
        has_id(moved(nodes, id, place), h) == has_id(nodes, h),
{
    if can_move(nodes, id, place) {
        let i = index_of(nodes, id);
        let e = subtree_end(nodes, i);
        let rest = removed(nodes, id);
        lemma_move_fits(nodes, id, place);
        lemma_subtree_end(nodes, i);
        lemma_with_run_has_id(rest, nodes.subrange(i, e), place_index(rest, place), place_depth(rest, place), h);
        lemma_removed_has_id(nodes, id, h);
        lemma_subrange_has_id(nodes, i, e, h);
    }
}

} // verus!
