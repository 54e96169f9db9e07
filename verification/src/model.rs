use vstd::prelude::*;
use crate::state::{focus_level_of, suppression_of, NodeState};

verus! {

/// Which derived fields of a node wait for the reducer.
#[derive(PartialEq, Eq, Structural, Debug, Clone, Copy)]
pub struct Pending {
    /// The suppression attribute was written.
    pub suppression: bool,
    /// The tab index attribute was written.
    pub focus: bool,
    /// The children, the text or another attribute changed.
    pub layout: bool,
}

impl Pending {
    /// Every field waits.
    pub open spec fn all() -> Pending {
        Pending { suppression: true, focus: true, layout: true }
    }

    /// No field waits.
    pub open spec fn none() -> Pending {
        Pending { suppression: false, focus: false, layout: false }
    }

    /// Whether a field waits.
    pub open spec fn any(self) -> bool {
        self.suppression || self.focus || self.layout
    }

    /// The fields that a write to the attribute `name` adds to the pending
    /// ones: each field watches a fixed set of names, and the layout
    /// watches every name that no other field does.
    pub open spec fn touched_by(self, name: Seq<char>) -> Pending {
        Pending {
            suppression: self.suppression || name == "dioxus-prevent-default"@,
            focus: self.focus || name == "tabindex"@,
            layout: self.layout || (name != "dioxus-prevent-default"@ && name != "tabindex"@),
        }
    }
}

/// One attribute of a node, as a mathematical value.
pub ghost struct AttributeModel {
    pub name: Seq<char>,
    pub value: Seq<char>,
}

/// One node of the shadow tree, as a mathematical value.
pub ghost struct NodeModel {
    pub id: u64,
    pub depth: usize,
    pub attributes: Seq<AttributeModel>,
    pub text: Seq<char>,
    pub state: NodeState,
    pub pending: Pending,
}

/// Where a node goes: below a parent after its other children, or next to
/// a sibling.
#[derive(PartialEq, Eq, Structural, Debug, Clone, Copy)]
pub enum Place {
    LastChildOf(u64),
    Before(u64),
    After(u64),
}

impl Place {
    /// The handle that the place is stated by.
    pub open spec fn anchor(self) -> u64 {
        match self {
            Place::LastChildOf(h) => h,
            Place::Before(h) => h,
            Place::After(h) => h,
        }
    }
}

/// One operation of a mutation batch, as a mathematical value.
pub ghost enum MutationModel {
    NodeAdded { id: u64, parent: Option<u64> },
    NodeMoved { id: u64, place: Place },
    NodeRemoved { id: u64 },
    AttributeChanged { id: u64, name: Seq<char>, value: Option<Seq<char>> },
    TextChanged { id: u64, text: Seq<char> },
}

/// The index of the first attribute called `name` at or after `from`.
pub open spec fn attribute_index_from(attrs: Seq<AttributeModel>, name: Seq<char>, from: int) -> Option<int>
    decreases attrs.len() - from,
{
    if from < 0 || from >= attrs.len() {
        None
    } else if attrs[from].name == name {
        Some(from)
    } else {
        attribute_index_from(attrs, name, from + 1)
    }
}

/// The value of the first attribute called `name`.
pub open spec fn attribute_value(attrs: Seq<AttributeModel>, name: Seq<char>) -> Option<Seq<char>> {
    match attribute_index_from(attrs, name, 0) {
        Some(k) => Some(attrs[k].value),
        None => None,
    }
}

/// The attributes after a write: the first attribute of that name gets the
/// new value, or leaves where there is none; a new name is appended.
pub open spec fn with_attribute(attrs: Seq<AttributeModel>, name: Seq<char>, value: Option<Seq<char>>) -> Seq<AttributeModel> {
    match attribute_index_from(attrs, name, 0) {
        Some(k) => match value {
            Some(v) => attrs.update(k, AttributeModel { name, value: v }),
            None => attrs.remove(k),
        },
        None => match value {
            Some(v) => attrs.push(AttributeModel { name, value: v }),
            None => attrs,
        },
    }
}

/// What the index of the first attribute called `name` is: the attribute
/// there has the name, and no attribute before it has.
pub proof fn lemma_attribute_index_from(attrs: Seq<AttributeModel>, name: Seq<char>, from: int)
    requires
        0 <= from <= attrs.len(),
    ensures
        match attribute_index_from(attrs, name, from) {
            Some(k) => from <= k < attrs.len() && attrs[k].name == name && forall|j: int|
                from <= j < k ==> (#[trigger] attrs[j]).name != name,
            None => forall|j: int| from <= j < attrs.len() ==> (#[trigger] attrs[j]).name != name,
        },
    decreases attrs.len() - from,
{
    if from < attrs.len() && attrs[from].name != name {
        lemma_attribute_index_from(attrs, name, from + 1);
    }
}

/// An index that has the two properties of the first attribute called
/// `name` is the index of that attribute; where no attribute has the
/// name there is none.
pub proof fn lemma_attribute_index_is(attrs: Seq<AttributeModel>, name: Seq<char>, from: int, at: Option<int>)
    requires
        0 <= from <= attrs.len(),
        match at {
            Some(k) => from <= k < attrs.len() && attrs[k].name == name && forall|j: int|
                from <= j < k ==> (#[trigger] attrs[j]).name != name,
            None => forall|j: int| from <= j < attrs.len() ==> (#[trigger] attrs[j]).name != name,
        },
    ensures
        attribute_index_from(attrs, name, from) == at,
    decreases attrs.len() - from,
{
    if from < attrs.len() {
        if attrs[from].name == name {
            if at is None {
                assert(attrs[from].name != name);
            } else if at->0 > from {
                assert(attrs[from].name != name);
            }
        } else {
            lemma_attribute_index_is(attrs, name, from + 1, at);
        }
    }
}

/// A write to one attribute leaves the values of the attributes of every
/// other name as they were.
pub proof fn lemma_with_attribute_other(
    attrs: Seq<AttributeModel>,
    name: Seq<char>,
    value: Option<Seq<char>>,
    other: Seq<char>,
)
    requires
        other != name,
    ensures
        attribute_value(with_attribute(attrs, name, value), other) == attribute_value(attrs, other),
{
    let r = with_attribute(attrs, name, value);
    lemma_attribute_index_from(attrs, name, 0);
    lemma_attribute_index_from(attrs, other, 0);
    let found = attribute_index_from(attrs, other, 0);
    match attribute_index_from(attrs, name, 0) {
        Some(k) => match value {
            Some(v) => {
                assert forall|j: int| 0 <= j < r.len() implies ((#[trigger] r[j]).name == other) == (attrs[j].name
                    == other) by {}
                match found {
                    Some(j) => {
                        assert forall|i: int| 0 <= i < j implies (#[trigger] r[i]).name != other by {
                            assert(attrs[i].name != other);
                        }
                    },
                    None => {
                        assert forall|i: int| 0 <= i < r.len() implies (#[trigger] r[i]).name != other by {
                            assert(attrs[i].name != other);
                        }
                    },
                }
                lemma_attribute_index_is(r, other, 0, found);
            },
            None => {
                assert forall|j: int| 0 <= j < r.len() implies (#[trigger] r[j]) == (if j < k {
                    attrs[j]
                } else {
                    attrs[j + 1]
                }) by {}
                match found {
                    Some(j) => {
                        let moved = if j < k { j } else { j - 1 };
                        assert(r[moved] == attrs[j]);
                        assert forall|i: int| 0 <= i < moved implies (#[trigger] r[i]).name != other by {
                            if i < k {
                                assert(attrs[i].name != other);
                            } else {
                                assert(attrs[i + 1].name != other);
                            }
                        }
                        lemma_attribute_index_is(r, other, 0, Some(moved));
                    },
                    None => {
                        assert forall|i: int| 0 <= i < r.len() implies (#[trigger] r[i]).name != other by {
                            if i < k {
                                assert(attrs[i].name != other);
                            } else {
                                assert(attrs[i + 1].name != other);
                            }
                        }
                        lemma_attribute_index_is(r, other, 0, None);
                    },
                }
            },
        },
        None => match value {
            Some(v) => {
                match found {
                    Some(j) => {
                        assert(r[j] == attrs[j]);
                        assert forall|i: int| 0 <= i < j implies (#[trigger] r[i]).name != other by {
                            assert(attrs[i].name != other);
                        }
                    },
                    None => {
                        assert forall|i: int| 0 <= i < r.len() implies (#[trigger] r[i]).name != other by {
                            if i < attrs.len() {
                                assert(attrs[i].name != other);
                            }
                        }
                    },
                }
                lemma_attribute_index_is(r, other, 0, found);
            },
            None => {},
        },
    }
}

/// Whether the attribute-driven fields of a node that do not wait for the
/// reducer agree with the node's attributes: the suppression is the
/// category that the suppression attribute names, and the focus level
/// what the tab index gives.
pub open spec fn in_sync(n: NodeModel) -> bool {
    &&& !n.pending.suppression ==> n.state.prevent_default == suppression_of(
        attribute_value(n.attributes, "dioxus-prevent-default"@),
    )
    &&& !n.pending.focus ==> n.state.focus.level == focus_level_of(attribute_value(n.attributes, "tabindex"@))
}

/// Every node is in sync with its attributes.
pub open spec fn synced(nodes: Seq<NodeModel>) -> bool {
    forall|i: int| 0 <= i < nodes.len() ==> in_sync(#[trigger] nodes[i])
}

/// The tree's nodes in document order (depth first, parents before
/// children), each with its depth: the root has depth 0 and comes first,
/// and a node is at most one level deeper than the node before it. A later
/// node of depth 0 starts a detached subtree: one that was created and
/// has no place in the document yet.
pub open spec fn depth_chain(nodes: Seq<NodeModel>) -> bool {
    &&& nodes.len() > 0 ==> nodes[0].depth == 0
    &&& forall|i: int| 0 < i < nodes.len() ==> #[trigger] depth_step(nodes, i)
}

/// The node at index `i` is at most one level deeper than the node before it.
pub open spec fn depth_step(nodes: Seq<NodeModel>, i: int) -> bool {
    nodes[i].depth <= nodes[i - 1].depth + 1
}

/// No handle occurs twice.
pub open spec fn distinct_ids(nodes: Seq<NodeModel>) -> bool {
    forall|i: int, j: int| 0 <= i < j < nodes.len() ==> (#[trigger] nodes[i]).id != (#[trigger] nodes[j]).id
}

/// At most one node is focused.
pub open spec fn single_focus(nodes: Seq<NodeModel>) -> bool {
    forall|i: int, j: int|
        0 <= i < nodes.len() && 0 <= j < nodes.len() && (#[trigger] nodes[i]).state.focused && (
        #[trigger] nodes[j]).state.focused ==> i == j
}

/// A node's measurement node is keyed by the node's own handle, and every
/// node has one unless its layout still waits for the reducer.
pub open spec fn keyed(nodes: Seq<NodeModel>) -> bool {
    forall|i: int| 0 <= i < nodes.len() ==> {
        &&& (#[trigger] nodes[i]).state.layout.node matches Some(k) ==> k == nodes[i].id
        &&& !nodes[i].pending.layout ==> nodes[i].state.layout.node is Some
    }
}

/// The invariant of the shadow tree.
pub open spec fn well_formed(nodes: Seq<NodeModel>) -> bool {
    &&& nodes.len() <= usize::MAX
    &&& depth_chain(nodes)
    &&& distinct_ids(nodes)
    &&& single_focus(nodes)
    &&& keyed(nodes)
    &&& synced(nodes)
}

/// Whether the tree holds a node with this handle.
pub open spec fn has_id(nodes: Seq<NodeModel>, id: u64) -> bool {
    exists|i: int| 0 <= i < nodes.len() && (#[trigger] nodes[i]).id == id
}

/// The place in document order of the node with this handle.
pub open spec fn index_of(nodes: Seq<NodeModel>, id: u64) -> int {
    choose|i: int| 0 <= i < nodes.len() && (#[trigger] nodes[i]).id == id
}

/// The handles in document order.
pub open spec fn ids(nodes: Seq<NodeModel>) -> Seq<u64> {
    nodes.map_values(|n: NodeModel| n.id)
}

/// The first index at or after `from` whose node is not deeper than `depth`.
pub open spec fn scan_end(nodes: Seq<NodeModel>, depth: usize, from: int) -> int
    decreases nodes.len() - from,
{
    if from < 0 || from >= nodes.len() {
        nodes.len() as int
    } else if nodes[from].depth <= depth {
        from
    } else {
        scan_end(nodes, depth, from + 1)
    }
}

/// One past the last node of the subtree rooted at index `i`: the subtree
/// is the run of nodes from `i` up to there.
pub open spec fn subtree_end(nodes: Seq<NodeModel>, i: int) -> int {
    scan_end(nodes, nodes[i].depth, i + 1)
}

/// The number of nodes of the document: the root and everything below
/// it. The nodes after those are detached.
pub open spec fn document_len(nodes: Seq<NodeModel>) -> int {
    if nodes.len() == 0 {
        0
    } else {
        subtree_end(nodes, 0)
    }
}

/// Whether the node at index `b` is the node at index `a` or lies below it.
pub open spec fn in_subtree(nodes: Seq<NodeModel>, a: int, b: int) -> bool {
    a <= b < subtree_end(nodes, a)
}

/// The nearest index at or before `from` whose node is less deep than `depth`.
pub open spec fn scan_parent(nodes: Seq<NodeModel>, depth: usize, from: int) -> Option<int>
    decreases from + 1,
{
    if from < 0 || from >= nodes.len() {
        None
    } else if nodes[from].depth < depth {
        Some(from)
    } else {
        scan_parent(nodes, depth, from - 1)
    }
}

/// The index of the parent of the node at index `i`.
pub open spec fn parent_index(nodes: Seq<NodeModel>, i: int) -> Option<int> {
    scan_parent(nodes, nodes[i].depth, i - 1)
}

/// What a scan for the end of a subtree returns: every node that it passed
/// is deeper than `depth`, and the node at which it stopped is not.
pub proof fn lemma_scan_end(nodes: Seq<NodeModel>, depth: usize, from: int)
    requires
        0 <= from <= nodes.len(),
    ensures
        from <= scan_end(nodes, depth, from) <= nodes.len(),
        forall|k: int| from <= k < scan_end(nodes, depth, from) ==> (#[trigger] nodes[k]).depth > depth,
        scan_end(nodes, depth, from) < nodes.len() ==> nodes[scan_end(nodes, depth, from)].depth <= depth,
    decreases nodes.len() - from,
{
    if from < nodes.len() && nodes[from].depth > depth {
        lemma_scan_end(nodes, depth, from + 1);
    }
}

/// What the end of a subtree is: every node between is deeper than the
/// subtree's root, and the node at the end, if there is one, is not.
pub proof fn lemma_subtree_end(nodes: Seq<NodeModel>, i: int)
    requires
        0 <= i < nodes.len(),
    ensures
        i < subtree_end(nodes, i) <= nodes.len(),
        forall|k: int| i < k < subtree_end(nodes, i) ==> (#[trigger] nodes[k]).depth > nodes[i].depth,
        subtree_end(nodes, i) < nodes.len() ==> nodes[subtree_end(nodes, i)].depth <= nodes[i].depth,
{
    lemma_scan_end(nodes, nodes[i].depth, i + 1);
}

/// What a scan for a parent returns: the node that it found is less deep
/// than `depth`, and no node that it passed is.
pub proof fn lemma_scan_parent(nodes: Seq<NodeModel>, depth: usize, from: int)
    requires
        -1 <= from < nodes.len(),
    ensures
        match scan_parent(nodes, depth, from) {
            Some(p) => 0 <= p <= from && nodes[p].depth < depth && forall|k: int|
                p < k <= from ==> (#[trigger] nodes[k]).depth >= depth,
            None => forall|k: int| 0 <= k <= from ==> (#[trigger] nodes[k]).depth >= depth,
        },
    decreases from + 1,
{
    if from >= 0 && nodes[from].depth >= depth {
        lemma_scan_parent(nodes, depth, from - 1);
    }
}

/// In a depth chain no node is deeper than its index.
pub proof fn lemma_depth_bound(nodes: Seq<NodeModel>, i: int)
    requires
        depth_chain(nodes),
        0 <= i < nodes.len(),
    ensures
        nodes[i].depth <= i,
    decreases i,
{
    if i > 0 {
        lemma_depth_bound(nodes, i - 1);
        assert(depth_step(nodes, i));
    }
}

/// With distinct handles, the index of a handle is the one place where it stands.
pub proof fn lemma_index_of(nodes: Seq<NodeModel>, i: int)
    requires
        distinct_ids(nodes),
        0 <= i < nodes.len(),
    ensures
        has_id(nodes, nodes[i].id),
        index_of(nodes, nodes[i].id) == i,
{
    let j = index_of(nodes, nodes[i].id);
    assert(nodes[i].id == nodes[i].id);
    if j < i {
        assert(nodes[j].id != nodes[i].id);
    } else if i < j {
        assert(nodes[i].id != nodes[j].id);
    }
}

/// Two trees with the same handles at the same places hold the same
/// handles, at the same indices.
pub proof fn lemma_same_ids(a: Seq<NodeModel>, b: Seq<NodeModel>)
    requires
        a.len() == b.len(),
        forall|k: int| 0 <= k < a.len() ==> (#[trigger] a[k]).id == b[k].id,
    ensures
        forall|h: u64| has_id(a, h) == has_id(b, h),
        distinct_ids(a) ==> forall|h: u64| has_id(a, h) ==> index_of(a, h) == index_of(b, h),
{
    assert forall|h: u64| has_id(a, h) == has_id(b, h) by {
        if has_id(a, h) {
            let i = index_of(a, h);
            assert(a[i].id == b[i].id);
        }
        if has_id(b, h) {
            let i = index_of(b, h);
            assert(a[i].id == b[i].id);
        }
    }
    if distinct_ids(a) {
        assert forall|h: u64| has_id(a, h) implies index_of(a, h) == index_of(b, h) by {
            let i = index_of(a, h);
            let j = index_of(b, h);
            assert(a[i].id == b[i].id);
            assert(a[j].id == b[j].id);
            if i < j {
                assert(a[i].id != a[j].id);
            } else if j < i {
                assert(a[j].id != a[i].id);
            }
        }
    }
}

} // verus!
