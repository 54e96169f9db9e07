use vstd::prelude::*;
use crate::focus::{focus_touched, focused_at, lemma_focused_at};
use crate::model::{
    attribute_index_from, attribute_value, distinct_ids, document_len, has_id, ids, index_of,
    lemma_attribute_index_from, lemma_depth_bound, lemma_index_of, lemma_scan_end,
    lemma_scan_parent, lemma_subtree_end, parent_index, scan_end, scan_parent, subtree_end,
    well_formed, with_attribute, AttributeModel, MutationModel, NodeModel, Pending, Place,
};
use crate::moving::{
    can_move, fits, lemma_move_fits, lemma_moved_wf, lemma_run_depth_bound, lemma_shift_in_range,
    moved, place_depth, place_index, shifted, with_run,
};
use crate::mutation::{
    added, applied, applied_all, applied_first, attribute_changed, dropped, dropped_first, fresh,
    lemma_added_wf, lemma_attribute_changed_wf, lemma_removed_shape, lemma_removed_wf,
    lemma_text_changed_wf, removed, removed_ids, text_changed, touch_layout, touch_parent,
};
use crate::reducer::{
    child_ids, children_upto, geometry_changed, lemma_reduced_wf, lemma_resolved_wf, needs_rerender,
    reduced, reduced_node, reduced_state, request_of, requests_from, resolved, resolved_node,
    solved_rect, to_rerender, MeasureModel, Solved,
};
use crate::state::{text_view, Focus, NodeState, PreventDefault, Rect};
use crate::text::text_equals;

verus! {

/// One attribute of a node.
#[derive(Debug)]
pub struct Attribute {
    pub name: String,
    pub value: String,
}

impl View for Attribute {
    type V = AttributeModel;

    open spec fn view(&self) -> AttributeModel {
        AttributeModel { name: self.name@, value: self.value@ }
    }
}

/// The attributes of a node as mathematical values.
pub open spec fn attributes_view(attrs: Seq<Attribute>) -> Seq<AttributeModel> {
    attrs.map_values(|a: Attribute| a@)
}

/// One node of the shadow tree.
#[derive(Debug)]
pub struct Node {
    /// The stable handle of the node.
    pub id: u64,
    /// The number of ancestors of the node.
    pub depth: usize,
    pub attributes: Vec<Attribute>,
    pub text: String,
    /// The derived state.
    pub state: NodeState,
    /// The derived fields that wait for the reducer.
    pub pending: Pending,
}

impl View for Node {
    type V = NodeModel;

    open spec fn view(&self) -> NodeModel {
        NodeModel {
            id: self.id,
            depth: self.depth,
            attributes: attributes_view(self.attributes@),
            text: self.text@,
            state: self.state,
            pending: self.pending,
        }
    }
}

impl Node {
    /// A node as it enters the tree: no attributes, no text, the initial
    /// derived state, and every field waiting for the reducer.
    pub fn new(id: u64, depth: usize) -> (r: Self)
        ensures
            r@ == fresh(id, depth),
    {
        let node = Node {
            id,
            depth,
            attributes: Vec::new(),
            text: String::new(),
            state: NodeState::default(),
            pending: Pending { suppression: true, focus: true, layout: true },
        };
        assert(node@.attributes =~= Seq::<AttributeModel>::empty());
        node
    }
}

/// The nodes of a tree as mathematical values.
pub open spec fn nodes_view(nodes: Seq<Node>) -> Seq<NodeModel> {
    nodes.map_values(|n: Node| n@)
}

/// One operation of a mutation batch.
#[derive(Debug)]
pub enum Mutation {
    /// A node enters the tree as the last child of `parent`, or as the
    /// root where `parent` is `None`.
    NodeAdded { id: u64, parent: Option<u64> },
    /// A node moves to another place with everything below it.
    NodeMoved { id: u64, place: Place },
    /// A node leaves the tree with everything below it.
    NodeRemoved { id: u64 },
    /// An attribute is written, or removed where `value` is `None`.
    AttributeChanged { id: u64, name: String, value: Option<String> },
    /// The text of a node is replaced.
    TextChanged { id: u64, text: String },
}

impl View for Mutation {
    type V = MutationModel;

    open spec fn view(&self) -> MutationModel {
        match self {
            Mutation::NodeAdded { id, parent } => MutationModel::NodeAdded { id: *id, parent: *parent },
            Mutation::NodeMoved { id, place } => MutationModel::NodeMoved { id: *id, place: *place },
            Mutation::NodeRemoved { id } => MutationModel::NodeRemoved { id: *id },
            Mutation::AttributeChanged { id, name, value } => MutationModel::AttributeChanged {
                id: *id,
                name: name@,
                value: match value {
                    Some(v) => Some(v@),
                    None => None,
                },
            },
            Mutation::TextChanged { id, text } => MutationModel::TextChanged { id: *id, text: text@ },
        }
    }
}

/// The views of the mutations of a batch.
pub open spec fn batch_view(batch: Seq<Mutation>) -> Seq<MutationModel> {
    batch.map_values(|m: Mutation| m@)
}

/// The value of the first attribute called `name`.
pub fn lookup_attribute<'a>(attrs: &'a Vec<Attribute>, name: &str) -> (r: Option<&'a str>)
    ensures
        text_view(r) == attribute_value(attributes_view(attrs@), name@),
{
    let mut k: usize = 0;
    while k < attrs.len()
        invariant
            k <= attrs.len(),
            attribute_index_from(attributes_view(attrs@), name@, 0) == attribute_index_from(
                attributes_view(attrs@),
                name@,
                k as int,
            ),
        decreases attrs.len() - k,
    {
        assert(attributes_view(attrs@)[k as int] == attrs@[k as int]@);
        if text_equals(attrs[k].name.as_str(), name) {
            return Some(attrs[k].value.as_str());
        }
        k = k + 1;
    }
    None
}

/// The shadow tree: the stateful mirror of the declarative description,
/// held in document order.
#[derive(Debug)]
pub struct ShadowTree {
    nodes: Vec<Node>,
}

impl View for ShadowTree {
    type V = Seq<NodeModel>;

    closed spec fn view(&self) -> Seq<NodeModel> {
        nodes_view(self.nodes@)
    }
}

impl ShadowTree {
    /// The invariant of the tree.
    pub open spec fn wf(&self) -> bool {
        well_formed(self@)
    }

    /// A tree without nodes.
    pub fn new() -> (r: Self)
        ensures
            r@ == Seq::<NodeModel>::empty(),
            r.wf(),
    {
        let r = ShadowTree { nodes: Vec::new() };
        assert(r@ =~= Seq::<NodeModel>::empty());
        r
    }

    /// The number of nodes.
    pub fn len(&self) -> (r: usize)
        ensures
            r == self@.len(),
    {
        self.nodes.len()
    }

    /// Whether the tree holds no node.
    pub fn is_empty(&self) -> (r: bool)
        ensures
            r == (self@.len() == 0),
    {
        self.nodes.len() == 0
    }

    /// The place in document order of the node with this handle.
    pub fn find(&self, id: u64) -> (r: Option<usize>)
        ensures
            r is Some <==> has_id(self@, id),
            r matches Some(i) ==> i < self@.len() && self@[i as int].id == id,
            r matches Some(i) ==> forall|k: int| 0 <= k < i ==> (#[trigger] self@[k]).id != id,
            r matches Some(i) ==> distinct_ids(self@) ==> i == index_of(self@, id),
    {
        let mut i: usize = 0;
        while i < self.nodes.len()
            invariant
                i <= self.nodes.len(),
                forall|k: int| 0 <= k < i ==> (#[trigger] self@[k]).id != id,
            decreases self.nodes.len() - i,
        {
            assert(self@[i as int] == self.nodes@[i as int]@);
            if self.nodes[i].id == id {
                proof {
                    if distinct_ids(self@) {
                        lemma_index_of(self@, i as int);
                    }
                }
                return Some(i);
            }
            i = i + 1;
        }
        None
    }

    /// Whether the tree holds a node with this handle.
    pub fn contains(&self, id: u64) -> (r: bool)
        ensures
            r == has_id(self@, id),
    {
        self.find(id).is_some()
    }

    /// The node at a place in document order.
    pub fn node(&self, index: usize) -> (r: &Node)
        requires
            index < self@.len(),
        ensures
            r@ == self@[index as int],
    {
        &self.nodes[index]
    }

    /// The node with this handle.
    pub fn get(&self, id: u64) -> (r: Option<&Node>)
        ensures
            r is Some <==> has_id(self@, id),
            r matches Some(n) ==> n@.id == id && exists|i: int|
                0 <= i < self@.len() && self@[i] == n@ && forall|k: int| 0 <= k < i ==> (#[trigger] self@[k]).id != id,
            r matches Some(n) ==> distinct_ids(self@) ==> n@ == self@[index_of(self@, id)],
    {
        match self.find(id) {
            Some(i) => {
                assert(self@[i as int] == self.nodes@[i as int]@);
                Some(&self.nodes[i])
            },
            None => None,
        }
    }

    /// The derived state of the node with this handle.
    pub fn state_of(&self, id: u64) -> (r: Option<NodeState>)
        ensures
            r is Some <==> has_id(self@, id),
            r matches Some(s) ==> exists|i: int|
                0 <= i < self@.len() && self@[i].id == id && self@[i].state == s && forall|k: int|
                    0 <= k < i ==> (#[trigger] self@[k]).id != id,
            r matches Some(s) ==> distinct_ids(self@) ==> s == self@[index_of(self@, id)].state,
    {
        match self.find(id) {
            Some(i) => {
                assert(self@[i as int] == self.nodes@[i as int]@);
                Some(self.nodes[i].state)
            },
            None => None,
        }
    }

    /// The number of nodes of the document: the root and everything below
    /// it. The nodes after those are detached.
    pub fn document_len(&self) -> (r: usize)
        ensures
            r == document_len(self@),
            r <= self@.len(),
    {
        if self.nodes.len() == 0 {
            0
        } else {
            self.subtree_end(0)
        }
    }

    /// The handle of the root.
    pub fn root_id(&self) -> (r: Option<u64>)
        ensures
            r == (if self@.len() > 0 { Some(self@[0].id) } else { None }),
    {
        if self.nodes.len() > 0 {
            assert(self@[0] == self.nodes@[0]@);
            Some(self.nodes[0].id)
        } else {
            None
        }
    }

    /// The handles in document order: depth first, parents before children.
    pub fn order(&self) -> (r: Vec<u64>)
        ensures
            r@ == ids(self@),
    {
        let mut out: Vec<u64> = Vec::new();
        let mut i: usize = 0;
        while i < self.nodes.len()
            invariant
                i <= self.nodes.len(),
                out@.len() == i,
                forall|k: int| 0 <= k < i ==> out@[k] == (#[trigger] self@[k]).id,
            decreases self.nodes.len() - i,
        {
            assert(self@[i as int] == self.nodes@[i as int]@);
            out.push(self.nodes[i].id);
            i = i + 1;
        }
        assert(out@ =~= ids(self@));
        out
    }

    /// One past the last node of the subtree rooted at `index`.
    pub fn subtree_end(&self, index: usize) -> (r: usize)
        requires
            index < self@.len(),
        ensures
            r == subtree_end(self@, index as int),
            index < r <= self@.len(),
    {
        assert(self@[index as int] == self.nodes@[index as int]@);
        let depth = self.nodes[index].depth;
        let n = self.nodes.len();
        assert(index < n);
        let mut j: usize = index + 1;
        proof {
            lemma_scan_end(self@, depth, index + 1);
        }
        while j < self.nodes.len() && self.nodes[j].depth > depth
            invariant
                index < j <= self.nodes.len(),
                self.nodes@.len() == self@.len(),
                depth == self@[index as int].depth,
                scan_end(self@, depth, index + 1) == scan_end(self@, depth, j as int),
                forall|k: int| 0 <= k < self@.len() ==> (#[trigger] self@[k]).depth == self.nodes@[k].depth,
            decreases self.nodes.len() - j,
        {
            assert(self@[j as int].depth == self.nodes@[j as int].depth);
            j = j + 1;
        }
        proof {
            if j < self.nodes.len() {
                assert(self@[j as int].depth == self.nodes@[j as int].depth);
            }
        }
        j
    }

    /// The place of the parent of the node at `index`.
    pub fn parent_index(&self, index: usize) -> (r: Option<usize>)
        requires
            index < self@.len(),
        ensures
            match r {
                Some(p) => parent_index(self@, index as int) == Some(p as int) && p < index,
                None => parent_index(self@, index as int) is None,
            },
    {
        assert(self@[index as int] == self.nodes@[index as int]@);
        let depth = self.nodes[index].depth;
        let mut j: usize = index;
        proof {
            lemma_scan_parent(self@, depth, index - 1);
        }
        while j > 0
            invariant
                j <= index < self.nodes.len(),
                self.nodes@.len() == self@.len(),
                depth == self@[index as int].depth,
                scan_parent(self@, depth, index - 1) == scan_parent(self@, depth, j - 1),
                forall|k: int| 0 <= k < self@.len() ==> (#[trigger] self@[k]).depth == self.nodes@[k].depth,
            decreases j,
        {
            assert(self@[j - 1].depth == self.nodes@[j - 1].depth);
            if self.nodes[j - 1].depth < depth {
                return Some(j - 1);
            }
            j = j - 1;
        }
        None
    }
}

/// The place of the first attribute called `name`.
pub fn attribute_position(attrs: &Vec<Attribute>, name: &str) -> (r: Option<usize>)
    ensures
        match r {
            Some(k) => attribute_index_from(attributes_view(attrs@), name@, 0) == Some(k as int) && k < attrs@.len(),
            None => attribute_index_from(attributes_view(attrs@), name@, 0) is None,
        },
{
    let mut k: usize = 0;
    while k < attrs.len()
        invariant
            k <= attrs.len(),
            attribute_index_from(attributes_view(attrs@), name@, 0) == attribute_index_from(
                attributes_view(attrs@),
                name@,
                k as int,
            ),
        decreases attrs.len() - k,
    {
        assert(attributes_view(attrs@)[k as int] == attrs@[k as int]@);
        if text_equals(attrs[k].name.as_str(), name) {
            return Some(k);
        }
        k = k + 1;
    }
    None
}

/// Writes an attribute, or removes it where `value` is `None`.
pub fn write_attribute(attrs: &mut Vec<Attribute>, name: &str, value: Option<&str>)
    ensures
        attributes_view(final(attrs)@) == with_attribute(attributes_view(old(attrs)@), name@, text_view(value)),
{
    let ghost before = attributes_view(attrs@);
    match attribute_position(attrs, name) {
        Some(k) => {
            assert(before[k as int] == attrs@[k as int]@);
            proof {
                lemma_attribute_index_from(before, name@, 0);
            }
            match value {
                Some(v) => {
                    attrs[k].value = v.to_owned();
                    assert(attributes_view(attrs@) =~= before.update(
                        k as int,
                        AttributeModel { name: name@, value: v@ },
                    ));
                },
                None => {
                    attrs.remove(k);
                    assert(attributes_view(attrs@) =~= before.remove(k as int));
                },
            }
        },
        None => {
            match value {
                Some(v) => {
                    attrs.push(Attribute { name: name.to_owned(), value: v.to_owned() });
                    assert(attributes_view(attrs@) =~= before.push(AttributeModel { name: name@, value: v@ }));
                },
                None => {},
            }
        },
    }
}

impl ShadowTree {
    /// Adds a node as the last child of `parent`. Without a parent the
    /// node becomes the root of an empty tree, and a detached node after
    /// the document otherwise. A handle that the tree already holds and a
    /// parent that it does not hold change nothing.
    pub fn add_node(&mut self, id: u64, parent: Option<u64>)
        requires
            old(self).wf(),
        ensures
            final(self)@ == added(old(self)@, id, parent),
            final(self).wf(),
    {
        proof {
            lemma_added_wf(self@, id, parent);
        }
        if self.find(id).is_some() || self.nodes.len() >= usize::MAX {
            return ;
        }
        let ghost before = self@;
        match parent {
            None => {
                self.nodes.push(Node::new(id, 0));
                assert(self@ =~= before.push(fresh(id, 0)));
            },
            Some(p) => {
                match self.find(p) {
                    Some(pi) => {
                        assert(before[pi as int] == self.nodes@[pi as int]@);
                        proof {
                            lemma_depth_bound(before, pi as int);
                        }
                        let depth = self.nodes[pi].depth + 1;
                        let end = self.subtree_end(pi);
                        self.nodes[pi].pending.layout = true;
                        assert(nodes_view(self.nodes@) =~= touch_parent(before, Some(pi as int)));
                        self.nodes.insert(end, Node::new(id, depth));
                        assert(self@ =~= touch_parent(before, Some(pi as int)).insert(end as int, fresh(id, depth)));
                    },
                    None => {},
                }
            },
        }
    }

    /// Removes the node with this handle and everything below it, and
    /// returns the handles that left, in document order. A handle that the
    /// tree does not hold changes nothing.
    pub fn remove_node(&mut self, id: u64) -> (gone: Vec<u64>)
        requires
            old(self).wf(),
        ensures
            final(self)@ == removed(old(self)@, id),
            gone@ == removed_ids(old(self)@, id),
            final(self).wf(),
    {
        proof {
            lemma_removed_wf(self@, id);
        }
        let ghost before = self@;
        let mut gone: Vec<u64> = Vec::new();
        match self.find(id) {
            None => {
                assert(gone@ =~= removed_ids(before, id));
            },
            Some(i) => {
                proof {
                    lemma_removed_shape(before, id);
                }
                let end = self.subtree_end(i);
                match self.parent_index(i) {
                    Some(p) => {
                        self.nodes[p].pending.layout = true;
                    },
                    None => {},
                }
                let ghost marked = self.nodes@;
                let ghost t = touch_parent(before, parent_index(before, i as int));
                assert(nodes_view(marked) =~= t);
                let count = end - i;
                let mut k: usize = 0;
                while k < count
                    invariant
                        k <= count,
                        count == end - i,
                        i < end <= marked.len(),
                        self.nodes@ == marked.subrange(0, i as int) + marked.subrange(i + k, marked.len() as int),
                        gone@ == ids(nodes_view(marked.subrange(i as int, i + k))),
                    decreases count - k,
                {
                    let node = self.nodes.remove(i);
                    assert(node == marked[i + k]);
                    gone.push(node.id);
                    assert(self.nodes@ =~= marked.subrange(0, i as int) + marked.subrange(
                        i + k + 1,
                        marked.len() as int,
                    ));
                    assert(gone@ =~= ids(nodes_view(marked.subrange(i as int, i + k + 1))));
                    k = k + 1;
                }
                assert(self@ =~= t.subrange(0, i as int) + t.subrange(end as int, t.len() as int));
                assert(gone@ =~= ids(before.subrange(i as int, end as int))) by {
                    assert forall|j: int| 0 <= j < end - i implies gone@[j] == before[i + j].id by {
                        assert(t[i + j].id == before[i + j].id);
                    }
                }
            },
        }
        gone
    }

    /// Writes an attribute of a node, or removes it where `value` is
    /// `None`, and adds the fields that watch its name to the pending ones.
    pub fn set_attribute(&mut self, id: u64, name: &str, value: Option<&str>)
        requires
            old(self).wf(),
        ensures
            final(self)@ == attribute_changed(old(self)@, id, name@, text_view(value)),
            final(self).wf(),
    {
        proof {
            lemma_attribute_changed_wf(self@, id, name@, text_view(value));
        }
        let ghost before = self@;
        match self.find(id) {
            None => {},
            Some(i) => {
                assert(before[i as int] == self.nodes@[i as int]@);
                let suppression = text_equals(name, "dioxus-prevent-default");
                let focus = text_equals(name, "tabindex");
                write_attribute(&mut self.nodes[i].attributes, name, value);
                if suppression {
                    self.nodes[i].pending.suppression = true;
                }
                if focus {
                    self.nodes[i].pending.focus = true;
                }
                if !suppression && !focus {
                    self.nodes[i].pending.layout = true;
                }
                assert(self.nodes@[i as int]@ == (NodeModel {
                    attributes: with_attribute(before[i as int].attributes, name@, text_view(value)),
                    pending: before[i as int].pending.touched_by(name@),
                    ..before[i as int]
                }));
                assert(self@ =~= attribute_changed(before, id, name@, text_view(value)));
            },
        }
    }

    /// Replaces the text of a node.
    pub fn set_text(&mut self, id: u64, text: &str)
        requires
            old(self).wf(),
        ensures
            final(self)@ == text_changed(old(self)@, id, text@),
            final(self).wf(),
    {
        proof {
            lemma_text_changed_wf(self@, id, text@);
        }
        let ghost before = self@;
        match self.find(id) {
            None => {},
            Some(i) => {
                assert(before[i as int] == self.nodes@[i as int]@);
                self.nodes[i].text = text.to_owned();
                self.nodes[i].pending.layout = true;
                assert(self.nodes@[i as int]@ == (NodeModel { text: text@, ..touch_layout(before[i as int]) }));
                assert(self@ =~= text_changed(before, id, text@));
            },
        }
    }

    /// Applies one mutation and returns the handles that left the tree.
    /// A mutation that names a handle which the tree does not hold changes
    /// nothing.
    pub fn apply_mutation(&mut self, m: &Mutation) -> (gone: Vec<u64>)
        requires
            old(self).wf(),
        ensures
            final(self)@ == applied(old(self)@, m@),
            gone@ == dropped(old(self)@, m@),
            final(self).wf(),
    {
        match m {
            Mutation::NodeAdded { id, parent } => {
                self.add_node(*id, *parent);
                Vec::new()
            },
            Mutation::NodeMoved { id, place } => {
                self.move_node(*id, *place);
                Vec::new()
            },
            Mutation::NodeRemoved { id } => self.remove_node(*id),
            Mutation::AttributeChanged { id, name, value } => {
                let v: Option<&str> = match value {
                    Some(s) => Some(s.as_str()),
                    None => None,
                };
                self.set_attribute(*id, name.as_str(), v);
                Vec::new()
            },
            Mutation::TextChanged { id, text } => {
                self.set_text(*id, text.as_str());
                Vec::new()
            },
        }
    }

    /// Applies a batch in order and returns the handles that left the tree.
    pub fn apply_mutations(&mut self, batch: &Vec<Mutation>) -> (gone: Vec<u64>)
        requires
            old(self).wf(),
        ensures
            final(self)@ == applied_all(old(self)@, batch_view(batch@)),
            gone@ == dropped_first(old(self)@, batch_view(batch@), batch@.len() as int),
            final(self).wf(),
    {
        let ghost before = self@;
        let mut gone: Vec<u64> = Vec::new();
        let mut n: usize = 0;
        while n < batch.len()
            invariant
                n <= batch.len(),
                self.wf(),
                self@ == applied_first(before, batch_view(batch@), n as int),
                gone@ == dropped_first(before, batch_view(batch@), n as int),
            decreases batch.len() - n,
        {
            assert(batch_view(batch@)[n as int] == batch@[n as int]@);
            let mut more = self.apply_mutation(&batch[n]);
            gone.append(&mut more);
            n = n + 1;
        }
        gone
    }
}

impl ShadowTree {
    /// Moves the focus to the node at `target`: that node becomes the one
    /// focused node of the tree. Returns the handles of the nodes that
    /// were focused and of the target, in document order.
    pub fn focus_only(&mut self, target: usize) -> (touched: Vec<u64>)
        requires
            old(self).wf(),
            target < old(self)@.len(),
        ensures
            final(self)@ == focused_at(old(self)@, target as int),
            touched@ == focus_touched(old(self)@, target as int, old(self)@.len() as int),
            final(self).wf(),
    {
        proof {
            lemma_focused_at(self@, target as int);
        }
        let ghost before = self@;
        let mut touched: Vec<u64> = Vec::new();
        let mut k: usize = 0;
        while k < self.nodes.len()
            invariant
                k <= self.nodes.len(),
                self.nodes@.len() == before.len(),
                touched@ == focus_touched(before, target as int, k as int),
                forall|i: int| 0 <= i < k ==> (#[trigger] self.nodes@[i])@ == focused_at(before, target as int)[i],
                forall|i: int| k <= i < before.len() ==> (#[trigger] self.nodes@[i])@ == before[i],
            decreases self.nodes.len() - k,
        {
            if self.nodes[k].state.focused || k == target {
                touched.push(self.nodes[k].id);
            }
            self.nodes[k].state.focused = k == target;
            k = k + 1;
        }
        assert(self@ =~= focused_at(before, target as int));
        touched
    }
}

/// A request to the box-model solver: measure the node `node` with these
/// children. `created` says that the node had no measurement node before;
/// the key of a measurement node is the handle of its node.
#[derive(Debug)]
pub struct MeasureRequest {
    pub node: u64,
    pub created: bool,
    pub children: Vec<u64>,
}

impl View for MeasureRequest {
    type V = MeasureModel;

    open spec fn view(&self) -> MeasureModel {
        MeasureModel { node: self.node, created: self.created, children: self.children@ }
    }
}

/// The requests of a list as mathematical values.
pub open spec fn requests_view(requests: Seq<MeasureRequest>) -> Seq<MeasureModel> {
    requests.map_values(|r: MeasureRequest| r@)
}

/// What the reducer hands back.
#[derive(Debug)]
pub struct Reduction {
    /// The handles of the nodes whose appearance may have changed,
    /// children before parents.
    pub to_rerender: Vec<u64>,
    /// The requests to the box-model solver, children before parents.
    pub requests: Vec<MeasureRequest>,
}

/// The rectangle that the solver resolved for a measurement node.
pub fn find_solved(solved: &Vec<Solved>, key: u64) -> (r: Option<Rect>)
    ensures
        r == solved_rect(solved@, key, 0),
{
    let mut k: usize = 0;
    while k < solved.len()
        invariant
            k <= solved.len(),
            solved_rect(solved@, key, 0) == solved_rect(solved@, key, k as int),
        decreases solved.len() - k,
    {
        if solved[k].key == key {
            return Some(solved[k].rect);
        }
        k = k + 1;
    }
    None
}

impl ShadowTree {
    /// The handles of the children of the node at `index`, in document order.
    pub fn children_of(&self, index: usize) -> (r: Vec<u64>)
        requires
            index < self@.len(),
        ensures
            r@ == child_ids(self@, index as int),
    {
        let end = self.subtree_end(index);
        assert(self@[index as int] == self.nodes@[index as int]@);
        let depth = self.nodes[index].depth;
        let mut out: Vec<u64> = Vec::new();
        let mut j: usize = index + 1;
        proof {
            lemma_subtree_end(self@, index as int);
        }
        while j < end
            invariant
                index < j <= end <= self.nodes.len(),
                self.nodes@.len() == self@.len(),
                depth == self@[index as int].depth,
                end == subtree_end(self@, index as int),
                out@ == children_upto(self@, index as int, j as int),
                forall|k: int| index < k < end ==> (#[trigger] self@[k]).depth > depth,
            decreases end - j,
        {
            assert(self@[j as int] == self.nodes@[j as int]@);
            assert(self@[j as int].depth > depth);
            if self.nodes[j].depth - 1 == depth {
                out.push(self.nodes[j].id);
            }
            j = j + 1;
        }
        out
    }

    /// The requests that the nodes whose layout waits for the reducer push
    /// to the box-model solver, children before parents.
    pub fn measure_requests(&self) -> (r: Vec<MeasureRequest>)
        ensures
            requests_view(r@) == requests_from(self@, 0),
    {
        let mut out: Vec<MeasureRequest> = Vec::new();
        let mut k: usize = self.nodes.len();
        assert(requests_view(out@) =~= requests_from(self@, k as int));
        while k > 0
            invariant
                k <= self.nodes.len(),
                self.nodes@.len() == self@.len(),
                requests_view(out@) == requests_from(self@, k as int),
            decreases k,
        {
            k = k - 1;
            assert(self@[k as int] == self.nodes@[k as int]@);
            if self.nodes[k].pending.layout {
                let request = MeasureRequest {
                    node: self.nodes[k].id,
                    created: self.nodes[k].state.layout.node.is_none(),
                    children: self.children_of(k),
                };
                assert(request@ == request_of(self@, k as int));
                let ghost earlier = out@;
                out.push(request);
                assert(requests_view(out@) =~= requests_view(earlier).push(request_of(self@, k as int)));
            }
        }
        out
    }

    /// Runs the reducer: every derived field that waits is recomputed, the
    /// attribute-driven fields from the node's own attributes and the
    /// layout children before parents, and a field is replaced only where
    /// its value differs. Returns the handles of the nodes whose
    /// appearance may have changed, and the requests to the solver.
    pub fn update_state(&mut self) -> (r: Reduction)
        requires
            old(self).wf(),
        ensures
            final(self)@ == reduced(old(self)@),
            r.to_rerender@ == to_rerender(old(self)@, 0),
            requests_view(r.requests@) == requests_from(old(self)@, 0),
            final(self).wf(),
    {
        proof {
            lemma_reduced_wf(self@);
        }
        let ghost before = self@;
        let requests = self.measure_requests();
        let mut list: Vec<u64> = Vec::new();
        let mut k: usize = self.nodes.len();
        while k > 0
            invariant
                k <= self.nodes.len(),
                self.nodes@.len() == before.len(),
                list@ == to_rerender(before, k as int),
                forall|i: int| k <= i < before.len() ==> (#[trigger] self.nodes@[i])@ == reduced_node(before[i]),
                forall|i: int| 0 <= i < k ==> (#[trigger] self.nodes@[i])@ == before[i],
            decreases k,
        {
            k = k - 1;
            assert(self.nodes@[k as int]@ == before[k as int]);
            let pending = self.nodes[k].pending;
            let id = self.nodes[k].id;
            let mut state = self.nodes[k].state;
            let mut changed = pending.layout;
            if pending.suppression {
                let value = lookup_attribute(&self.nodes[k].attributes, PreventDefault::attribute_name());
                if state.prevent_default.reduce(value) {
                    changed = true;
                }
            }
            if pending.focus {
                let value = lookup_attribute(&self.nodes[k].attributes, Focus::attribute_name());
                if state.focus.reduce(value) {
                    changed = true;
                }
            }
            if pending.layout {
                state.layout.node = Some(id);
            }
            assert(state == reduced_state(before[k as int]));
            assert(changed == needs_rerender(before[k as int]));
            self.nodes[k].state = state;
            self.nodes[k].pending = Pending { suppression: false, focus: false, layout: false };
            if changed {
                list.push(id);
            }
        }
        assert(self@ =~= reduced(before));
        Reduction { to_rerender: list, requests }
    }

    /// Stores what the solver resolved: every node with a measurement node
    /// for which `solved` holds a rectangle gets that rectangle, children
    /// before parents. Returns the handles of the nodes whose geometry
    /// changed.
    pub fn resolve_layout(&mut self, solved: &Vec<Solved>) -> (changed: Vec<u64>)
        requires
            old(self).wf(),
        ensures
            final(self)@ == resolved(old(self)@, solved@),
            changed@ == geometry_changed(old(self)@, solved@, 0),
            final(self).wf(),
    {
        proof {
            lemma_resolved_wf(self@, solved@);
        }
        let ghost before = self@;
        let mut list: Vec<u64> = Vec::new();
        let mut k: usize = self.nodes.len();
        while k > 0
            invariant
                k <= self.nodes.len(),
                self.nodes@.len() == before.len(),
                list@ == geometry_changed(before, solved@, k as int),
                forall|i: int| k <= i < before.len() ==> (#[trigger] self.nodes@[i])@ == resolved_node(before[i], solved@),
                forall|i: int| 0 <= i < k ==> (#[trigger] self.nodes@[i])@ == before[i],
            decreases k,
        {
            k = k - 1;
            assert(self.nodes@[k as int]@ == before[k as int]);
            match self.nodes[k].state.layout.node {
                Some(key) => {
                    match find_solved(solved, key) {
                        Some(rect) => {
                            let differs = match self.nodes[k].state.layout.layout {
                                Some(old_rect) => old_rect != rect,
                                None => true,
                            };
                            if differs {
                                self.nodes[k].state.layout.layout = Some(rect);
                                list.push(self.nodes[k].id);
                            }
                        },
                        None => {},
                    }
                },
                None => {},
            }
        }
        assert(self@ =~= resolved(before, solved@));
        list
    }
}

impl ShadowTree {
    /// The nearest place before `below` whose node is less deep than `depth`.
    pub fn scan_up(&self, depth: usize, below: usize) -> (r: Option<usize>)
        requires
            below <= self@.len(),
        ensures
            match r {
                Some(p) => scan_parent(self@, depth, below - 1) == Some(p as int) && p < below,
                None => scan_parent(self@, depth, below - 1) is None,
            },
    {
        let mut j: usize = below;
        proof {
            lemma_scan_parent(self@, depth, below - 1);
        }
        while j > 0
            invariant
                j <= below <= self.nodes.len(),
                self.nodes@.len() == self@.len(),
                scan_parent(self@, depth, below - 1) == scan_parent(self@, depth, j - 1),
                forall|k: int| 0 <= k < self@.len() ==> (#[trigger] self@[k]).depth == self.nodes@[k].depth,
            decreases j,
        {
            assert(self@[j - 1].depth == self.nodes@[j - 1].depth);
            if self.nodes[j - 1].depth < depth {
                return Some(j - 1);
            }
            j = j - 1;
        }
        None
    }

    /// Takes the nodes from `from` up to `to` out of the tree, in order.
    fn take_run(&mut self, from: usize, to: usize) -> (run: Vec<Node>)
        requires
            from <= to <= old(self).nodes@.len(),
        ensures
            run@ == old(self).nodes@.subrange(from as int, to as int),
            final(self).nodes@ == old(self).nodes@.subrange(0, from as int) + old(self).nodes@.subrange(
                to as int,
                old(self).nodes@.len() as int,
            ),
    {
        let ghost marked = self.nodes@;
        let mut run: Vec<Node> = Vec::new();
        let count = to - from;
        let mut k: usize = 0;
        while k < count
            invariant
                k <= count,
                count == to - from,
                from <= to <= marked.len(),
                self.nodes@ == marked.subrange(0, from as int) + marked.subrange(from + k, marked.len() as int),
                run@ == marked.subrange(from as int, from + k),
            decreases count - k,
        {
            let node = self.nodes.remove(from);
            assert(node == marked[from + k]);
            run.push(node);
            assert(self.nodes@ =~= marked.subrange(0, from as int) + marked.subrange(
                from + k + 1,
                marked.len() as int,
            ));
            assert(run@ =~= marked.subrange(from as int, from + k + 1));
            k = k + 1;
        }
        run
    }

    /// Puts a subtree in at `at`, its root at depth `base`.
    fn put_run(&mut self, run: Vec<Node>, at: usize, base: usize, Ghost(rest): Ghost<Seq<NodeModel>>)
        requires
            well_formed(rest),
            fits(rest, nodes_view(run@), at as int, base),
            old(self)@.len() == rest.len(),
        ensures
            final(self)@ == old(self)@.subrange(0, at as int) + shifted(nodes_view(run@), base) + old(self)@.subrange(
                at as int,
                old(self)@.len() as int,
            ),
    {
        let ghost t = self@;
        let ghost origin = run@;
        let ghost run_model = nodes_view(run@);
        let ghost m = run_model.len() as int;
        let mut run = run;
        let root_depth = run[0].depth;
        assert(root_depth == run_model[0].depth) by {
            assert(run_model[0] == origin[0]@);
        }
        let mut j: usize = run.len();
        assert(nodes_view(self.nodes@) =~= t.subrange(0, at as int) + shifted(run_model, base).subrange(j as int, m)
            + t.subrange(at as int, t.len() as int));
        while j > 0
            invariant
                j <= m,
                m == origin.len(),
                m == run_model.len(),
                run@ == origin.subrange(0, j as int),
                nodes_view(origin) == run_model,
                root_depth == run_model[0].depth,
                well_formed(rest),
                fits(rest, run_model, at as int, base),
                t.len() == rest.len(),
                at <= t.len(),
                self.nodes@.len() == t.len() + m - j,
                nodes_view(self.nodes@) == t.subrange(0, at as int) + shifted(run_model, base).subrange(j as int, m)
                    + t.subrange(at as int, t.len() as int),
            decreases j,
        {
            let ghost held = nodes_view(self.nodes@);
            let mut node = run.pop().unwrap();
            j = j - 1;
            assert(node == origin[j as int]);
            assert(node@ == run_model[j as int]) by {
                assert(nodes_view(origin)[j as int] == origin[j as int]@);
            }
            proof {
                lemma_shift_in_range(rest, run_model, at as int, base, j as int);
                lemma_run_depth_bound(run_model, j as int);
            }
            node.depth = node.depth - root_depth + base;
            assert(node@ == shifted(run_model, base)[j as int]);
            self.nodes.insert(at, node);
            assert(nodes_view(self.nodes@) =~= held.insert(at as int, shifted(run_model, base)[j as int]));
            assert(held.insert(at as int, shifted(run_model, base)[j as int]) =~= t.subrange(0, at as int) + shifted(
                run_model,
                base,
            ).subrange(j as int, m) + t.subrange(at as int, t.len() as int));
        }
        assert(shifted(run_model, base).subrange(0, m) =~= shifted(run_model, base));
    }

    /// Whether a node can move to a place, and where the node's subtree
    /// stands if it can.
    fn check_move(&self, id: u64, place: Place) -> (r: Option<(usize, usize)>)
        requires
            self.wf(),
        ensures
            r is Some == can_move(self@, id, place),
            r matches Some((i, end)) ==> i == index_of(self@, id) && end == subtree_end(self@, i as int) && i < end
                <= self@.len(),
    {
        let anchor = match place {
            Place::LastChildOf(h) => h,
            Place::Before(h) => h,
            Place::After(h) => h,
        };
        let i = match self.find(id) {
            Some(i) => i,
            None => {
                return None;
            },
        };
        let first = match self.find(anchor) {
            Some(a) => a,
            None => {
                return None;
            },
        };
        let end = self.subtree_end(i);
        if i <= first && first < end {
            return None;
        }
        assert(self@[first as int] == self.nodes@[first as int]@);
        let child = match place {
            Place::LastChildOf(_) => true,
            _ => false,
        };
        if !child && self.nodes[first].depth == 0 {
            return None;
        }
        Some((i, end))
    }

    /// Takes the subtree at `i` out of the tree.
    fn detach(&mut self, i: usize, end: usize) -> (run: Vec<Node>)
        requires
            old(self).wf(),
            i < old(self)@.len(),
            end == subtree_end(old(self)@, i as int),
        ensures
            final(self)@ == removed(old(self)@, old(self)@[i as int].id),
            nodes_view(run@) == old(self)@.subrange(i as int, end as int),
    {
        let ghost before = self@;
        proof {
            lemma_index_of(before, i as int);
            lemma_removed_shape(before, before[i as int].id);
        }
        match self.parent_index(i) {
            Some(p) => {
                self.nodes[p].pending.layout = true;
            },
            None => {},
        }
        assert(nodes_view(self.nodes@) =~= touch_parent(before, parent_index(before, i as int)));
        let ghost marked = self.nodes@;
        let run = self.take_run(i, end);
        assert(self@ =~= removed(before, before[i as int].id));
        assert(nodes_view(run@) =~= before.subrange(i as int, end as int)) by {
            assert forall|k: int| 0 <= k < run@.len() implies nodes_view(run@)[k] == before.subrange(
                i as int,
                end as int,
            )[k] by {
                assert(run@[k] == marked[i + k]);
                assert(marked[i + k]@ == nodes_view(marked)[i + k]);
            }
        }
        run
    }

    /// Puts a subtree in at a place.
    fn attach(&mut self, run: Vec<Node>, place: Place)
        requires
            old(self).wf(),
            has_id(old(self)@, place.anchor()),
            fits(
                old(self)@,
                nodes_view(run@),
                place_index(old(self)@, place),
                place_depth(old(self)@, place),
            ),
        ensures
            final(self)@ == with_run(
                old(self)@,
                nodes_view(run@),
                place_index(old(self)@, place),
                place_depth(old(self)@, place),
            ),
    {
        let ghost rest = self@;
        let anchor = match place {
            Place::LastChildOf(h) => h,
            Place::Before(h) => h,
            Place::After(h) => h,
        };
        let a = match self.find(anchor) {
            Some(a) => a,
            None => {
                return ;
            },
        };
        assert(rest[a as int] == self.nodes@[a as int]@);
        proof {
            lemma_depth_bound(rest, a as int);
        }
        let len = self.nodes.len();
        assert(a < len);
        let (at, base) = match place {
            Place::LastChildOf(_) => (self.subtree_end(a), self.nodes[a].depth + 1),
            Place::Before(_) => (a, self.nodes[a].depth),
            Place::After(_) => (self.subtree_end(a), self.nodes[a].depth),
        };
        assert(at == place_index(rest, place));
        assert(base == place_depth(rest, place));
        match self.scan_up(base, at) {
            Some(p) => {
                self.nodes[p].pending.layout = true;
            },
            None => {},
        }
        assert(nodes_view(self.nodes@) =~= touch_parent(
            rest,
            scan_parent(rest, base as usize, at - 1),
        ));
        self.put_run(run, at, base, Ghost(rest));
    }

    /// Moves a node to a place with everything below it: below a parent
    /// after its other children, or next to a sibling. A move that cannot
    /// be made changes nothing: the tree must hold the node and the anchor
    /// of the place, the anchor must not be the node or lie below it, and
    /// a sibling to move next to must have a parent.
    pub fn move_node(&mut self, id: u64, place: Place)
        requires
            old(self).wf(),
        ensures
            final(self)@ == moved(old(self)@, id, place),
            final(self).wf(),
    {
        proof {
            lemma_moved_wf(self@, id, place);
        }
        let ghost before = self@;
        match self.check_move(id, place) {
            None => {},
            Some((i, end)) => {
                proof {
                    lemma_move_fits(before, id, place);
                    lemma_index_of(before, i as int);
                }
                assert(before[i as int].id == id);
                let run = self.detach(i, end);
                self.attach(run, place);
            },
        }
    }
}

} // verus!
