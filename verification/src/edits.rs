use vstd::prelude::*;
use crate::model::{MutationModel, Place};
use crate::tree::{batch_view, Mutation};

verus! {

/// The handle of the document root: the node that nodes are appended to
/// where the stack holds no parent for them.
pub const ROOT_ID: u64 = 0;

/// One instruction of the edit stream of a UI engine that builds its
/// nodes on a stack: a node is created and pushed, and the nodes on top
/// of the stack are then appended to the node below them, or put next to
/// a node of the document.
#[derive(Debug)]
pub enum Edit {
    /// Push a node of the document.
    PushRoot { root: u64 },
    /// Drop the node on top of the stack.
    PopRoot,
    /// Append the `many` nodes on top to the node below them.
    AppendChildren { many: u32 },
    /// Put the `m` nodes on top in the place of `root`, which leaves.
    ReplaceWith { root: u64, m: u32 },
    /// Put the `n` nodes on top after `root`.
    InsertAfter { root: u64, n: u32 },
    /// Put the `n` nodes on top before `root`.
    InsertBefore { root: u64, n: u32 },
    /// Remove a node with everything below it.
    Remove { root: u64 },
    /// Create a text node and push it.
    CreateTextNode { root: u64, text: String },
    /// Create an element, or a placeholder, and push it.
    CreateElement { root: u64 },
    /// Replace the text of a node.
    SetText { root: u64, text: String },
    /// Write an attribute.
    SetAttribute { root: u64, name: String, value: String },
    /// Remove an attribute.
    RemoveAttribute { root: u64, name: String },
}

/// One instruction of the edit stream, as a mathematical value.
pub ghost enum EditModel {
    PushRoot { root: u64 },
    PopRoot,
    AppendChildren { many: u32 },
    ReplaceWith { root: u64, m: u32 },
    InsertAfter { root: u64, n: u32 },
    InsertBefore { root: u64, n: u32 },
    Remove { root: u64 },
    CreateTextNode { root: u64, text: Seq<char> },
    CreateElement { root: u64 },
    SetText { root: u64, text: Seq<char> },
    SetAttribute { root: u64, name: Seq<char>, value: Seq<char> },
    RemoveAttribute { root: u64, name: Seq<char> },
}

impl View for Edit {
    type V = EditModel;

    open spec fn view(&self) -> EditModel {
        match self {
            Edit::PushRoot { root } => EditModel::PushRoot { root: *root },
            Edit::PopRoot => EditModel::PopRoot,
            Edit::AppendChildren { many } => EditModel::AppendChildren { many: *many },
            Edit::ReplaceWith { root, m } => EditModel::ReplaceWith { root: *root, m: *m },
            Edit::InsertAfter { root, n } => EditModel::InsertAfter { root: *root, n: *n },
            Edit::InsertBefore { root, n } => EditModel::InsertBefore { root: *root, n: *n },
            Edit::Remove { root } => EditModel::Remove { root: *root },
            Edit::CreateTextNode { root, text } => EditModel::CreateTextNode { root: *root, text: text@ },
            Edit::CreateElement { root } => EditModel::CreateElement { root: *root },
            Edit::SetText { root, text } => EditModel::SetText { root: *root, text: text@ },
            Edit::SetAttribute { root, name, value } => EditModel::SetAttribute {
                root: *root,
                name: name@,
                value: value@,
            },
            Edit::RemoveAttribute { root, name } => EditModel::RemoveAttribute { root: *root, name: name@ },
        }
    }
}

/// The views of the instructions of a stream.
pub open spec fn edits_view(edits: Seq<Edit>) -> Seq<EditModel> {
    edits.map_values(|e: Edit| e@)
}

/// How many of the `wanted` nodes on top the stack holds.
pub open spec fn taken(stack: Seq<u64>, wanted: u32) -> int {
    if wanted <= stack.len() {
        wanted as int
    } else {
        stack.len() as int
    }
}

/// The stack without its `wanted` top nodes.
pub open spec fn below(stack: Seq<u64>, wanted: u32) -> Seq<u64> {
    stack.subrange(0, stack.len() - taken(stack, wanted))
}

/// The `wanted` top nodes of the stack, the lowest first.
pub open spec fn top(stack: Seq<u64>, wanted: u32) -> Seq<u64> {
    stack.subrange(stack.len() - taken(stack, wanted), stack.len() as int)
}

/// The moves that put each of `ids` at the same place, in order.
pub open spec fn moves_to(ids: Seq<u64>, place: Place) -> Seq<MutationModel> {
    Seq::new(ids.len(), |k: int| MutationModel::NodeMoved { id: ids[k], place })
}

/// The moves that put `ids` after `root` in their order: the first after
/// `root`, and each other one after the one before it.
pub open spec fn moves_after(ids: Seq<u64>, root: u64) -> Seq<MutationModel> {
    Seq::new(
        ids.len(),
        |k: int|
            MutationModel::NodeMoved {
                id: ids[k],
                place: Place::After(
                    if k == 0 {
                        root
                    } else {
                        ids[k - 1]
                    },
                ),
            },
    )
}

/// The stack after one instruction.
pub open spec fn stack_after(stack: Seq<u64>, e: EditModel) -> Seq<u64> {
    match e {
        EditModel::PushRoot { root } => stack.push(root),
        EditModel::PopRoot => if stack.len() > 0 {
            stack.drop_last()
        } else {
            stack
        },
        EditModel::AppendChildren { many } => below(stack, many),
        EditModel::ReplaceWith { root, m } => below(stack, m),
        EditModel::InsertAfter { root, n } => below(stack, n),
        EditModel::InsertBefore { root, n } => below(stack, n),
        EditModel::CreateTextNode { root, text } => stack.push(root),
        EditModel::CreateElement { root } => stack.push(root),
        _ => stack,
    }
}

/// The mutations that one instruction stands for. A created node is
/// detached until it is appended or put next to a node; appended nodes go
/// below the node under them on the stack, or below the document root
/// where the stack holds none.
pub open spec fn mutations_of(stack: Seq<u64>, e: EditModel) -> Seq<MutationModel> {
    match e {
        EditModel::PushRoot { root } => Seq::empty(),
        EditModel::PopRoot => Seq::empty(),
        EditModel::AppendChildren { many } => moves_to(
            top(stack, many),
            Place::LastChildOf(
                if below(stack, many).len() > 0 {
                    below(stack, many).last()
                } else {
                    ROOT_ID
                },
            ),
        ),
        EditModel::ReplaceWith { root, m } => moves_to(top(stack, m), Place::Before(root)).push(
            MutationModel::NodeRemoved { id: root },
        ),
        EditModel::InsertAfter { root, n } => moves_after(top(stack, n), root),
        EditModel::InsertBefore { root, n } => moves_to(top(stack, n), Place::Before(root)),
        EditModel::Remove { root } => seq![MutationModel::NodeRemoved { id: root }],
        EditModel::CreateTextNode { root, text } => seq![
            MutationModel::NodeAdded { id: root, parent: None },
            MutationModel::TextChanged { id: root, text },
        ],
        EditModel::CreateElement { root } => seq![MutationModel::NodeAdded { id: root, parent: None }],
        EditModel::SetText { root, text } => seq![MutationModel::TextChanged { id: root, text }],
        EditModel::SetAttribute { root, name, value } => seq![
            MutationModel::AttributeChanged { id: root, name, value: Some(value) },
        ],
        EditModel::RemoveAttribute { root, name } => seq![
            MutationModel::AttributeChanged { id: root, name, value: None },
        ],
    }
}

/// The stack after the first `n` instructions of a stream.
pub open spec fn stack_after_first(stack: Seq<u64>, edits: Seq<EditModel>, n: int) -> Seq<u64>
    decreases n,
{
    if n <= 0 {
        stack
    } else {
        stack_after(stack_after_first(stack, edits, n - 1), edits[n - 1])
    }
}

/// The mutations that the first `n` instructions of a stream stand for.
pub open spec fn mutations_of_first(stack: Seq<u64>, edits: Seq<EditModel>, n: int) -> Seq<MutationModel>
    decreases n,
{
    if n <= 0 {
        Seq::empty()
    } else {
        mutations_of_first(stack, edits, n - 1) + mutations_of(
            stack_after_first(stack, edits, n - 1),
            edits[n - 1],
        )
    }
}

/// The stack of nodes that the edit stream of a UI engine works on. It
/// lives as long as the engine: a stream may leave nodes on it for the
/// next one.
#[derive(Debug)]
pub struct EditStack {
    pub stack: Vec<u64>,
}

impl EditStack {
    /// An empty stack.
    pub fn new() -> (r: Self)
        ensures
            r.stack@.len() == 0,
    {
        EditStack { stack: Vec::new() }
    }

    /// Takes the `wanted` top nodes off the stack, or all where it holds
    /// fewer, and returns them, the lowest first.
    pub fn take_top(&mut self, wanted: u32) -> (ids: Vec<u64>)
        ensures
            ids@ == top(old(self).stack@, wanted),
            final(self).stack@ == below(old(self).stack@, wanted),
    {
        let len = self.stack.len();
        let count: usize = if (wanted as usize) <= len { wanted as usize } else { len };
        let from = len - count;
        let mut ids: Vec<u64> = Vec::new();
        let mut k: usize = from;
        while k < len
            invariant
                from <= k <= len,
                len == self.stack@.len(),
                ids@ == self.stack@.subrange(from as int, k as int),
            decreases len - k,
        {
            ids.push(self.stack[k]);
            assert(ids@ =~= self.stack@.subrange(from as int, k + 1));
            k = k + 1;
        }
        self.stack.truncate(from);
        ids
    }

    /// The mutations that one instruction stands for; the stack follows.
    pub fn interpret_one(&mut self, edit: &Edit) -> (r: Vec<Mutation>)
        ensures
            batch_view(r@) == mutations_of(old(self).stack@, edit@),
            final(self).stack@ == stack_after(old(self).stack@, edit@),
    {
        let mut out: Vec<Mutation> = Vec::new();
        match edit {
            Edit::PushRoot { root } => {
                self.stack.push(*root);
            },
            Edit::PopRoot => {
                self.stack.pop();
            },
            Edit::AppendChildren { many } => {
                let ids = self.take_top(*many);
                let target = if self.stack.len() > 0 { self.stack[self.stack.len() - 1] } else { ROOT_ID };
                out = move_each(&ids, Place::LastChildOf(target));
            },
            Edit::ReplaceWith { root, m } => {
                let ids = self.take_top(*m);
                out = move_each(&ids, Place::Before(*root));
                let ghost moves = batch_view(out@);
                out.push(Mutation::NodeRemoved { id: *root });
                assert(batch_view(out@) =~= moves.push(MutationModel::NodeRemoved { id: *root }));
            },
            Edit::InsertAfter { root, n } => {
                let ids = self.take_top(*n);
                let mut k: usize = 0;
                while k < ids.len()
                    invariant
                        k <= ids.len(),
                        out@.len() == k,
                        forall|j: int| 0 <= j < k ==> (#[trigger] out@[j])@ == moves_after(ids@, *root)[j],
                    decreases ids.len() - k,
                {
                    let anchor = if k == 0 { *root } else { ids[k - 1] };
                    out.push(Mutation::NodeMoved { id: ids[k], place: Place::After(anchor) });
                    k = k + 1;
                }
            },
            Edit::InsertBefore { root, n } => {
                let ids = self.take_top(*n);
                out = move_each(&ids, Place::Before(*root));
            },
            Edit::Remove { root } => {
                out.push(Mutation::NodeRemoved { id: *root });
            },
            Edit::CreateTextNode { root, text } => {
                out.push(Mutation::NodeAdded { id: *root, parent: None });
                out.push(Mutation::TextChanged { id: *root, text: text.clone() });
                self.stack.push(*root);
            },
            Edit::CreateElement { root } => {
                out.push(Mutation::NodeAdded { id: *root, parent: None });
                self.stack.push(*root);
            },
            Edit::SetText { root, text } => {
                out.push(Mutation::TextChanged { id: *root, text: text.clone() });
            },
            Edit::SetAttribute { root, name, value } => {
                out.push(
                    Mutation::AttributeChanged { id: *root, name: name.clone(), value: Some(value.clone()) },
                );
            },
            Edit::RemoveAttribute { root, name } => {
                out.push(Mutation::AttributeChanged { id: *root, name: name.clone(), value: None });
            },
        }
        assert(batch_view(out@) =~= mutations_of(old(self).stack@, edit@));
        out
    }

    /// The mutation batch that an edit stream stands for; the stack
    /// follows the stream.
    pub fn interpret(&mut self, edits: &Vec<Edit>) -> (r: Vec<Mutation>)
        ensures
            batch_view(r@) == mutations_of_first(old(self).stack@, edits_view(edits@), edits@.len() as int),
            final(self).stack@ == stack_after_first(old(self).stack@, edits_view(edits@), edits@.len() as int),
    {
        let ghost start = self.stack@;
        let mut out: Vec<Mutation> = Vec::new();
        let mut n: usize = 0;
        assert(batch_view(out@) =~= mutations_of_first(start, edits_view(edits@), 0));
        while n < edits.len()
            invariant
                n <= edits.len(),
                batch_view(out@) == mutations_of_first(start, edits_view(edits@), n as int),
                self.stack@ == stack_after_first(start, edits_view(edits@), n as int),
            decreases edits.len() - n,
        {
            assert(edits_view(edits@)[n as int] == edits@[n as int]@);
            let ghost earlier = out@;
            let mut more = self.interpret_one(&edits[n]);
            let ghost added = more@;
            out.append(&mut more);
            assert(batch_view(out@) =~= batch_view(earlier) + batch_view(added));
            n = n + 1;
        }
        out
    }
}

/// The moves that put each of `ids` at the same place, in order.
pub fn move_each(ids: &Vec<u64>, place: Place) -> (r: Vec<Mutation>)
    ensures
        batch_view(r@) == moves_to(ids@, place),
{
    let mut out: Vec<Mutation> = Vec::new();
    let mut k: usize = 0;
    while k < ids.len()
        invariant
            k <= ids.len(),
            out@.len() == k,
            forall|j: int| 0 <= j < k ==> (#[trigger] out@[j])@ == moves_to(ids@, place)[j],
        decreases ids.len() - k,
    {
        out.push(Mutation::NodeMoved { id: ids[k], place });
        k = k + 1;
    }
    assert(batch_view(out@) =~= moves_to(ids@, place));
    out
}

} // verus!
