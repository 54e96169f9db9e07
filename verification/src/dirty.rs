use vstd::prelude::*;

verus! {

/// What must repaint, as a mathematical value: everything, or a set of
/// node handles.
pub enum DirtyView {
    All,
    Nodes(Set<u64>),
}

impl DirtyView {
    /// The bottom element: nothing is stale.
    pub open spec fn bottom() -> DirtyView {
        DirtyView::Nodes(Set::empty())
    }

    /// Whether nothing is stale.
    pub open spec fn is_bottom(self) -> bool {
        match self {
            DirtyView::All => false,
            DirtyView::Nodes(s) => s =~= Set::empty(),
        }
    }

    /// Whether a handle is reported as stale.
    pub open spec fn covers(self, handle: u64) -> bool {
        match self {
            DirtyView::All => true,
            DirtyView::Nodes(s) => s.contains(handle),
        }
    }

    /// The value after one more handle was marked.
    pub open spec fn mark(self, handle: u64) -> DirtyView {
        match self {
            DirtyView::All => DirtyView::All,
            DirtyView::Nodes(s) => DirtyView::Nodes(s.insert(handle)),
        }
    }

    /// The value after each handle of a set was marked.
    pub open spec fn mark_each(self, handles: Set<u64>) -> DirtyView {
        match self {
            DirtyView::All => DirtyView::All,
            DirtyView::Nodes(s) => DirtyView::Nodes(s.union(handles)),
        }
    }

    /// The value after a handle was dropped.
    pub open spec fn forget(self, handle: u64) -> DirtyView {
        match self {
            DirtyView::All => DirtyView::All,
            DirtyView::Nodes(s) => DirtyView::Nodes(s.remove(handle)),
        }
    }

    /// The value after the first `n` handles of a list were dropped.
    pub open spec fn forget_each(self, gone: Seq<u64>, n: int) -> DirtyView
        decreases n,
    {
        if n <= 0 {
            self
        } else {
            self.forget_each(gone, n - 1).forget(gone[n - 1])
        }
    }

    /// The join of two values: `All` absorbs, sets unite.
    pub open spec fn union(self, other: DirtyView) -> DirtyView {
        match (self, other) {
            (DirtyView::Nodes(a), DirtyView::Nodes(b)) => DirtyView::Nodes(a.union(b)),
            _ => DirtyView::All,
        }
    }

    /// Two values that report the same handles and agree on being `All`.
    pub open spec fn same(self, other: DirtyView) -> bool {
        match (self, other) {
            (DirtyView::All, DirtyView::All) => true,
            (DirtyView::Nodes(a), DirtyView::Nodes(b)) => a =~= b,
            _ => false,
        }
    }
}

/// The nodes whose visual output requires repainting.
#[derive(Debug)]
pub enum DirtyNodes {
    All,
    Nodes(Vec<u64>),
}

impl View for DirtyNodes {
    type V = DirtyView;

    open spec fn view(&self) -> DirtyView {
        match self {
            DirtyNodes::All => DirtyView::All,
            DirtyNodes::Nodes(v) => DirtyView::Nodes(v@.to_set()),
        }
    }
}

impl Default for DirtyNodes {
    fn default() -> (r: Self)
        ensures
            r@ == DirtyView::bottom(),
    {
        let v: Vec<u64> = Vec::new();
        assert(v@.to_set() =~= Set::<u64>::empty());
        DirtyNodes::Nodes(v)
    }
}

impl DirtyNodes {
    /// Nothing is stale.
    pub fn empty() -> (r: Self)
        ensures
            r@ == DirtyView::bottom(),
    {
        let v: Vec<u64> = Vec::new();
        assert(v@.to_set() =~= Set::<u64>::empty());
        DirtyNodes::Nodes(v)
    }

    /// True only for the bottom element.
    pub fn is_empty(&self) -> (r: bool)
        ensures
            r == self@.is_bottom(),
            r == (self@ == DirtyView::bottom()),
    {
        match self {
            DirtyNodes::All => false,
            DirtyNodes::Nodes(v) => {
                proof {
                    if v@.len() == 0 {
                        assert(v@.to_set() =~= Set::<u64>::empty());
                    } else {
                        assert(v@.to_set().contains(v@[0]));
                    }
                }
                v.is_empty()
            },
        }
    }

    /// Everything is stale from now on, whatever is marked later.
    pub fn mark_all(&mut self)
        ensures
            final(self)@ == DirtyView::All,
    {
        *self = DirtyNodes::All;
    }

    /// Adds one handle; `All` stays `All`.
    pub fn mark(&mut self, handle: u64)
        ensures
            final(self)@ == old(self)@.mark(handle),
    {
        match self {
            DirtyNodes::All => {},
            DirtyNodes::Nodes(v) => {
                let ghost before = v@;
                v.push(handle);
                assert(before.push(handle).to_set() =~= before.to_set().insert(handle)) by {
                    lemma_push_to_set(before, handle);
                }
            },
        }
    }

    /// Whether a handle is reported as stale.
    pub fn covers(&self, handle: u64) -> (r: bool)
        ensures
            r == self@.covers(handle),
    {
        match self {
            DirtyNodes::All => true,
            DirtyNodes::Nodes(v) => list_contains(v, handle),
        }
    }

    /// Adds every handle of a list; `All` stays `All`.
    pub fn extend(&mut self, handles: &Vec<u64>)
        ensures
            final(self)@ == old(self)@.mark_each(handles@.to_set()),
    {
        match self {
            DirtyNodes::All => {},
            DirtyNodes::Nodes(v) => {
                let ghost before = v@;
                let mut i: usize = 0;
                while i < handles.len()
                    invariant
                        i <= handles.len(),
                        v@ == before + handles@.subrange(0, i as int),
                    decreases handles.len() - i,
                {
                    v.push(handles[i]);
                    assert(v@ =~= before + handles@.subrange(0, i + 1));
                    i = i + 1;
                }
                assert(handles@.subrange(0, i as int) =~= handles@);
                assert((before + handles@).to_set() =~= before.to_set().union(handles@.to_set())) by {
                    lemma_concat_to_set(before, handles@);
                }
            },
        }
    }

    /// Reads the value and resets it to the bottom element in one step.
    pub fn take(&mut self) -> (r: Self)
        ensures
            r == *old(self),
            final(self)@ == DirtyView::bottom(),
    {
        let v: Vec<u64> = Vec::new();
        assert(v@.to_set() =~= Set::<u64>::empty());
        let mut taken = DirtyNodes::Nodes(v);
        std::mem::swap(self, &mut taken);
        taken
    }

    /// Drops a handle whose node has left the tree; `All` stays `All`.
    pub fn forget(&mut self, handle: u64)
        ensures
            final(self)@ == old(self)@.forget(handle),
    {
        match self {
            DirtyNodes::All => {},
            DirtyNodes::Nodes(v) => {
                let ghost before = v@;
                let mut kept: Vec<u64> = Vec::new();
                let mut i: usize = 0;
                assert(kept@.to_set() =~= before.subrange(0, 0).to_set().remove(handle));
                while i < v.len()
                    invariant
                        i <= v.len(),
                        v@ == before,
                        kept@.to_set() == before.subrange(0, i as int).to_set().remove(handle),
                    decreases v.len() - i,
                {
                    let x = v[i];
                    proof {
                        assert(before.subrange(0, i + 1) =~= before.subrange(0, i as int).push(x));
                        lemma_push_to_set(before.subrange(0, i as int), x);
                        lemma_push_to_set(kept@, x);
                    }
                    if x != handle {
                        kept.push(x);
                    }
                    assert(kept@.to_set() =~= before.subrange(0, i + 1).to_set().remove(handle));
                    i = i + 1;
                }
                assert(before.subrange(0, i as int) =~= before);
                *v = kept;
            },
        }
    }

    /// Drops every handle of a list; `All` stays `All`.
    pub fn forget_list(&mut self, gone: &Vec<u64>)
        ensures
            final(self)@ == old(self)@.forget_each(gone@, gone@.len() as int),
    {
        let mut n: usize = 0;
        while n < gone.len()
            invariant
                n <= gone.len(),
                self@ == old(self)@.forget_each(gone@, n as int),
            decreases gone.len() - n,
        {
            self.forget(gone[n]);
            n = n + 1;
        }
    }
}

/// `All` absorbs every later mark, and nothing is ever dropped from it.
pub proof fn lemma_all_absorbs(other: DirtyView, handle: u64, handles: Set<u64>, gone: Seq<u64>, n: int)
    ensures
        DirtyView::All.union(other) == DirtyView::All,
        other.union(DirtyView::All) == DirtyView::All,
        DirtyView::All.mark(handle) == DirtyView::All,
        DirtyView::All.mark_each(handles) == DirtyView::All,
        DirtyView::All.forget_each(gone, n) == DirtyView::All,
    decreases n,
{
    if n > 0 {
        lemma_all_absorbs(other, handle, handles, gone, n - 1);
    }
}

/// The join is a monoid with the bottom element as its unit: it is
/// associative and commutative, and joining with the bottom changes nothing.
pub proof fn lemma_union_monoid(a: DirtyView, b: DirtyView, c: DirtyView)
    ensures
        a.union(DirtyView::bottom()).same(a),
        DirtyView::bottom().union(a).same(a),
        a.union(b).same(b.union(a)),
        a.union(b).union(c).same(a.union(b.union(c))),
{
}

/// A mark is never lost: whatever a value reports, it still reports after
/// more handles were marked, and it reports each of them.
pub proof fn lemma_mark_grows(d: DirtyView, handles: Set<u64>, h: u64)
    ensures
        d.covers(h) ==> d.mark_each(handles).covers(h),
        handles.contains(h) ==> d.mark_each(handles).covers(h),
        d.mark(h).covers(h),
{
}

/// Whether a list holds a handle.
pub fn list_contains(list: &Vec<u64>, handle: u64) -> (r: bool)
    ensures
        r == list@.contains(handle),
        r == list@.to_set().contains(handle),
{
    let mut i: usize = 0;
    while i < list.len()
        invariant
            i <= list.len(),
            forall|k: int| 0 <= k < i ==> list@[k] != handle,
        decreases list.len() - i,
    {
        if list[i] == handle {
            assert(list@[i as int] == handle);
            return true;
        }
        i = i + 1;
    }
    false
}

/// A sequence with one more item reports that item and what it reported before.
pub proof fn lemma_push_contains(s: Seq<u64>, x: u64, y: u64)
    ensures
        s.push(x).contains(y) <==> (y == x || s.contains(y)),
{
    if s.push(x).contains(y) {
        let k = choose|k: int| 0 <= k < s.push(x).len() && s.push(x)[k] == y;
        if k < s.len() {
            assert(s[k] == y);
        }
    }
    if s.contains(y) {
        let k = choose|k: int| 0 <= k < s.len() && s[k] == y;
        assert(s.push(x)[k] == y);
    }
    if y == x {
        assert(s.push(x)[s.len() as int] == y);
    }
}

/// Pushing onto a sequence inserts into its set of items.
pub proof fn lemma_push_to_set(s: Seq<u64>, x: u64)
    ensures
        s.push(x).to_set() =~= s.to_set().insert(x),
{
    assert forall|y: u64| s.push(x).to_set().contains(y) <==> s.to_set().insert(x).contains(y) by {
        lemma_push_contains(s, x, y);
    }
}

/// The items of a concatenation are the items of its parts.
pub proof fn lemma_concat_to_set(a: Seq<u64>, b: Seq<u64>)
    ensures
        (a + b).to_set() =~= a.to_set().union(b.to_set()),
{
    assert forall|y: u64| (a + b).to_set().contains(y) <==> a.to_set().union(b.to_set()).contains(y) by {
        if (a + b).contains(y) {
            let k = choose|k: int| 0 <= k < (a + b).len() && (a + b)[k] == y;
            if k < a.len() {
                assert(a[k] == y);
            } else {
                assert(b[k - a.len()] == y);
            }
        }
        if a.contains(y) {
            let k = choose|k: int| 0 <= k < a.len() && a[k] == y;
            assert((a + b)[k] == y);
        }
        if b.contains(y) {
            let k = choose|k: int| 0 <= k < b.len() && b[k] == y;
            assert((a + b)[a.len() + k] == y);
        }
    }
}

} // verus!
