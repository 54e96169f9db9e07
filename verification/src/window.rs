use vstd::prelude::*;
use crate::dirty::{DirtyNodes, DirtyView};
use crate::edits::ROOT_ID;
use crate::focus::{
    focus_target, focus_touched, focused_at, lemma_focused_at, lemma_pruned_first_in_tree,
    lost_first, pruned_first, FocusState,
};
use crate::model::{has_id, index_of, lemma_index_of, lemma_same_ids, well_formed};
use crate::mutation::{applied_all, applied_first, dropped_first, fresh, lemma_applied_first_wf};
use crate::reducer::{
    geometry_changed, lemma_geometry_changed_sound, lemma_to_rerender_sound, reduced, requests_from,
    resolved, to_rerender, Solved,
};
use crate::state::Size;
use crate::tracking::{
    flags_agree, lemma_batch_keeps_agreement, lemma_batch_keeps_state, state_of, survives,
};
use crate::tree::{batch_view, requests_view, MeasureRequest, Mutation, ShadowTree};

verus! {

/// The three phases of the wake-up protocol, each addressed by the
/// identity of its window.
#[derive(Debug, Clone, Copy, PartialEq, Eq, Structural)]
pub enum RendererEvent {
    /// Host loop to window task: build a paint payload for this size.
    Redraw(u64, Size),
    /// Renderer to host loop: a submitted frame is ready to be presented.
    Rerender(u64),
    /// Window task to host loop: the content became stale.
    Dirty(u64),
}

/// The modifier keys that are held down.
#[derive(Debug, Clone, Copy, PartialEq, Eq, Structural)]
pub struct Modifiers {
    pub alt: bool,
    pub ctrl: bool,
    pub meta: bool,
    pub shift: bool,
}

/// The keys that the window task tells apart.
#[derive(Debug, Clone, Copy, PartialEq, Eq, Structural)]
pub enum Key {
    Tab,
    Other,
}

/// One inbound event of the window task.
#[derive(Debug, Clone, Copy, PartialEq, Eq, Structural)]
pub enum TaskEvent {
    CloseRequested { window: u64 },
    /// A key went down or up; `key` is `None` where the system named none.
    KeyboardInput { window: u64, key: Option<Key>, pressed: bool },
    ModifiersChanged { window: u64, modifiers: Modifiers },
    Resized { window: u64, size: Size },
    /// A phase of the wake-up protocol.
    User(RendererEvent),
    /// Anything else.
    Other,
}

/// The names of the key events that the UI engine receives.
#[derive(Debug, Clone, Copy, PartialEq, Eq, Structural)]
pub enum KeyEventName {
    KeyPress,
    KeyDown,
    KeyUp,
}

impl KeyEventName {
    /// The event name as the UI engine knows it.
    pub fn name(&self) -> (r: &'static str)
        ensures
            r@ == match *self {
                KeyEventName::KeyPress => "keypress"@,
                KeyEventName::KeyDown => "keydown"@,
                KeyEventName::KeyUp => "keyup"@,
            },
    {
        match self {
            KeyEventName::KeyPress => "keypress",
            KeyEventName::KeyDown => "keydown",
            KeyEventName::KeyUp => "keyup",
        }
    }
}

/// An input event for the UI engine, with the node that it is meant for.
#[derive(Debug, Clone, Copy, PartialEq, Eq, Structural)]
pub struct KeyEvent {
    pub name: KeyEventName,
    pub element: Option<u64>,
}

/// A paint payload to build and submit: its size and its generation.
#[derive(Debug, Clone, Copy, PartialEq, Eq, Structural)]
pub struct PaintRequest {
    pub size: Size,
    pub epoch: u32,
}

/// What the caller does after an inbound event was handled.
#[derive(Debug)]
pub struct EventOutcome {
    /// The input events to inject into the UI engine, in firing order.
    pub key_events: Vec<KeyEvent>,
    /// The paint payload to build and submit, if one is due.
    pub render: Option<PaintRequest>,
    /// The signal to send to the host loop.
    pub signal: Option<RendererEvent>,
}

/// What the caller does after a mutation batch was processed.
#[derive(Debug)]
pub struct BatchOutcome {
    /// The requests to push to the box-model solver, children before parents.
    pub requests: Vec<MeasureRequest>,
    /// The handles that left the tree: their measurement nodes can go.
    pub removed: Vec<u64>,
    /// The size to compute the layout for, where a layout pass is due.
    pub layout: Option<Size>,
}

/// The node that key presses are addressed to: the first element of the
/// document.
pub const KEYPRESS_TARGET: u64 = 1;

/// The state of the window task: it owns the shadow tree, the focus state
/// and the dirty set of one window.
#[derive(Debug)]
pub struct WindowTask {
    /// The identity of the window.
    pub id: u64,
    /// The size that the layout was last computed for.
    pub size: Size,
    /// The new size, while a resize waits to be resolved.
    pub resize: Option<Size>,
    /// Whether a layout pass was asked for and has not succeeded yet.
    pub relayout: bool,
    /// False once the window was asked to close.
    pub running: bool,
    pub modifiers: Modifiers,
    pub focus: FocusState,
    pub tree: ShadowTree,
    pub dirty_nodes: DirtyNodes,
    /// The generation of the last paint payload.
    pub epoch: u32,
}

/// The generation after `epoch`; the counter never goes back.
pub open spec fn next_epoch(epoch: u32) -> u32 {
    if epoch < u32::MAX {
        (epoch + 1) as u32
    } else {
        epoch
    }
}

impl WindowTask {
    /// The invariant of the task: the tree is well formed, the focus
    /// target, if there is one, is a node of the tree, and no other node
    /// is focused.
    pub open spec fn wf(&self) -> bool {
        &&& self.tree.wf()
        &&& self.focus.last_focused_id matches Some(h) ==> has_id(self.tree@, h)
        &&& flags_agree(self.tree@, self.focus.last_focused_id)
    }

    /// Whether a paint is due: the focus changed or something is stale.
    pub open spec fn paint_due(&self) -> bool {
        self.focus.dirty || !self.dirty_nodes@.is_bottom()
    }

    /// Whether everything but the tree, the focus and the dirty set is as
    /// in `other`.
    pub open spec fn same_frame(&self, other: &WindowTask) -> bool {
        &&& self.id == other.id
        &&& self.size == other.size
        &&& self.resize == other.resize
        &&& self.relayout == other.relayout
        &&& self.running == other.running
        &&& self.modifiers == other.modifiers
        &&& self.epoch == other.epoch
    }

    /// Whether the tree, the focus and the dirty set are as in `other`.
    pub open spec fn same_content(&self, other: &WindowTask) -> bool {
        &&& self.tree@ == other.tree@
        &&& self.focus == other.focus
        &&& self.dirty_nodes@ == other.dirty_nodes@
    }

    /// What handling a key does. A press fires `keypress`; a press of the
    /// tab key then moves the focus to the next node of the tab order,
    /// or to the one before where shift is held; then `keydown` (or
    /// `keyup` for a release) goes to the focused node. Where the focus
    /// moved, the target is the one focused node, it and the node that
    /// lost the focus are stale, and the host loop is told so.
    pub open spec fn key_handled(before: WindowTask, after: WindowTask, key: Key, pressed: bool, r: EventOutcome) -> bool {
        let target = focus_target(before.tree@, before.focus.last_focused_id, !before.modifiers.shift);
        let moves = pressed && key == Key::Tab && target is Some;
        let last = KeyEvent {
            name: if pressed { KeyEventName::KeyDown } else { KeyEventName::KeyUp },
            element: after.focus.last_focused_id,
        };
        &&& after.same_frame(&before)
        &&& r.render is None
        &&& r.key_events@ == (if pressed {
            seq![KeyEvent { name: KeyEventName::KeyPress, element: Some(KEYPRESS_TARGET) }, last]
        } else {
            seq![last]
        })
        &&& r.signal == (if moves { Some(RendererEvent::Dirty(before.id)) } else { None })
        &&& !moves ==> after.same_content(&before)
        &&& moves ==> {
            let t = target->0;
            &&& after.tree@ == focused_at(before.tree@, t)
            &&& after.focus.last_focused_id == Some(before.tree@[t].id)
            &&& after.focus.dirty == (before.focus.dirty || before.focus.last_focused_id != Some(before.tree@[t].id))
            &&& after.dirty_nodes@ == before.dirty_nodes@.mark_each(
                focus_touched(before.tree@, t, before.tree@.len() as int).to_set(),
            )
        }
    }

    /// What handling the second phase of the wake-up protocol does: where
    /// a paint is due, a payload of the next generation is to be built;
    /// either way nothing is stale afterwards.
    pub open spec fn redraw_handled(before: WindowTask, after: WindowTask, size: Size, r: EventOutcome) -> bool {
        &&& after.same_frame(
            &WindowTask {
                epoch: if before.paint_due() { next_epoch(before.epoch) } else { before.epoch },
                ..before
            },
        )
        &&& after.tree@ == before.tree@
        &&& after.focus == (FocusState { dirty: false, ..before.focus })
        &&& after.dirty_nodes@ == DirtyView::bottom()
        &&& r.key_events@.len() == 0
        &&& r.signal is None
        &&& r.render == (if before.paint_due() {
            Some(PaintRequest { size, epoch: next_epoch(before.epoch) })
        } else {
            None
        })
    }

    /// An event that changes neither the tree nor the focus nor the dirty
    /// set, and asks nothing of the caller.
    pub open spec fn quiet(before: WindowTask, after: WindowTask, r: EventOutcome) -> bool {
        &&& after.same_content(&before)
        &&& r.key_events@.len() == 0
        &&& r.render is None
        &&& r.signal is None
    }

    /// The task of a new window. The tree holds the document root and
    /// nothing else, nothing is focused, and the first frame is laid out
    /// and painted in full: the initial size waits as a resize, and
    /// everything counts as stale.
    pub fn new(id: u64, size: Size) -> (r: Self)
        ensures
            r.wf(),
            r.id == id,
            r.size == size,
            r.resize == Some(size),
            !r.relayout,
            r.running,
            r.modifiers == (Modifiers { alt: false, ctrl: false, meta: false, shift: false }),
            r.focus == (FocusState { last_focused_id: None, dirty: false }),
            r.tree@ == seq![fresh(ROOT_ID, 0)],
            r.dirty_nodes@ == DirtyView::All,
            r.epoch == 0,
    {
        let mut tree = ShadowTree::new();
        tree.add_node(ROOT_ID, None);
        assert(tree@ =~= seq![fresh(ROOT_ID, 0)]);
        WindowTask {
            id,
            size,
            resize: Some(size),
            relayout: false,
            running: true,
            modifiers: Modifiers { alt: false, ctrl: false, meta: false, shift: false },
            focus: FocusState { last_focused_id: None, dirty: false },
            tree,
            dirty_nodes: DirtyNodes::All,
            epoch: 0,
        }
    }

    /// Whether the loop goes on.
    pub fn is_running(&self) -> (r: bool)
        ensures
            r == self.running,
    {
        self.running
    }

    /// Whether a unit of mutation work is to be requested from the UI
    /// engine: a resize or a layout pass waits, or the engine has work.
    pub fn needs_work(&self, engine_has_work: bool) -> (r: bool)
        ensures
            r == (self.resize is Some || self.relayout || engine_has_work),
    {
        self.resize.is_some() || self.relayout || engine_has_work
    }

    /// Handles a key that went down or up. A press fires `keypress`; a
    /// press of the tab key then moves the focus, back where shift is
    /// held; then `keydown` or `keyup` goes to the focused node. Where the
    /// focus moved, the host loop is told that the content became stale.
    pub fn handle_key(&mut self, key: Key, pressed: bool) -> (r: EventOutcome)
        requires
            old(self).wf(),
        ensures
            final(self).wf(),
            Self::key_handled(*old(self), *final(self), key, pressed, r),
    {
        let mut key_events: Vec<KeyEvent> = Vec::new();
        let mut signal: Option<RendererEvent> = None;
        if pressed {
            key_events.push(KeyEvent { name: KeyEventName::KeyPress, element: Some(KEYPRESS_TARGET) });
            if key == Key::Tab {
                let ghost before = self.tree@;
                let ghost target = focus_target(before, self.focus.last_focused_id, !self.modifiers.shift);
                let forward = !self.modifiers.shift;
                let moved = self.focus.progress(&mut self.tree, &mut self.dirty_nodes, forward);
                if moved {
                    proof {
                        lemma_focused_at(before, target->0);
                        lemma_index_of(before, target->0);
                    }
                    signal = Some(RendererEvent::Dirty(self.id));
                }
            }
        }
        let name = if pressed { KeyEventName::KeyDown } else { KeyEventName::KeyUp };
        let last = KeyEvent { name, element: self.focus.last_focused_id };
        key_events.push(last);
        assert(key_events@ =~= (if pressed {
            seq![KeyEvent { name: KeyEventName::KeyPress, element: Some(KEYPRESS_TARGET) }, last]
        } else {
            seq![last]
        }));
        EventOutcome { key_events, render: None, signal }
    }

    /// Handles the second phase of the wake-up protocol: where the focus
    /// changed or something is stale, a paint payload of the next
    /// generation is due; either way nothing is stale afterwards, so a
    /// second request that follows at once paints nothing.
    pub fn handle_redraw(&mut self, size: Size) -> (r: EventOutcome)
        requires
            old(self).wf(),
        ensures
            final(self).wf(),
            Self::redraw_handled(*old(self), *final(self), size, r),
            !final(self).paint_due(),
    {
        let nodes = if self.focus.clean() {
            let _ = self.dirty_nodes.take();
            DirtyNodes::All
        } else {
            self.dirty_nodes.take()
        };
        let mut render: Option<PaintRequest> = None;
        if !nodes.is_empty() {
            if self.epoch < u32::MAX {
                self.epoch = self.epoch + 1;
            }
            render = Some(PaintRequest { size, epoch: self.epoch });
        }
        EventOutcome { key_events: Vec::new(), render, signal: None }
    }

    /// Handles one inbound event. An event of another window, and one that
    /// the task does not know, is discarded.
    pub fn handle_event(&mut self, event: TaskEvent) -> (r: EventOutcome)
        requires
            old(self).wf(),
        ensures
            final(self).wf(),
            match event {
                TaskEvent::CloseRequested { window } if window == old(self).id => {
                    &&& Self::quiet(*old(self), *final(self), r)
                    &&& final(self).same_frame(&WindowTask { running: false, ..*old(self) })
                },
                TaskEvent::ModifiersChanged { window, modifiers } if window == old(self).id => {
                    &&& Self::quiet(*old(self), *final(self), r)
                    &&& final(self).same_frame(&WindowTask { modifiers, ..*old(self) })
                },
                TaskEvent::Resized { window, size } if window == old(self).id => {
                    &&& Self::quiet(*old(self), *final(self), r)
                    &&& final(self).same_frame(&WindowTask { resize: Some(size), ..*old(self) })
                },
                TaskEvent::KeyboardInput { window, key: Some(key), pressed } if window == old(self).id => {
                    Self::key_handled(*old(self), *final(self), key, pressed, r)
                },
                TaskEvent::User(RendererEvent::Redraw(window, size)) if window == old(self).id => {
                    Self::redraw_handled(*old(self), *final(self), size, r)
                },
                _ => {
                    &&& Self::quiet(*old(self), *final(self), r)
                    &&& final(self).same_frame(old(self))
                },
            },
    {
        let id = self.id;
        match event {
            TaskEvent::CloseRequested { window } => {
                if window == id {
                    self.running = false;
                }
            },
            TaskEvent::ModifiersChanged { window, modifiers } => {
                if window == id {
                    self.modifiers = modifiers;
                }
            },
            TaskEvent::Resized { window, size } => {
                if window == id {
                    self.resize = Some(size);
                }
            },
            TaskEvent::KeyboardInput { window, key, pressed } => {
                if window == id {
                    match key {
                        Some(k) => {
                            return self.handle_key(k, pressed);
                        },
                        None => {},
                    }
                }
            },
            TaskEvent::User(RendererEvent::Redraw(window, size)) => {
                if window == id {
                    return self.handle_redraw(size);
                }
            },
            _ => {},
        }
        EventOutcome { key_events: Vec::new(), render: None, signal: None }
    }

    /// Processes one mutation batch: each mutation is announced to the
    /// focus state and then applied to the tree, the handles that left are
    /// dropped from the dirty set, and the reducer runs. Where the reducer
    /// reports a node, or a resize or a layout pass waits, the resize is
    /// resolved (everything counts as stale, the size is updated), the
    /// reducer's report joins the dirty set, and a layout pass for the
    /// current size is due. Every node that stays in the tree through the
    /// batch and whose derived state differs afterwards is reported by the
    /// dirty set.
    pub fn process_batch(&mut self, batch: &Vec<Mutation>) -> (r: BatchOutcome)
        requires
            old(self).wf(),
        ensures
            final(self).wf(),
            ({
                let edits = batch_view(batch@);
                let before = old(self).tree@;
                let structure = applied_all(before, edits);
                let report = to_rerender(structure, 0);
                let gone = dropped_first(before, edits, edits.len() as int);
                let kept = old(self).dirty_nodes@.forget_each(gone, gone.len() as int);
                let pass = report.len() > 0 || old(self).resize is Some || old(self).relayout;
                &&& final(self).tree@ == reduced(structure)
                &&& final(self).focus.last_focused_id == pruned_first(
                    before,
                    old(self).focus.last_focused_id,
                    edits,
                    edits.len() as int,
                )
                &&& final(self).focus.dirty == (old(self).focus.dirty || lost_first(
                    before,
                    old(self).focus.last_focused_id,
                    edits,
                    edits.len() as int,
                ))
                &&& requests_view(r.requests@) == requests_from(structure, 0)
                &&& r.removed@ == gone
                &&& r.layout == (if pass { Some(final(self).size) } else { None })
                &&& final(self).relayout == pass
                &&& final(self).resize is None
                &&& final(self).size == (match old(self).resize {
                    Some(s) => s,
                    None => old(self).size,
                })
                &&& final(self).dirty_nodes@ == (if old(self).resize is Some {
                    DirtyView::All
                } else {
                    kept.mark_each(report.to_set())
                })
                &&& forall|h: u64| report.contains(h) ==> final(self).dirty_nodes@.covers(h)
                &&& forall|k: int|
                    0 <= k < structure.len() && (#[trigger] final(self).tree@[k]).state != structure[k].state
                        ==> final(self).dirty_nodes@.covers(structure[k].id)
                &&& forall|h: u64|
                    #[trigger] survives(before, edits, edits.len() as int, h) && state_of(final(self).tree@, h)
                        != state_of(before, h) ==> final(self).dirty_nodes@.covers(h)
                &&& final(self).id == old(self).id
                &&& final(self).running == old(self).running
                &&& final(self).modifiers == old(self).modifiers
                &&& final(self).epoch == old(self).epoch
            }),
    {
        let ghost before = self.tree@;
        let ghost current = self.focus.last_focused_id;
        let ghost edits = batch_view(batch@);
        let mut removed: Vec<u64> = Vec::new();
        let mut n: usize = 0;
        while n < batch.len()
            invariant
                n <= batch.len(),
                edits == batch_view(batch@),
                well_formed(before),
                current matches Some(h) ==> has_id(before, h),
                flags_agree(before, current),
                self.tree.wf(),
                self.tree@ == applied_first(before, edits, n as int),
                removed@ == dropped_first(before, edits, n as int),
                self.focus.last_focused_id == pruned_first(before, current, edits, n as int),
                self.focus.dirty == (old(self).focus.dirty || lost_first(before, current, edits, n as int)),
                self.same_frame(old(self)),
                self.dirty_nodes@ == old(self).dirty_nodes@,
            decreases batch.len() - n,
        {
            assert(edits[n as int] == batch@[n as int]@);
            self.focus.prune(&batch[n], &self.tree);
            let mut gone = self.tree.apply_mutation(&batch[n]);
            removed.append(&mut gone);
            n = n + 1;
        }
        proof {
            lemma_pruned_first_in_tree(before, current, edits, edits.len() as int);
            lemma_applied_first_wf(before, edits, edits.len() as int);
            lemma_batch_keeps_agreement(before, current, edits, edits.len() as int);
        }
        let ghost structure = self.tree@;
        self.dirty_nodes.forget_list(&removed);
        let reduction = self.tree.update_state();
        proof {
            lemma_same_ids(structure, reduced(structure));
        }
        let mut layout: Option<Size> = None;
        let resized = self.resize.is_some();
        proof {
            let report = reduction.to_rerender@;
            assert forall|h: u64|
                #[trigger] survives(before, edits, edits.len() as int, h) && state_of(reduced(structure), h)
                    != state_of(before, h) implies report.contains(h) by {
                lemma_batch_keeps_state(before, edits, edits.len() as int, h);
                let k = index_of(structure, h);
                lemma_to_rerender_sound(structure, 0, k);
            }
            assert forall|k: int|
                0 <= k < structure.len() && (#[trigger] reduced(structure)[k]).state != structure[k].state implies report.contains(
                structure[k].id,
            ) by {
                lemma_to_rerender_sound(structure, 0, k);
            }
            if report.len() == 0 {
                assert(report.to_set() =~= Set::<u64>::empty());
                match self.dirty_nodes@ {
                    DirtyView::Nodes(s) => {
                        assert(s.union(report.to_set()) =~= s);
                    },
                    DirtyView::All => {},
                }
            }
        }
        if reduction.to_rerender.len() > 0 || resized || self.relayout {
            match self.resize {
                Some(s) => {
                    self.dirty_nodes.mark_all();
                    self.size = s;
                    self.resize = None;
                },
                None => {},
            }
            self.dirty_nodes.extend(&reduction.to_rerender);
            self.relayout = true;
            layout = Some(self.size);
        }
        BatchOutcome { requests: reduction.requests, removed, layout }
    }

    /// Ends a layout pass. With the rectangles that the solver resolved,
    /// the geometry of every node with a measurement node is stored, the
    /// nodes whose geometry changed join the dirty set, and the host loop
    /// is told that the content became stale. Where the solver failed
    /// (`None`), nothing is painted this cycle and the pass waits for the
    /// next batch.
    pub fn finish_layout(&mut self, solved: Option<&Vec<Solved>>) -> (r: Option<RendererEvent>)
        requires
            old(self).wf(),
        ensures
            final(self).wf(),
            final(self).focus == old(self).focus,
            final(self).same_frame(&WindowTask { relayout: final(self).relayout, ..*old(self) }),
            match solved {
                Some(rects) => {
                    &&& r == Some(RendererEvent::Dirty(old(self).id))
                    &&& !final(self).relayout
                    &&& final(self).tree@ == resolved(old(self).tree@, rects@)
                    &&& final(self).dirty_nodes@ == old(self).dirty_nodes@.mark_each(
                        geometry_changed(old(self).tree@, rects@, 0).to_set(),
                    )
                    &&& forall|k: int|
                        0 <= k < old(self).tree@.len() && (#[trigger] final(self).tree@[k]).state != old(
                            self,
                        ).tree@[k].state ==> final(self).dirty_nodes@.covers(old(self).tree@[k].id)
                },
                None => {
                    &&& r is None
                    &&& final(self).relayout == old(self).relayout
                    &&& final(self).tree@ == old(self).tree@
                    &&& final(self).dirty_nodes@ == old(self).dirty_nodes@
                },
            },
    {
        match solved {
            Some(rects) => {
                let ghost before = self.tree@;
                let changed = self.tree.resolve_layout(rects);
                proof {
                    lemma_same_ids(before, resolved(before, rects@));
                    assert forall|k: int|
                        0 <= k < before.len() && (#[trigger] resolved(before, rects@)[k]).state != before[k].state implies changed@.contains(
                        before[k].id,
                    ) by {
                        lemma_geometry_changed_sound(before, rects@, 0, k);
                    }
                }
                self.dirty_nodes.extend(&changed);
                self.relayout = false;
                Some(RendererEvent::Dirty(self.id))
            },
            None => None,
        }
    }
}

/// No redundant paint: of two requests of the second phase that follow one
/// another with nothing in between, the second paints nothing, whatever
/// the first did.
pub proof fn lemma_second_redraw_idle(
    start: WindowTask,
    between: WindowTask,
    end: WindowTask,
    first_size: Size,
    second_size: Size,
    first: EventOutcome,
    second: EventOutcome,
)
    requires
        WindowTask::redraw_handled(start, between, first_size, first),
        WindowTask::redraw_handled(between, end, second_size, second),
    ensures
        second.render is None,
        end.epoch == between.epoch,
        !end.paint_due(),
{
}

/// What the host loop does with an event.
#[derive(Debug, Clone, Copy, PartialEq, Eq, Structural)]
pub enum HostAction {
    /// Send this second-phase event to the window task.
    Redraw(RendererEvent),
    /// Render the ready frame at this device size and present it.
    Present(Size),
    /// Hand the event on to the window task.
    Forward,
}

/// What the host loop does with an event, given the identity of its window
/// and the current size of the device: the first phase of the wake-up
/// protocol is answered with the second, carrying the size read now; the
/// third presents the frame; a phase addressed to another window, and
/// every event that is no phase (`None`), goes on to the window task.
pub open spec fn routed(window: u64, device: Size, event: Option<RendererEvent>) -> HostAction {
    match event {
        Some(RendererEvent::Dirty(w)) => if w == window {
            HostAction::Redraw(RendererEvent::Redraw(w, device))
        } else {
            HostAction::Forward
        },
        Some(RendererEvent::Rerender(w)) => if w == window {
            HostAction::Present(device)
        } else {
            HostAction::Forward
        },
        _ => HostAction::Forward,
    }
}

/// Decides what the host loop does with an event.
pub fn route(window: u64, device: Size, event: Option<RendererEvent>) -> (r: HostAction)
    ensures
        r == routed(window, device, event),
{
    match event {
        Some(RendererEvent::Dirty(w)) => {
            if w == window {
                HostAction::Redraw(RendererEvent::Redraw(w, device))
            } else {
                HostAction::Forward
            }
        },
        Some(RendererEvent::Rerender(w)) => {
            if w == window {
                HostAction::Present(device)
            } else {
                HostAction::Forward
            }
        },
        _ => HostAction::Forward,
    }
}

} // verus!
