use render_sync::dirty::DirtyNodes;
use render_sync::reducer::Solved;
use render_sync::state::{Rect, Size};
use render_sync::tree::Mutation;
use render_sync::window::{
    route, HostAction, Key, KeyEvent, KeyEventName, Modifiers, PaintRequest, RendererEvent, TaskEvent, WindowTask,
    KEYPRESS_TARGET,
};

const WINDOW: u64 = 11;

fn size(width: u32, height: u32) -> Size {
    Size { width, height }
}

fn add(id: u64, parent: Option<u64>) -> Mutation {
    Mutation::NodeAdded { id, parent }
}

fn tab(id: u64, value: &str) -> Mutation {
    Mutation::AttributeChanged { id, name: "tabindex".to_string(), value: Some(value.to_string()) }
}

/// A task whose first frame was laid out and painted.
fn settled() -> WindowTask {
    let mut task = WindowTask::new(WINDOW, size(800, 600));
    task.process_batch(&vec![add(0, None), add(1, Some(0)), add(2, Some(0)), tab(1, "0"), tab(2, "0")]);
    task.finish_layout(Some(&Vec::new()));
    task.handle_event(TaskEvent::User(RendererEvent::Redraw(WINDOW, size(800, 600))));
    task
}

fn idle(task: &mut WindowTask, event: TaskEvent) {
    let out = task.handle_event(event);
    assert!(out.key_events.is_empty());
    assert_eq!(out.render, None);
    assert_eq!(out.signal, None);
}

#[test]
fn the_first_frame_is_painted_in_full() {
    let mut task = WindowTask::new(WINDOW, size(800, 600));
    assert!(task.is_running());
    assert!(task.needs_work(false));
    assert!(matches!(task.dirty_nodes, DirtyNodes::All));
    assert_eq!(task.tree.order(), vec![0]);
    let out = task.process_batch(&Vec::new());
    assert_eq!(out.layout, Some(size(800, 600)));
    assert_eq!(out.requests.len(), 1);
    assert_eq!(out.requests[0].node, 0);
    assert!(out.requests[0].created);
    assert!(out.removed.is_empty());
    assert!(matches!(task.dirty_nodes, DirtyNodes::All));
    assert_eq!(task.finish_layout(Some(&Vec::new())), Some(RendererEvent::Dirty(WINDOW)));
    let out = task.handle_event(TaskEvent::User(RendererEvent::Redraw(WINDOW, size(800, 600))));
    assert_eq!(out.render, Some(PaintRequest { size: size(800, 600), epoch: 1 }));
    assert!(task.dirty_nodes.is_empty());
    assert!(!task.needs_work(false));
}

#[test]
fn two_dirty_signals_give_one_paint() {
    let mut task = settled();
    task.process_batch(&vec![add(3, Some(0))]);
    let first = task.finish_layout(Some(&Vec::new()));
    let second = Some(RendererEvent::Dirty(WINDOW));
    assert_eq!(first, second);

    let device = size(800, 600);
    let mut paints = 0;
    for signal in [first, second] {
        match route(WINDOW, device, signal) {
            HostAction::Redraw(event) => {
                assert_eq!(event, RendererEvent::Redraw(WINDOW, device));
                let out = task.handle_event(TaskEvent::User(event));
                if out.render.is_some() {
                    paints += 1;
                }
                assert_eq!(out.signal, None);
            },
            other => panic!("{:?}", other),
        }
    }
    assert_eq!(paints, 1);
    let mut presents = 0;
    for _ in 0..paints {
        if let HostAction::Present(s) = route(WINDOW, device, Some(RendererEvent::Rerender(WINDOW))) {
            assert_eq!(s, device);
            presents += 1;
        }
    }
    assert_eq!(presents, 1);
}

#[test]
fn redraw_without_stale_content_paints_nothing() {
    let mut task = settled();
    let epoch = task.epoch;
    let out = task.handle_event(TaskEvent::User(RendererEvent::Redraw(WINDOW, size(800, 600))));
    assert_eq!(out.render, None);
    assert_eq!(out.signal, None);
    assert_eq!(task.epoch, epoch);
}

#[test]
fn epochs_grow_with_every_paint() {
    let mut task = settled();
    assert_eq!(task.epoch, 1);
    task.dirty_nodes.mark(0);
    let out = task.handle_redraw(size(10, 20));
    assert_eq!(out.render, Some(PaintRequest { size: size(10, 20), epoch: 2 }));
    task.epoch = u32::MAX;
    task.dirty_nodes.mark(0);
    let out = task.handle_redraw(size(10, 20));
    assert_eq!(out.render, Some(PaintRequest { size: size(10, 20), epoch: u32::MAX }));
}

#[test]
fn resize_escalates_to_a_full_repaint() {
    let mut task = WindowTask::new(WINDOW, size(800, 600));
    task.process_batch(&Vec::new());
    task.finish_layout(Some(&Vec::new()));
    task.handle_event(TaskEvent::User(RendererEvent::Redraw(WINDOW, size(800, 600))));
    assert_eq!(task.tree.len(), 1);
    assert!(task.dirty_nodes.is_empty());

    idle(&mut task, TaskEvent::Resized { window: WINDOW, size: size(400, 300) });
    assert_eq!(task.resize, Some(size(400, 300)));
    assert_eq!(task.size, size(800, 600));
    assert!(task.needs_work(false));
    let out = task.process_batch(&Vec::new());
    assert_eq!(out.layout, Some(size(400, 300)));
    assert!(out.requests.is_empty());
    assert_eq!(task.size, size(400, 300));
    assert_eq!(task.resize, None);
    assert!(matches!(task.dirty_nodes, DirtyNodes::All));
    assert_eq!(task.finish_layout(Some(&Vec::new())), Some(RendererEvent::Dirty(WINDOW)));
    assert!(!task.needs_work(false));
}

#[test]
fn no_changes_and_no_resize_need_no_layout() {
    let mut task = settled();
    let out = task.process_batch(&Vec::new());
    assert_eq!(out.layout, None);
    assert!(task.dirty_nodes.is_empty());
    let out = task.process_batch(&vec![tab(1, "5")]);
    assert_eq!(out.layout, None);
    assert!(task.dirty_nodes.is_empty());
}

#[test]
fn reducer_report_joins_the_dirty_set() {
    let mut task = settled();
    let out = task.process_batch(&vec![add(3, Some(1)), tab(2, "-1")]);
    assert_eq!(out.layout, Some(size(800, 600)));
    let nodes: Vec<u64> = out.requests.iter().map(|q| q.node).collect();
    assert_eq!(nodes, vec![3, 1]);
    assert!(task.dirty_nodes.covers(3));
    assert!(task.dirty_nodes.covers(1));
    assert!(task.dirty_nodes.covers(2));
    assert!(!task.dirty_nodes.covers(0));
}

#[test]
fn changed_geometry_joins_the_dirty_set() {
    let mut task = settled();
    task.process_batch(&vec![add(3, Some(1))]);
    let r = Rect { x: 0, y: 0, width: 800, height: 600 };
    let solved = vec![Solved { key: 0, rect: r }, Solved { key: 2, rect: r }];
    assert_eq!(task.finish_layout(Some(&solved)), Some(RendererEvent::Dirty(WINDOW)));
    assert!(task.dirty_nodes.covers(0));
    assert!(task.dirty_nodes.covers(2));
    assert_eq!(task.tree.state_of(0).unwrap().layout.layout, Some(r));
    assert_eq!(task.tree.state_of(1).unwrap().layout.layout, None);
}

#[test]
fn removed_nodes_leave_the_dirty_set() {
    let mut task = settled();
    task.dirty_nodes.mark(2);
    task.dirty_nodes.mark(1);
    let out = task.process_batch(&vec![Mutation::NodeRemoved { id: 2 }]);
    assert_eq!(out.removed, vec![2]);
    assert!(!task.dirty_nodes.covers(2));
    assert!(task.dirty_nodes.covers(1));
    assert!(task.dirty_nodes.covers(0));
}

#[test]
fn a_failed_layout_is_tried_again() {
    let mut task = settled();
    let out = task.process_batch(&vec![add(3, Some(0))]);
    assert_eq!(out.layout, Some(size(800, 600)));
    assert_eq!(task.finish_layout(None), None);
    assert!(task.relayout);
    assert!(task.dirty_nodes.covers(3));
    assert!(task.needs_work(false));
    let out = task.process_batch(&Vec::new());
    assert_eq!(out.layout, Some(size(800, 600)));
    assert!(out.requests.is_empty());
    assert_eq!(task.finish_layout(Some(&Vec::new())), Some(RendererEvent::Dirty(WINDOW)));
    assert!(!task.relayout);
    assert!(!task.needs_work(false));
    assert!(task.needs_work(true));
}

#[test]
fn batch_prunes_the_focus_before_it_applies() {
    let mut task = settled();
    task.handle_event(TaskEvent::KeyboardInput { window: WINDOW, key: Some(Key::Tab), pressed: true });
    assert_eq!(task.focus.last_focused_id, Some(1));
    task.handle_event(TaskEvent::User(RendererEvent::Redraw(WINDOW, size(800, 600))));
    assert!(!task.focus.dirty);
    task.process_batch(&vec![add(4, Some(1)), Mutation::NodeRemoved { id: 1 }, add(1, Some(0))]);
    assert_eq!(task.focus.last_focused_id, None);
    assert!(task.focus.dirty);
    assert!(task.tree.contains(1));
    assert!(!task.tree.state_of(1).unwrap().focused);
    assert!(!task.tree.contains(4));
    task.finish_layout(Some(&Vec::new()));
    let out = task.handle_event(TaskEvent::User(RendererEvent::Redraw(WINDOW, size(800, 600))));
    assert!(out.render.is_some());
}

#[test]
fn key_events_fire_in_order() {
    let mut task = settled();
    let out = task.handle_event(TaskEvent::KeyboardInput { window: WINDOW, key: Some(Key::Other), pressed: true });
    assert_eq!(
        out.key_events,
        vec![
            KeyEvent { name: KeyEventName::KeyPress, element: Some(KEYPRESS_TARGET) },
            KeyEvent { name: KeyEventName::KeyDown, element: None },
        ]
    );
    assert_eq!(out.signal, None);
    assert_eq!(out.render, None);
    let out = task.handle_event(TaskEvent::KeyboardInput { window: WINDOW, key: Some(Key::Other), pressed: false });
    assert_eq!(out.key_events, vec![KeyEvent { name: KeyEventName::KeyUp, element: None }]);
    idle(&mut task, TaskEvent::KeyboardInput { window: WINDOW, key: None, pressed: true });
    assert_eq!(KeyEventName::KeyPress.name(), "keypress");
    assert_eq!(KeyEventName::KeyDown.name(), "keydown");
    assert_eq!(KeyEventName::KeyUp.name(), "keyup");
}

#[test]
fn tab_moves_the_focus_before_keydown() {
    let mut task = settled();
    let press = TaskEvent::KeyboardInput { window: WINDOW, key: Some(Key::Tab), pressed: true };
    let release = TaskEvent::KeyboardInput { window: WINDOW, key: Some(Key::Tab), pressed: false };
    let out = task.handle_event(press);
    assert_eq!(out.key_events[0], KeyEvent { name: KeyEventName::KeyPress, element: Some(KEYPRESS_TARGET) });
    assert_eq!(out.key_events[1], KeyEvent { name: KeyEventName::KeyDown, element: Some(1) });
    assert_eq!(out.signal, Some(RendererEvent::Dirty(WINDOW)));
    assert!(task.dirty_nodes.covers(1));
    let out = task.handle_event(release);
    assert_eq!(out.key_events, vec![KeyEvent { name: KeyEventName::KeyUp, element: Some(1) }]);
    assert_eq!(out.signal, None);
    assert_eq!(task.focus.last_focused_id, Some(1));

    task.handle_event(press);
    assert_eq!(task.focus.last_focused_id, Some(2));
    let shift = Modifiers { alt: false, ctrl: false, meta: false, shift: true };
    idle(&mut task, TaskEvent::ModifiersChanged { window: WINDOW, modifiers: shift });
    assert_eq!(task.modifiers, shift);
    task.handle_event(press);
    assert_eq!(task.focus.last_focused_id, Some(1));
    let out = task.handle_event(TaskEvent::User(RendererEvent::Redraw(WINDOW, size(800, 600))));
    assert!(out.render.is_some());
}

#[test]
fn tab_without_focusable_nodes_sends_no_signal() {
    let mut task = WindowTask::new(WINDOW, size(800, 600));
    let out = task.handle_event(TaskEvent::KeyboardInput { window: WINDOW, key: Some(Key::Tab), pressed: true });
    assert_eq!(out.signal, None);
    assert_eq!(out.key_events.len(), 2);
    assert_eq!(task.focus.last_focused_id, None);
}

#[test]
fn close_stops_the_loop() {
    let mut task = settled();
    idle(&mut task, TaskEvent::CloseRequested { window: WINDOW });
    assert!(!task.is_running());
}

#[test]
fn events_of_other_windows_are_discarded() {
    let mut task = settled();
    task.dirty_nodes.mark(0);
    let other = WINDOW + 1;
    idle(&mut task, TaskEvent::CloseRequested { window: other });
    idle(&mut task, TaskEvent::Resized { window: other, size: size(1, 1) });
    idle(&mut task, TaskEvent::KeyboardInput { window: other, key: Some(Key::Tab), pressed: true });
    let shift = Modifiers { alt: true, ctrl: true, meta: true, shift: true };
    idle(&mut task, TaskEvent::ModifiersChanged { window: other, modifiers: shift });
    idle(&mut task, TaskEvent::User(RendererEvent::Redraw(other, size(1, 1))));
    idle(&mut task, TaskEvent::User(RendererEvent::Dirty(WINDOW)));
    idle(&mut task, TaskEvent::User(RendererEvent::Rerender(WINDOW)));
    idle(&mut task, TaskEvent::Other);
    assert!(task.is_running());
    assert_eq!(task.resize, None);
    assert_eq!(task.focus.last_focused_id, None);
    assert!(!task.modifiers.shift);
    assert!(task.dirty_nodes.covers(0));
}

#[test]
fn host_loop_routes_the_three_phases() {
    let device = size(640, 480);
    assert_eq!(
        route(WINDOW, device, Some(RendererEvent::Dirty(WINDOW))),
        HostAction::Redraw(RendererEvent::Redraw(WINDOW, device))
    );
    assert_eq!(route(WINDOW, device, Some(RendererEvent::Rerender(WINDOW))), HostAction::Present(device));
    assert_eq!(route(WINDOW, device, Some(RendererEvent::Dirty(WINDOW + 1))), HostAction::Forward);
    assert_eq!(route(WINDOW, device, Some(RendererEvent::Rerender(WINDOW + 1))), HostAction::Forward);
    assert_eq!(route(WINDOW, device, Some(RendererEvent::Redraw(WINDOW, device))), HostAction::Forward);
    assert_eq!(route(WINDOW, device, None), HostAction::Forward);
}
