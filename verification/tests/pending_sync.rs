use std::time::Duration;
use wm::pending_sync::{due_time, PendingSync, WindowId};

#[test]
fn new_pending_sync_has_no_changes() {
    let sync = PendingSync::new();
    assert!(!sync.has_changes());
    assert!(!sync.has_changes_at(0));
    assert!(sync.containers_to_redraw().is_empty());
    assert!(sync.workspaces_to_reorder().is_empty());
}

#[test]
fn queued_flags_are_reported_and_chain() {
    let mut sync = PendingSync::new();
    sync.queue_focus_change().queue_cursor_jump();
    assert!(sync.needs_focus_update());
    assert!(sync.needs_cursor_jump());
    assert!(!sync.needs_focused_effect_update());
    assert!(!sync.needs_all_effects_update());
    sync.queue_focused_effect_update().queue_all_effects_update();
    assert!(sync.needs_focused_effect_update());
    assert!(sync.needs_all_effects_update());
    assert!(sync.has_changes());
}

#[test]
fn clear_drops_everything() {
    let mut sync = PendingSync::new();
    sync.queue_container_to_redraw(3).queue_workspace_to_reorder(7).queue_focus_change();
    sync.queue_delayed_border_effect_at(WindowId(1), 0);
    assert!(sync.has_changes_at(0));
    sync.clear();
    assert!(!sync.has_changes_at(0));
    assert!(!sync.has_changes_at(u128::MAX));
    assert!(!sync.has_due_border_effects_at(u128::MAX));
}

#[test]
fn containers_are_queued_for_redraw_once() {
    let mut sync = PendingSync::new();
    sync.queue_container_to_redraw(4).queue_container_to_redraw(2).queue_container_to_redraw(4);
    assert_eq!(sync.containers_to_redraw(), &vec![4, 2]);
    sync.queue_containers_to_redraw(&vec![2, 9, 9, 1]);
    assert_eq!(sync.containers_to_redraw(), &vec![4, 2, 9, 1]);
    sync.dequeue_container_from_redraw(2);
    assert_eq!(sync.containers_to_redraw(), &vec![4, 9, 1]);
    sync.dequeue_container_from_redraw(5);
    assert_eq!(sync.containers_to_redraw(), &vec![4, 9, 1]);
}

#[test]
fn workspaces_to_reorder_keep_their_order() {
    let mut sync = PendingSync::new();
    sync.queue_workspace_to_reorder(5).queue_workspace_to_reorder(5).queue_workspace_to_reorder(1);
    assert_eq!(sync.workspaces_to_reorder(), &vec![5, 5, 1]);
}

#[test]
fn due_border_effects_are_taken_and_the_rest_kept() {
    let mut sync = PendingSync::new();
    sync.queue_delayed_border_effect_at(WindowId(10), 100);
    sync.queue_delayed_border_effect_at(WindowId(20), 300);
    sync.queue_delayed_border_effect_at(WindowId(30), 200);
    assert!(!sync.has_due_border_effects_at(99));
    assert!(!sync.has_changes_at(99));
    assert!(sync.has_due_border_effects_at(200));
    assert!(sync.has_changes_at(200));

    let due = sync.take_due_border_effects(200);
    assert_eq!(due, vec![WindowId(10), WindowId(30)]);
    assert!(!sync.has_due_border_effects_at(200));
    assert!(sync.has_due_border_effects_at(300));
    assert_eq!(sync.take_due_border_effects(1000), vec![WindowId(20)]);
    assert!(!sync.has_due_border_effects_at(u128::MAX));
}

#[test]
fn queuing_again_moves_the_due_time() {
    let mut sync = PendingSync::new();
    sync.queue_delayed_border_effect_at(WindowId(1), 100);
    sync.queue_delayed_border_effect_at(WindowId(2), 100);
    sync.queue_delayed_border_effect_at(WindowId(1), 500);
    assert_eq!(sync.take_due_border_effects(100), vec![WindowId(2)]);
    assert_eq!(sync.take_due_border_effects(500), vec![WindowId(1)]);
}

#[test]
fn removed_border_effect_is_never_due() {
    let mut sync = PendingSync::new();
    sync.queue_delayed_border_effect_at(WindowId(1), 5);
    sync.queue_delayed_border_effect_at(WindowId(2), 5);
    sync.remove_delayed_border_effect(&WindowId(1));
    assert_eq!(sync.take_due_border_effects(5), vec![WindowId(2)]);
}

#[test]
fn border_effect_after_a_long_delay_is_not_due_yet() {
    let mut sync = PendingSync::new();
    sync.queue_delayed_border_effect(WindowId(8), Duration::from_secs(3600).as_nanos());
    assert!(!sync.has_due_border_effects());
    assert!(sync.get_due_border_effects().is_empty());
    sync.queue_delayed_border_effect(WindowId(9), Duration::from_secs(0).as_nanos());
    assert!(sync.has_due_border_effects());
    assert_eq!(sync.get_due_border_effects(), vec![WindowId(9)]);
    assert!(!sync.has_due_border_effects());
}

#[test]
fn default_pending_sync_is_empty() {
    let sync = PendingSync::default();
    assert!(!sync.has_changes_at(u128::MAX));
}

#[test]
fn due_time_adds_the_delay_and_saturates() {
    assert_eq!(due_time(100, 50), 150);
    assert_eq!(due_time(u128::MAX - 1, 5), u128::MAX);
    assert_eq!(due_time(7, 0), 7);
}
