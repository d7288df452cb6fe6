use wm::container::model::{ContainerKind, TilingDirection};
use wm::container::tree::ContainerTree;
use wm::events::{
    apply_window_hidden, apply_window_minimize_ended, apply_window_minimized, apply_window_shown,
    WindowProps, handle_window_destroyed, handle_window_hidden, handle_window_minimize_ended,
    handle_window_minimized, handle_window_shown, handle_window_title_changed,
    hidden_needs_visibility, should_deactivate_workspace, DisplayState, FloatingStateConfig,
    HiddenAction, HideMethod, MinimizeAction, ShownAction, WindowState,
};
use wm::pending_sync::{PendingSync, WindowId};

#[test]
fn hidden_event_completes_a_hide_transition() {
    let r = handle_window_hidden(Some(DisplayState::Hiding), HideMethod::Cloak, Some(true));
    assert_eq!(r, HiddenAction::MarkHidden);
    assert!(!hidden_needs_visibility(Some(DisplayState::Hiding), HideMethod::Cloak));
}

#[test]
fn hidden_event_unmanages_a_shown_window_that_is_not_visible() {
    assert_eq!(
        handle_window_hidden(Some(DisplayState::Shown), HideMethod::Hide, Some(false)),
        HiddenAction::Unmanage
    );
    assert_eq!(
        handle_window_hidden(Some(DisplayState::Shown), HideMethod::Hide, None),
        HiddenAction::Unmanage
    );
    assert_eq!(
        handle_window_hidden(Some(DisplayState::Shown), HideMethod::Hide, Some(true)),
        HiddenAction::Ignore
    );
    assert!(hidden_needs_visibility(Some(DisplayState::Shown), HideMethod::Hide));
}

#[test]
fn hidden_event_with_corner_hiding_checks_visibility() {
    assert_eq!(
        handle_window_hidden(Some(DisplayState::Hiding), HideMethod::PlaceInCorner, Some(false)),
        HiddenAction::Unmanage
    );
    assert_eq!(
        handle_window_hidden(Some(DisplayState::Hidden), HideMethod::Hide, Some(false)),
        HiddenAction::Ignore
    );
    assert_eq!(handle_window_hidden(None, HideMethod::Hide, Some(false)), HiddenAction::Ignore);
}

#[test]
fn shown_event_decisions() {
    assert_eq!(
        handle_window_shown(Some(DisplayState::Showing), HideMethod::Cloak, false, true),
        ShownAction::MarkShown
    );
    assert_eq!(
        handle_window_shown(Some(DisplayState::Showing), HideMethod::PlaceInCorner, false, true),
        ShownAction::Redraw
    );
    assert_eq!(
        handle_window_shown(Some(DisplayState::Shown), HideMethod::Cloak, false, true),
        ShownAction::Redraw
    );
    assert_eq!(handle_window_shown(None, HideMethod::Cloak, false, true), ShownAction::Manage);
    assert_eq!(handle_window_shown(None, HideMethod::Cloak, true, true), ShownAction::Ignore);
    assert_eq!(handle_window_shown(None, HideMethod::Cloak, false, false), ShownAction::Ignore);
}

#[test]
fn minimized_event_decisions() {
    assert_eq!(
        handle_window_minimized(Some(WindowState::Tiling), Some(true)),
        MinimizeAction::ChangeState { is_minimized: true, target: WindowState::Minimized }
    );
    assert_eq!(
        handle_window_minimized(Some(WindowState::Minimized), Some(true)),
        MinimizeAction::Record { is_minimized: true }
    );
    assert_eq!(
        handle_window_minimized(Some(WindowState::Tiling), Some(false)),
        MinimizeAction::Record { is_minimized: false }
    );
    assert_eq!(handle_window_minimized(Some(WindowState::Tiling), None), MinimizeAction::Ignore);
    assert_eq!(handle_window_minimized(None, Some(true)), MinimizeAction::Ignore);
}

#[test]
fn minimize_ended_restores_previous_or_default_state() {
    let floating = WindowState::Floating(FloatingStateConfig { centered: true, shown_on_top: false });
    assert_eq!(
        handle_window_minimize_ended(Some(WindowState::Minimized), Some(floating), Some(false), WindowState::Tiling),
        MinimizeAction::ChangeState { is_minimized: false, target: floating }
    );
    assert_eq!(
        handle_window_minimize_ended(Some(WindowState::Minimized), None, Some(false), WindowState::Tiling),
        MinimizeAction::ChangeState { is_minimized: false, target: WindowState::Tiling }
    );
    assert_eq!(
        handle_window_minimize_ended(Some(WindowState::Minimized), None, Some(true), WindowState::Tiling),
        MinimizeAction::Record { is_minimized: true }
    );
    assert_eq!(
        handle_window_minimize_ended(Some(WindowState::Tiling), None, Some(false), WindowState::Tiling),
        MinimizeAction::Record { is_minimized: false }
    );
    assert_eq!(
        handle_window_minimize_ended(None, None, Some(false), WindowState::Tiling),
        MinimizeAction::Ignore
    );
}

#[test]
fn title_change_is_recorded_for_managed_windows() {
    assert_eq!(handle_window_title_changed(true, Some("Editor".to_string())), Some("Editor".to_string()));
    assert_eq!(handle_window_title_changed(true, None), None);
    assert_eq!(handle_window_title_changed(false, Some("Editor".to_string())), None);
}

#[test]
fn destroyed_window_is_found_and_its_border_effect_dropped() {
    let mut sync = PendingSync::new();
    sync.queue_delayed_border_effect_at(WindowId(7), 0);
    sync.queue_delayed_border_effect_at(WindowId(8), 0);
    let windows = [WindowId(3), WindowId(7), WindowId(7)];
    assert_eq!(handle_window_destroyed(&windows, WindowId(7), &mut sync), Some(1));
    assert_eq!(sync.take_due_border_effects(0), vec![WindowId(8)]);

    let mut other = PendingSync::new();
    other.queue_delayed_border_effect_at(WindowId(4), 0);
    assert_eq!(handle_window_destroyed(&windows, WindowId(4), &mut other), None);
    assert_eq!(other.take_due_border_effects(0), vec![WindowId(4)]);
}

#[test]
fn workspace_is_deactivated_only_when_empty_hidden_and_not_kept() {
    assert!(should_deactivate_workspace(false, false, false));
    assert!(!should_deactivate_workspace(true, false, false));
    assert!(!should_deactivate_workspace(false, true, false));
    assert!(!should_deactivate_workspace(false, false, true));
}

fn shown_tiling_window() -> WindowProps {
    WindowProps {
        state: WindowState::Tiling,
        prev_state: None,
        display_state: DisplayState::Shown,
        is_minimized: false,
        has_active_drag: true,
        has_pending_dpi_adjustment: false,
    }
}

/// A workspace holding two tiling windows; the first has focus.
fn two_windows() -> (ContainerTree, usize, usize, usize) {
    let mut tree = ContainerTree::new();
    let ws = tree.add_container(ContainerKind::Workspace(TilingDirection::Horizontal));
    tree.attach_container(ws, 0, None).unwrap();
    let a = tree.add_container(ContainerKind::TilingWindow);
    let b = tree.add_container(ContainerKind::TilingWindow);
    tree.attach_container(a, ws, None).unwrap();
    tree.attach_container(b, ws, None).unwrap();
    (tree, ws, a, b)
}

#[test]
fn minimizing_clears_drag_and_moves_focus_to_the_target() {
    let (mut tree, _ws, a, b) = two_windows();
    let mut sync = PendingSync::new();
    let mut window = shown_tiling_window();
    let action = handle_window_minimized(Some(window.state), Some(true));

    let refocused = apply_window_minimized(&mut window, action, Some(b), &mut tree, &mut sync);

    assert!(refocused);
    assert_eq!(window.state, WindowState::Minimized);
    assert_eq!(window.prev_state, Some(WindowState::Tiling));
    assert!(window.is_minimized);
    assert!(!window.has_active_drag);
    assert!(tree.has_focus(b, None));
    assert!(!tree.has_focus(a, None));
    assert!(sync.needs_focus_update());
    assert!(sync.needs_cursor_jump());
}

#[test]
fn minimizing_without_a_focus_target_keeps_focus() {
    let (mut tree, _ws, a, _b) = two_windows();
    let mut sync = PendingSync::new();
    let mut window = shown_tiling_window();
    let refocused = apply_window_minimized(
        &mut window,
        MinimizeAction::ChangeState { is_minimized: true, target: WindowState::Minimized },
        None,
        &mut tree,
        &mut sync,
    );
    assert!(!refocused);
    assert_eq!(window.state, WindowState::Minimized);
    assert!(!sync.needs_focus_update());
    assert_eq!(tree.child_focus_order(tree.parent(a).unwrap())[0], a);
}

#[test]
fn recording_minimized_changes_only_the_flag() {
    let (mut tree, _ws, _a, b) = two_windows();
    let mut sync = PendingSync::new();
    let mut window = shown_tiling_window();
    let refocused = apply_window_minimized(
        &mut window,
        MinimizeAction::Record { is_minimized: true },
        Some(b),
        &mut tree,
        &mut sync,
    );
    assert!(!refocused);
    assert!(window.is_minimized);
    assert!(window.has_active_drag);
    assert_eq!(window.state, WindowState::Tiling);
    assert!(!sync.needs_focus_update());
}

#[test]
fn minimize_ended_returns_to_the_previous_state() {
    let mut window = shown_tiling_window();
    window.state = WindowState::Minimized;
    window.prev_state = Some(WindowState::Tiling);
    window.is_minimized = true;
    let action = handle_window_minimize_ended(
        Some(window.state),
        window.prev_state,
        Some(false),
        WindowState::Tiling,
    );
    apply_window_minimize_ended(&mut window, action);
    assert_eq!(window.state, WindowState::Tiling);
    assert_eq!(window.prev_state, Some(WindowState::Minimized));
    assert!(!window.is_minimized);
}

#[test]
fn hidden_and_shown_update_the_display_state() {
    let mut window = shown_tiling_window();
    window.display_state = DisplayState::Hiding;
    apply_window_hidden(&mut window, HiddenAction::MarkHidden);
    assert_eq!(window.display_state, DisplayState::Hidden);
    apply_window_hidden(&mut window, HiddenAction::Unmanage);
    assert_eq!(window.display_state, DisplayState::Hidden);

    let mut sync = PendingSync::new();
    window.display_state = DisplayState::Showing;
    apply_window_shown(&mut window, ShownAction::MarkShown, 4, &mut sync);
    assert_eq!(window.display_state, DisplayState::Shown);
    assert!(sync.containers_to_redraw().is_empty());
    apply_window_shown(&mut window, ShownAction::Redraw, 4, &mut sync);
    assert_eq!(sync.containers_to_redraw(), &vec![4]);
}
