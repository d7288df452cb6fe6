use crate::container::model::{spec_has_focus, spec_set_focused_descendant};
use crate::container::tree::ContainerTree;
use crate::pending_sync::{insert_once, without_window, PendingSync, PendingSyncView, WindowId};
use vstd::prelude::*;

verus! {

/// How windows are hidden when their workspace is not displayed.
#[derive(PartialEq, Eq, Structural, Clone, Copy, Debug)]
pub enum HideMethod {
    Hide,
    Cloak,
    PlaceInCorner,
}

/// Where a managed window stands in being shown or hidden.
#[derive(PartialEq, Eq, Structural, Clone, Copy, Debug)]
pub enum DisplayState {
    Shown,
    Showing,
    Hidden,
    Hiding,
}

/// The settings of the floating state.
#[derive(PartialEq, Eq, Structural, Clone, Copy, Debug)]
pub struct FloatingStateConfig {
    pub centered: bool,
    pub shown_on_top: bool,
}

/// The settings of the fullscreen state.
#[derive(PartialEq, Eq, Structural, Clone, Copy, Debug)]
pub struct FullscreenStateConfig {
    pub maximized: bool,
    pub shown_on_top: bool,
}

/// The state of a managed window.
#[derive(PartialEq, Eq, Structural, Clone, Copy, Debug)]
pub enum WindowState {
    Floating(FloatingStateConfig),
    Fullscreen(FullscreenStateConfig),
    Minimized,
    Tiling,
}

/// What the window manager keeps of a managed window for its event
/// handlers.
#[derive(PartialEq, Eq, Structural, Clone, Copy, Debug)]
pub struct WindowProps {
    pub state: WindowState,
    pub prev_state: Option<WindowState>,
    pub display_state: DisplayState,
    pub is_minimized: bool,
    pub has_active_drag: bool,
    pub has_pending_dpi_adjustment: bool,
}

/// What to do on a window-hidden event.
#[derive(PartialEq, Eq, Structural, Clone, Copy, Debug)]
pub enum HiddenAction {
    /// Nothing: the window is not managed, or it is not actually hidden.
    Ignore,
    /// The window finished hiding: mark it hidden.
    MarkHidden,
    /// The window was hidden outside the window manager: unmanage it.
    Unmanage,
}

/// Whether a window-hidden event only completes a hide transition.
pub open spec fn completes_hiding(hide_method: HideMethod, display_state: DisplayState) -> bool {
    hide_method != HideMethod::PlaceInCorner && display_state == DisplayState::Hiding
}

/// Whether a window-hidden event needs to know if the window is visible:
/// the window is managed, not finishing a hide transition, and either
/// hidden by moving it to a corner or meant to be shown.
pub open spec fn spec_hidden_needs_visibility(
    display_state: Option<DisplayState>,
    hide_method: HideMethod,
) -> bool {
    display_state matches Some(ds) && !completes_hiding(hide_method, ds) && (hide_method
        == HideMethod::PlaceInCorner || ds == DisplayState::Shown)
}

/// Whether `handle_window_hidden` needs the window's visibility.
pub fn hidden_needs_visibility(display_state: Option<DisplayState>, hide_method: HideMethod) -> (r:
    bool)
    ensures
        r == spec_hidden_needs_visibility(display_state, hide_method),
{
    match display_state {
        Some(ds) => !(hide_method != HideMethod::PlaceInCorner && ds == DisplayState::Hiding) && (
        hide_method == HideMethod::PlaceInCorner || ds == DisplayState::Shown),
        None => false,
    }
}

/// Decides what a window-hidden event does. `display_state` is that of the
/// managed window with the event's native window (`None` where no managed
/// window has it); `is_visible` is whether the window is visible, `None`
/// where that could not be read (taken as not visible), and is only
/// consulted where `hidden_needs_visibility` holds.
///
/// A window finishing a hide transition is marked hidden. Otherwise, since
/// window events do not always arrive in order, the window is unmanaged
/// only where it is not visible and either windows are hidden by moving
/// them to a corner or the window is meant to be shown.
pub fn handle_window_hidden(
    display_state: Option<DisplayState>,
    hide_method: HideMethod,
    is_visible: Option<bool>,
) -> (r: HiddenAction)
    ensures
        r == (match display_state {
            None => HiddenAction::Ignore,
            Some(ds) => if completes_hiding(hide_method, ds) {
                HiddenAction::MarkHidden
            } else if spec_hidden_needs_visibility(display_state, hide_method) && is_visible
                != Some(true) {
                HiddenAction::Unmanage
            } else {
                HiddenAction::Ignore
            },
        }),
{
    match display_state {
        None => HiddenAction::Ignore,
        Some(ds) => {
            // Update the display state.
            if hide_method != HideMethod::PlaceInCorner && ds == DisplayState::Hiding {
                return HiddenAction::MarkHidden;
            }
            // Unmanage the window if it's not in a display state transition.
            let visible = match is_visible {
                Some(v) => v,
                None => false,
            };
            if (hide_method == HideMethod::PlaceInCorner || ds == DisplayState::Shown) && !visible {
                HiddenAction::Unmanage
            } else {
                HiddenAction::Ignore
            }
        },
    }
}

/// Carries out a window-hidden decision on the window: a finished hide
/// transition marks it hidden; nothing else changes here (unmanaging is
/// the window manager's).
pub fn apply_window_hidden(window: &mut WindowProps, action: HiddenAction)
    ensures
        *final(window) == (match action {
            HiddenAction::MarkHidden => WindowProps {
                display_state: DisplayState::Hidden,
                ..*old(window)
            },
            _ => *old(window),
        }),
{
    if action == HiddenAction::MarkHidden {
        window.display_state = DisplayState::Hidden;
    }
}

/// What to do on a window-shown event.
#[derive(PartialEq, Eq, Structural, Clone, Copy, Debug)]
pub enum ShownAction {
    /// Nothing: the window is ignored, or unknown.
    Ignore,
    /// The window finished showing: mark it shown.
    MarkShown,
    /// Queue the managed window for redraw.
    Redraw,
    /// Start managing the window.
    Manage,
}

/// Decides what a window-shown event does. `display_state` is that of the
/// managed window with the event's native window (`None` where none has
/// it); `is_ignored` is whether the native window is one the window manager
/// ignores, and `is_known` whether it knows the native window at all.
///
/// A managed window finishing a show transition is marked shown, any other
/// managed window is redrawn; a window not managed, not ignored and known
/// is managed.
pub fn handle_window_shown(
    display_state: Option<DisplayState>,
    hide_method: HideMethod,
    is_ignored: bool,
    is_known: bool,
) -> (r: ShownAction)
    ensures
        r == (match display_state {
            Some(ds) => if hide_method != HideMethod::PlaceInCorner && ds == DisplayState::Showing {
                ShownAction::MarkShown
            } else {
                ShownAction::Redraw
            },
            None => if !is_ignored && is_known {
                ShownAction::Manage
            } else {
                ShownAction::Ignore
            },
        }),
{
    match display_state {
        Some(ds) => {
            if hide_method != HideMethod::PlaceInCorner && ds == DisplayState::Showing {
                ShownAction::MarkShown
            } else {
                ShownAction::Redraw
            }
        },
        None => {
            if !is_ignored && is_known {
                ShownAction::Manage
            } else {
                ShownAction::Ignore
            }
        },
    }
}

/// Carries out a window-shown decision on the managed window (the
/// container `container` of the tree): a finished show transition marks it
/// shown, and a redraw queues the container for redraw; managing a new
/// window is the window manager's.
pub fn apply_window_shown(
    window: &mut WindowProps,
    action: ShownAction,
    container: usize,
    pending_sync: &mut PendingSync,
)
    requires
        old(pending_sync).wf(),
    ensures
        final(pending_sync).wf(),
        *final(window) == (match action {
            ShownAction::MarkShown => WindowProps {
                display_state: DisplayState::Shown,
                ..*old(window)
            },
            _ => *old(window),
        }),
        final(pending_sync)@ == (match action {
            ShownAction::Redraw => PendingSyncView {
                containers_to_redraw: insert_once(
                    old(pending_sync)@.containers_to_redraw,
                    container,
                ),
                ..old(pending_sync)@
            },
            _ => old(pending_sync)@,
        }),
{
    match action {
        ShownAction::MarkShown => {
            window.display_state = DisplayState::Shown;
        },
        ShownAction::Redraw => {
            pending_sync.queue_container_to_redraw(container);
        },
        _ => {},
    }
}

/// What to do on a window-minimized or minimize-ended event.
#[derive(PartialEq, Eq, Structural, Clone, Copy, Debug)]
pub enum MinimizeAction {
    /// Nothing: the window is not managed, or its state could not be read.
    Ignore,
    /// Record whether the window is minimized, and nothing more.
    Record { is_minimized: bool },
    /// Record whether the window is minimized and change its state to
    /// `target`.
    ChangeState { is_minimized: bool, target: WindowState },
}

/// Decides what a window-minimized event does. `window_state` is the state
/// of the managed window with the event's native window (`None` where none
/// has it); `is_minimized` is whether the window is minimized, `None` where
/// that could not be read.
///
/// A window that is minimized but not yet in the minimized state goes to
/// it (after which the window manager clears its drag state and reassigns
/// focus).
pub fn handle_window_minimized(window_state: Option<WindowState>, is_minimized: Option<bool>) -> (r:
    MinimizeAction)
    ensures
        r == (match (window_state, is_minimized) {
            (Some(state), Some(minimized)) => if minimized && state != WindowState::Minimized {
                MinimizeAction::ChangeState { is_minimized: minimized, target: WindowState::Minimized }
            } else {
                MinimizeAction::Record { is_minimized: minimized }
            },
            _ => MinimizeAction::Ignore,
        }),
{
    match (window_state, is_minimized) {
        (Some(state), Some(minimized)) => {
            if minimized && state != WindowState::Minimized {
                MinimizeAction::ChangeState { is_minimized: minimized, target: WindowState::Minimized }
            } else {
                MinimizeAction::Record { is_minimized: minimized }
            }
        },
        _ => MinimizeAction::Ignore,
    }
}

/// A window after a change of state: it remembers the state it leaves.
pub open spec fn with_state(w: WindowProps, target: WindowState) -> WindowProps {
    WindowProps { state: target, prev_state: Some(w.state), ..w }
}

/// Carries out a window-minimized decision on the window, the tree and the
/// pending changes. A recorded minimized flag is kept; a change of state
/// also clears the window's drag, and where the window manager found a
/// `focus_target` for the window that left, that target becomes the
/// focused descendant of all its ancestors and a focus change and a cursor
/// jump are queued. Returns whether focus moved (the moment of the minimize
/// is then recorded).
pub fn apply_window_minimized(
    window: &mut WindowProps,
    action: MinimizeAction,
    focus_target: Option<usize>,
    tree: &mut ContainerTree,
    pending_sync: &mut PendingSync,
) -> (r: bool)
    requires
        old(tree).wf(),
        old(pending_sync).wf(),
        focus_target matches Some(t) ==> t < old(tree)@.len(),
    ensures
        final(tree).wf(),
        final(pending_sync).wf(),
        match action {
            MinimizeAction::Ignore => *final(window) == *old(window) && final(tree)@ == old(tree)@
                && *final(pending_sync) == *old(pending_sync) && !r,
            MinimizeAction::Record { is_minimized } => *final(window) == (WindowProps {
                is_minimized,
                ..*old(window)
            }) && final(tree)@ == old(tree)@ && *final(pending_sync) == *old(pending_sync) && !r,
            MinimizeAction::ChangeState { is_minimized, target } => *final(window) == (WindowProps {
                is_minimized,
                has_active_drag: false,
                ..with_state(*old(window), target)
            }) && r == focus_target is Some && match focus_target {
                Some(t) => final(tree)@ == spec_set_focused_descendant(old(tree)@, t as int, None)
                    && spec_has_focus(final(tree)@, t as int, None) && final(pending_sync)@ == (
                PendingSyncView {
                    needs_focus_update: true,
                    needs_cursor_jump: true,
                    ..old(pending_sync)@
                }),
                None => final(tree)@ == old(tree)@ && *final(pending_sync) == *old(pending_sync),
            },
        },
{
    match action {
        MinimizeAction::Ignore => false,
        MinimizeAction::Record { is_minimized } => {
            window.is_minimized = is_minimized;
            false
        },
        MinimizeAction::ChangeState { is_minimized, target } => {
            window.is_minimized = is_minimized;
            window.prev_state = Some(window.state);
            window.state = target;
            // Clear the drag state, as a window can be minimized while being
            // dragged.
            window.has_active_drag = false;
            // Focus should be reassigned after a window has been minimized.
            match focus_target {
                Some(t) => {
                    tree.set_focused_descendant(t, None);
                    pending_sync.queue_focus_change().queue_cursor_jump();
                    true
                },
                None => false,
            }
        },
    }
}

/// Carries out a window-minimize-ended decision on the window: the
/// minimized flag is recorded, and a change of state goes to the target
/// state, remembering the one it leaves.
pub fn apply_window_minimize_ended(window: &mut WindowProps, action: MinimizeAction)
    ensures
        *final(window) == (match action {
            MinimizeAction::Ignore => *old(window),
            MinimizeAction::Record { is_minimized } => WindowProps { is_minimized, ..*old(window) },
            MinimizeAction::ChangeState { is_minimized, target } => WindowProps {
                is_minimized,
                ..with_state(*old(window), target)
            },
        }),
{
    match action {
        MinimizeAction::Ignore => {},
        MinimizeAction::Record { is_minimized } => {
            window.is_minimized = is_minimized;
        },
        MinimizeAction::ChangeState { is_minimized, target } => {
            window.is_minimized = is_minimized;
            window.prev_state = Some(window.state);
            window.state = target;
        },
    }
}

/// Decides what a window-minimize-ended event does. `window_state` and
/// `prev_state` are the current and previous states of the managed window
/// with the event's native window (`window_state` is `None` where none has
/// it); `is_minimized` is whether the window is minimized, `None` where
/// that could not be read; `default_state` is the state that the user's
/// configuration gives new windows.
///
/// A window in the minimized state that no longer is minimized goes back
/// to its previous state, or to the default state where it has none.
pub fn handle_window_minimize_ended(
    window_state: Option<WindowState>,
    prev_state: Option<WindowState>,
    is_minimized: Option<bool>,
    default_state: WindowState,
) -> (r: MinimizeAction)
    ensures
        r == (match (window_state, is_minimized) {
            (Some(state), Some(minimized)) => if !minimized && state == WindowState::Minimized {
                MinimizeAction::ChangeState {
                    is_minimized: minimized,
                    target: match prev_state {
                        Some(p) => p,
                        None => default_state,
                    },
                }
            } else {
                MinimizeAction::Record { is_minimized: minimized }
            },
            _ => MinimizeAction::Ignore,
        }),
{
    match (window_state, is_minimized) {
        (Some(state), Some(minimized)) => {
            if !minimized && state == WindowState::Minimized {
                let target = match prev_state {
                    Some(p) => p,
                    None => default_state,
                };
                MinimizeAction::ChangeState { is_minimized: minimized, target }
            } else {
                MinimizeAction::Record { is_minimized: minimized }
            }
        },
        _ => MinimizeAction::Ignore,
    }
}

/// Decides what a window-title-changed event does. `is_managed` is whether
/// a managed window has the event's native window; `title` is its title,
/// `None` where it could not be read.
///
/// Returns the title to record, after which the window rules for title
/// changes run; `None` where nothing is done.
pub fn handle_window_title_changed(is_managed: bool, title: Option<String>) -> (r: Option<String>)
    ensures
        r == (if is_managed {
            title
        } else {
            None
        }),
{
    if is_managed {
        title
    } else {
        None
    }
}

/// The position of the first of `windows` with native window `id`.
pub open spec fn window_position(windows: Seq<WindowId>, id: WindowId) -> Option<int> {
    if exists|i: int| 0 <= i < windows.len() && windows[i] == id {
        Some(
            choose|i: int|
                0 <= i < windows.len() && windows[i] == id && forall|j: int|
                    0 <= j < i ==> windows[j] != id,
        )
    } else {
        None
    }
}

/// Handles a window-destroyed event: finds the managed window (among the
/// native windows of the managed windows, `windows`) with the destroyed
/// native window, and drops any border effect queued for it. Returns the
/// window's position; the window manager then unmanages it, forgets the
/// native window, and asks `should_deactivate_workspace` about its
/// workspace.
pub fn handle_window_destroyed(
    windows: &[WindowId],
    native_window_id: WindowId,
    pending_sync: &mut PendingSync,
) -> (r: Option<usize>)
    requires
        old(pending_sync).wf(),
    ensures
        final(pending_sync).wf(),
        match r {
            Some(i) => window_position(windows@, native_window_id) == Some(i as int)
                && final(pending_sync)@ == (PendingSyncView {
                delayed_border_effects: without_window(
                    old(pending_sync)@.delayed_border_effects,
                    native_window_id,
                ),
                ..old(pending_sync)@
            }),
            None => window_position(windows@, native_window_id) is None && final(pending_sync)@
                == old(pending_sync)@,
        },
{
    let len = windows.len();
    let mut i: usize = 0;
    while i < len
        invariant
            len == windows@.len(),
            i <= len,
            pending_sync.wf(),
            *pending_sync == *old(pending_sync),
            forall|j: int| 0 <= j < i ==> windows@[j] != native_window_id,
        decreases len - i,
    {
        if windows[i] == native_window_id {
            proof {
                let k = i as int;
                assert(windows@[k] == native_window_id);
                let c = choose|c: int|
                    0 <= c < windows@.len() && windows@[c] == native_window_id && forall|j: int|
                        0 <= j < c ==> windows@[j] != native_window_id;
                assert(c == k) by {
                    if c > k {
                        assert(windows@[k] != native_window_id);
                    }
                }
            }
            pending_sync.remove_delayed_border_effect(&native_window_id);
            return Some(i);
        }
        i = i + 1;
    }
    None
}

/// Whether a workspace is deactivated after its window was destroyed: it
/// is not kept alive by the configuration, has no children left and is not
/// displayed.
pub fn should_deactivate_workspace(keep_alive: bool, has_children: bool, is_displayed: bool) -> (r:
    bool)
    ensures
        r == (!keep_alive && !has_children && !is_displayed),
{
    !keep_alive && !has_children && !is_displayed
}

} // verus!
