use wm::container::model::ContainerKind;
use wm::container::tree::ContainerTree;
use wm::display::finish_display_settings_change;
use wm::events::{DisplayState, WindowProps, WindowState};
use wm::pending_sync::PendingSync;
use wm::display::{handle_display_settings_changed, should_recenter, DisplayAction};
use wm::geometry::Rect;
use wm::monitor::NativeMonitorProperties;

fn props(handle: isize, path: Option<&str>, hw: Option<&str>) -> NativeMonitorProperties {
    NativeMonitorProperties {
        handle,
        hardware_id: hw.map(String::from),
        device_path: path.map(String::from),
        device_name: String::new(),
        working_area: Rect::from_xy(0, 0, 1920, 1080),
        bounds: Rect::from_xy(0, 0, 1920, 1080),
        dpi: 96,
    }
}

#[test]
fn unchanged_displays_update_their_monitors() {
    let monitors = [props(1, None, None), props(2, None, None)];
    let displays = [props(2, None, None), props(1, None, None)];
    let actions = handle_display_settings_changed(&monitors, &displays);
    assert_eq!(
        actions,
        vec![
            DisplayAction::Update { monitor: 1, display: 0 },
            DisplayAction::Update { monitor: 0, display: 1 },
        ]
    );
}

#[test]
fn new_display_adds_a_monitor() {
    let monitors = [props(1, Some("DP-1"), None)];
    let displays = [props(1, Some("DP-1"), None), props(5, Some("DP-2"), None)];
    let actions = handle_display_settings_changed(&monitors, &displays);
    assert_eq!(
        actions,
        vec![
            DisplayAction::Update { monitor: 0, display: 0 },
            DisplayAction::Add { display: 1 },
        ]
    );
}

#[test]
fn unmatched_display_takes_over_an_unmatched_monitor() {
    let monitors = [props(1, None, None), props(2, None, None)];
    let displays = [props(7, None, None), props(2, None, None)];
    let actions = handle_display_settings_changed(&monitors, &displays);
    assert_eq!(
        actions,
        vec![
            DisplayAction::Update { monitor: 1, display: 1 },
            DisplayAction::Update { monitor: 0, display: 0 },
        ]
    );
}

#[test]
fn disconnected_monitor_is_removed() {
    let monitors = [props(1, None, None), props(2, None, None), props(3, None, None)];
    let displays = [props(3, None, None)];
    let actions = handle_display_settings_changed(&monitors, &displays);
    assert_eq!(
        actions,
        vec![
            DisplayAction::Update { monitor: 2, display: 0 },
            DisplayAction::Remove { monitor: 0 },
            DisplayAction::Remove { monitor: 1 },
        ]
    );
}

#[test]
fn last_monitor_is_never_removed() {
    let monitors = [props(1, None, None), props(2, None, None)];
    let displays: [NativeMonitorProperties; 0] = [];
    let actions = handle_display_settings_changed(&monitors, &displays);
    assert_eq!(actions, vec![DisplayAction::Remove { monitor: 0 }]);
    let single = [props(1, None, None)];
    assert!(handle_display_settings_changed(&single, &displays).is_empty());
}

#[test]
fn hardware_id_is_matched_among_monitors_still_pending() {
    // Both monitors share a hardware id; once the first is matched by its
    // handle, the id is unique among the monitors left.
    let monitors = [props(1, None, Some("HW")), props(2, None, Some("HW"))];
    let displays = [props(1, None, Some("HW")), props(9, None, Some("HW"))];
    let actions = handle_display_settings_changed(&monitors, &displays);
    assert_eq!(
        actions,
        vec![
            DisplayAction::Update { monitor: 0, display: 0 },
            DisplayAction::Update { monitor: 1, display: 1 },
        ]
    );
}

#[test]
fn floating_placement_is_recentered_unless_custom_and_visible() {
    let workspace = Rect::from_xy(0, 0, 1920, 1080);
    let inside = Rect::from_xy(100, 100, 400, 300);
    let outside = Rect::from_xy(3000, 100, 400, 300);
    let touching = Rect::from_xy(1920, 0, 100, 100);
    assert!(should_recenter(false, &inside, &workspace));
    assert!(!should_recenter(true, &inside, &workspace));
    assert!(should_recenter(true, &outside, &workspace));
    assert!(should_recenter(true, &touching, &workspace));
}

#[test]
fn intersection_area_of_overlapping_rects() {
    let a = Rect::from_xy(0, 0, 100, 50);
    let b = Rect::from_xy(60, 20, 100, 100);
    assert_eq!(a.intersection_area(&b), 40 * 30);
    assert_eq!(b.intersection_area(&a), 1200);
    assert_eq!(a.intersection_area(&Rect::from_xy(-10, -10, 5, 5)), 0);
    assert_eq!(a.x(), 0);
    assert_eq!(b.y(), 20);
}

#[test]
fn finishing_a_display_change_sorts_marks_and_redraws() {
    let mut tree = ContainerTree::new();
    let mut right = props(2, None, None);
    right.bounds = Rect::from_xy(1920, 0, 1920, 1080);
    let m_right = tree.add_container(ContainerKind::Monitor(right));
    let m_left = tree.add_container(ContainerKind::Monitor(props(1, None, None)));
    tree.attach_container(m_right, 0, None).unwrap();
    tree.attach_container(m_left, 0, None).unwrap();
    let window = WindowProps {
        state: WindowState::Tiling,
        prev_state: None,
        display_state: DisplayState::Shown,
        is_minimized: false,
        has_active_drag: false,
        has_pending_dpi_adjustment: false,
    };
    let mut windows = vec![window, window];
    let mut sync = PendingSync::new();

    finish_display_settings_change(&mut tree, 0, &mut windows, &mut sync);

    assert_eq!(tree.children(0).iter().copied().collect::<Vec<_>>(), vec![m_left, m_right]);
    assert!(windows.iter().all(|w| w.has_pending_dpi_adjustment));
    assert_eq!(sync.containers_to_redraw(), &vec![0]);
}
