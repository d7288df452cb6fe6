use wm::geometry::Rect;
use wm::monitor::{find_matching_monitor, NativeMonitorProperties};

fn make_properties(
    handle: isize,
    device_path: Option<&str>,
    hardware_id: Option<&str>,
) -> NativeMonitorProperties {
    NativeMonitorProperties {
        handle,
        hardware_id: hardware_id.map(String::from),
        device_path: device_path.map(String::from),
        device_name: String::new(),
        working_area: Rect::from_xy(0, 0, 1920, 1080),
        bounds: Rect::from_xy(0, 0, 1920, 1080),
        dpi: 96,
    }
}

fn make_monitor(
    handle: isize,
    device_path: Option<&str>,
    hardware_id: Option<&str>,
) -> NativeMonitorProperties {
    make_properties(handle, device_path, hardware_id)
}

#[test]
fn find_matching_monitor_by_handle() {
    let monitors = [make_monitor(1, None, None), make_monitor(2, None, None)];
    let properties = make_properties(2, None, None);

    let result = find_matching_monitor(&monitors, &properties);
    assert!(result.is_some());
    let (_monitor, index) = result.unwrap();
    assert_eq!(index, 1);
}

#[test]
fn find_matching_monitor_by_device_path() {
    let monitors = [
        make_monitor(1, Some("DP-1"), None),
        make_monitor(2, Some("HDMI-1"), None),
    ];
    let properties = make_properties(999, Some("HDMI-1"), None);

    let result = find_matching_monitor(&monitors, &properties);
    assert!(result.is_some());
    let (_monitor, index) = result.unwrap();
    assert_eq!(index, 1);
}

#[test]
fn find_matching_monitor_by_unique_hardware_id() {
    let monitors = [
        make_monitor(1, None, Some("MONITOR1")),
        make_monitor(2, None, Some("MONITOR2")),
    ];
    let properties = make_properties(999, None, Some("MONITOR2"));

    let result = find_matching_monitor(&monitors, &properties);
    assert!(result.is_some());
    let (_monitor, index) = result.unwrap();
    assert_eq!(index, 1);
}

#[test]
fn no_match_when_hardware_id_not_unique() {
    let monitors = [
        make_monitor(1, None, Some("SAME_ID")),
        make_monitor(2, None, Some("SAME_ID")),
    ];
    let properties = make_properties(999, None, Some("SAME_ID"));

    let result = find_matching_monitor(&monitors, &properties);
    assert!(result.is_none());
}

#[test]
fn no_match_when_no_matching_properties() {
    let monitors = [
        make_monitor(1, Some("DP-1"), None),
        make_monitor(2, Some("HDMI-1"), None),
    ];
    let properties = make_properties(999, Some("DISPLAY_PORT_3"), None);

    let result = find_matching_monitor(&monitors, &properties);
    assert!(result.is_none());
}

#[test]
fn no_match_empty_monitors_list() {
    let monitors: [NativeMonitorProperties; 0] = [];
    let properties = make_properties(1, None, None);

    let result = find_matching_monitor(&monitors, &properties);
    assert!(result.is_none());
}

#[test]
fn handle_takes_precedence_over_device_path() {
    let monitors = [
        make_monitor(1, Some("DP-1"), Some("HW1")),
        make_monitor(2, Some("DP-2"), Some("HW2")),
    ];
    let properties = make_properties(1, Some("DP-2"), Some("HW2"));

    let result = find_matching_monitor(&monitors, &properties);
    assert!(result.is_some());
    let (monitor, index) = result.unwrap();
    assert_eq!(index, 0);
    assert_eq!(monitor.handle, 1);
}

#[test]
fn handle_takes_precedence_over_hardware_id() {
    let monitors = [
        make_monitor(1, None, Some("HW1")),
        make_monitor(2, None, Some("HW2")),
    ];
    let properties = make_properties(1, None, Some("HW2"));

    let result = find_matching_monitor(&monitors, &properties);
    assert!(result.is_some());
    let (monitor, index) = result.unwrap();
    assert_eq!(index, 0);
    assert_eq!(monitor.handle, 1);
}

#[test]
fn device_path_takes_precedence_over_hardware_id() {
    let monitors = [
        make_monitor(999, Some("DP-1"), Some("HW1")),
        make_monitor(998, Some("DP-2"), Some("HW2")),
    ];
    let properties = make_properties(1000, Some("DP-1"), Some("HW2"));

    let result = find_matching_monitor(&monitors, &properties);
    assert!(result.is_some());
    let (monitor, index) = result.unwrap();
    assert_eq!(index, 0);
    assert_eq!(monitor.device_path, Some("DP-1".to_string()));
}

#[test]
fn first_matching_monitor_is_returned() {
    let monitors = [
        make_monitor(1, Some("DP-1"), None),
        make_monitor(2, Some("DP-1"), None),
    ];
    let properties = make_properties(999, Some("DP-1"), None);

    let result = find_matching_monitor(&monitors, &properties);
    assert!(result.is_some());
    let (_monitor, index) = result.unwrap();
    assert_eq!(index, 0);
}

#[test]
fn none_properties_matches_none_monitor_properties() {
    let monitors = [make_monitor(1, None, None), make_monitor(2, None, None)];
    let properties = make_properties(999, None, None);

    let result = find_matching_monitor(&monitors, &properties);
    assert!(result.is_none());
}

#[test]
fn partially_matching_properties_do_not_match() {
    let monitors = [
        make_monitor(1, Some("DP-1"), Some("HW1")),
        make_monitor(2, Some("DP-2"), Some("HW2")),
    ];
    let properties = make_properties(999, Some("DP-1"), Some("HW2"));

    let result = find_matching_monitor(&monitors, &properties);
    assert!(result.is_some());
    let (_monitor, index) = result.unwrap();
    assert_eq!(index, 0);
}

#[test]
fn unique_hardware_id_matches_after_handle_and_path_fail() {
    let monitors = [
        make_monitor(1, Some("DP-1"), Some("HW1")),
        make_monitor(2, Some("DP-2"), Some("HW2")),
        make_monitor(3, Some("DP-3"), Some("HW1")),
    ];
    // HW2 is unique among the monitors; HW1 is not.
    let by_unique = make_properties(50, Some("X"), Some("HW2"));
    assert_eq!(find_matching_monitor(&monitors, &by_unique).map(|(_, i)| i), Some(1));
    let by_shared = make_properties(50, Some("X"), Some("HW1"));
    assert!(find_matching_monitor(&monitors, &by_shared).is_none());
}
