use wm::container::model::ContainerKind;
use wm::container::tree::ContainerTree;
use wm::geometry::Rect;
use wm::monitor::NativeMonitorProperties;

fn create_monitor_with_position(name: &str, x: i32, y: i32) -> ContainerKind {
    ContainerKind::Monitor(NativeMonitorProperties {
        handle: 0,
        hardware_id: Some(format!("HWID-{name}")),
        device_path: Some(format!("\\\\?\\DISPLAY#{name}#0")),
        device_name: name.to_string(),
        working_area: Rect::from_xy(x, y, 1920, 1080),
        bounds: Rect::from_xy(x, y, 1920, 1080),
        dpi: 96,
    })
}

fn sorted_names(tree: &ContainerTree, root: usize) -> Vec<String> {
    tree.children(root)
        .iter()
        .map(|c| match tree.kind(*c) {
            ContainerKind::Monitor(p) => p.device_name.clone(),
            _ => panic!("expected a monitor"),
        })
        .collect()
}

fn root_with(monitors: &[(&str, i32, i32)]) -> ContainerTree {
    let mut tree = ContainerTree::new();
    for (name, x, y) in monitors {
        let m = tree.add_container(create_monitor_with_position(name, *x, *y));
        tree.attach_container(m, 0, None).unwrap();
    }
    tree
}

#[test]
fn sort_monitors_by_x_position() {
    let mut root = root_with(&[("M1", 1920, 0), ("M2", 0, 0), ("M3", 3840, 0)]);
    root.sort_monitors(0);
    assert_eq!(sorted_names(&root, 0), vec!["M2", "M1", "M3"]);
}

#[test]
fn sort_monitors_by_y_when_same_x() {
    let mut root = root_with(&[("M1", 0, 1080), ("M2", 0, 0), ("M3", 0, 2160)]);
    root.sort_monitors(0);
    assert_eq!(sorted_names(&root, 0), vec!["M2", "M1", "M3"]);
}

#[test]
fn sort_monitors_two_dimensional_grid() {
    let mut root =
        root_with(&[("M1", 1920, 0), ("M2", 0, 1080), ("M3", 0, 0), ("M4", 1920, 1080)]);
    root.sort_monitors(0);
    // Sort order: first by x (left-to-right), then by y (top-to-bottom)
    assert_eq!(sorted_names(&root, 0), vec!["M3", "M2", "M1", "M4"]);
}

#[test]
fn sort_monitors_single_monitor() {
    let mut root = root_with(&[("M1", 100, 200)]);
    root.sort_monitors(0);
    assert_eq!(sorted_names(&root, 0), vec!["M1"]);
}

#[test]
fn sort_monitors_empty_root() {
    let mut root = ContainerTree::new();
    root.sort_monitors(0);
    assert_eq!(root.children(0).len(), 0);
}

#[test]
fn sort_monitors_keeps_order_of_equal_positions_and_focus() {
    let mut root = root_with(&[("B", 5, 5), ("A", 5, 5), ("C", -10, 5)]);
    let focus_before: Vec<usize> = root.child_focus_order(0).iter().copied().collect();
    root.sort_monitors(0);
    assert_eq!(sorted_names(&root, 0), vec!["C", "B", "A"]);
    let focus_after: Vec<usize> = root.child_focus_order(0).iter().copied().collect();
    assert_eq!(focus_before, focus_after);
    assert_eq!(root.monitors(0).len(), 3);
}
