use wm::container::error::WmError;
use wm::container::model::{ContainerKind, TilingDirection};
use wm::container::tree::ContainerTree;
use wm::geometry::Rect;
use wm::monitor::NativeMonitorProperties;
use wm::pending_sync::PendingSync;

fn monitor_props(name: &str) -> NativeMonitorProperties {
    NativeMonitorProperties {
        handle: 0,
        hardware_id: Some(format!("HWID-{name}")),
        device_path: Some(format!("\\\\?\\DISPLAY#{name}#0#{{GUID}}")),
        device_name: name.to_string(),
        working_area: Rect::from_xy(0, 0, 1920, 1080),
        bounds: Rect::from_xy(0, 0, 1920, 1080),
        dpi: 96,
    }
}

/// A monitor holding a workspace holding a horizontal split container with
/// three tiling windows (the monitor is not attached to the root).
struct ThreeChildren {
    tree: ContainerTree,
    workspace: usize,
    split: usize,
    windows: Vec<usize>,
}

fn three_children_state() -> ThreeChildren {
    let mut tree = ContainerTree::new();
    let monitor = tree.add_container(ContainerKind::Monitor(monitor_props("DP-1")));
    let workspace = tree.add_container(ContainerKind::Workspace(TilingDirection::Horizontal));
    let split = tree.add_container(ContainerKind::Split(TilingDirection::Horizontal));
    let mut windows = Vec::new();
    for _ in 0..3 {
        let w = tree.add_container(ContainerKind::TilingWindow);
        tree.attach_container(w, split, None).unwrap();
        windows.push(w);
    }
    tree.attach_container(split, workspace, None).unwrap();
    tree.attach_container(workspace, monitor, None).unwrap();
    ThreeChildren { tree, workspace, split, windows }
}

fn children(tree: &ContainerTree, h: usize) -> Vec<usize> {
    tree.children(h).iter().copied().collect()
}

fn focus_order(tree: &ContainerTree, h: usize) -> Vec<usize> {
    tree.child_focus_order(h).iter().copied().collect()
}

// ---------------------------------------------------------------------------
// Attaching
// ---------------------------------------------------------------------------

#[test]
fn attach_container_adds_to_end_when_index_none() {
    let mut s = three_children_state();
    let new_window = s.tree.add_container(ContainerKind::TilingWindow);
    let initial_child_count = s.tree.child_count(s.split);

    s.tree.attach_container(new_window, s.split, None).unwrap();

    assert_eq!(s.tree.child_count(s.split), initial_child_count + 1);
    assert!(s.tree.parent(new_window).is_some());
    assert_eq!(children(&s.tree, s.split).last(), Some(&new_window));
}

#[test]
fn attach_container_inserts_at_specific_index() {
    let mut s = three_children_state();
    let new_window = s.tree.add_container(ContainerKind::TilingWindow);

    s.tree.attach_container(new_window, s.split, Some(0)).unwrap();

    let first_child = children(&s.tree, s.split)[0];
    assert_eq!(first_child, new_window);
    assert!(matches!(s.tree.kind(first_child), ContainerKind::TilingWindow));
}

#[test]
fn attach_container_sets_parent_reference() {
    let mut s = three_children_state();
    let new_window = s.tree.add_container(ContainerKind::TilingWindow);

    s.tree.attach_container(new_window, s.split, None).unwrap();

    let parent = s.tree.parent(new_window).expect("Should have parent");
    assert_eq!(s.tree.id(parent), s.tree.id(s.split));
}

#[test]
fn attach_container_adds_to_child_focus_order() {
    let mut s = three_children_state();
    let new_window = s.tree.add_container(ContainerKind::TilingWindow);

    s.tree.attach_container(new_window, s.split, None).unwrap();

    let focus = focus_order(&s.tree, s.split);
    assert!(focus.into_iter().any(|id| id == new_window));
}

#[test]
fn attach_container_fails_if_already_attached() {
    let mut s = three_children_state();
    let attached_window = children(&s.tree, s.split)[0];

    let result = s.tree.attach_container(attached_window, s.split, None);

    assert!(result.is_err());
    let err = result.unwrap_err();
    assert_eq!(err, WmError::AlreadyAttached);
    assert!(err.message().contains("already attached"));
}

#[test]
fn attach_container_fails_if_attached_even_inside_itself() {
    let mut s = three_children_state();
    let window = s.windows[0];
    let result = s.tree.attach_container(s.split, window, None);
    assert_eq!(result, Err(WmError::AlreadyAttached));
    assert_eq!(s.tree.parent(s.split), Some(s.workspace));
    assert_eq!(children(&s.tree, window), Vec::<usize>::new());
}

#[test]
fn attach_container_clamps_index_past_the_end() {
    let mut s = three_children_state();
    let new_window = s.tree.add_container(ContainerKind::TilingWindow);
    s.tree.attach_container(new_window, s.split, Some(42)).unwrap();
    let mut expected = s.windows.clone();
    expected.push(new_window);
    assert_eq!(children(&s.tree, s.split), expected);
    assert_eq!(focus_order(&s.tree, s.split), expected);
}

// ---------------------------------------------------------------------------
// Detaching
// ---------------------------------------------------------------------------

#[test]
fn detach_container_removes_from_parent() {
    let mut s = three_children_state();
    let initial_child_count = s.tree.child_count(s.split);
    let child_to_remove = children(&s.tree, s.split)[0];

    s.tree.detach_container(child_to_remove).unwrap();

    assert_eq!(s.tree.child_count(s.split), initial_child_count - 1);
    assert!(s.tree.parent(child_to_remove).is_none());
}

#[test]
fn detach_container_removes_from_child_focus_order() {
    let mut s = three_children_state();
    let child_to_remove = children(&s.tree, s.split)[0];

    s.tree.detach_container(child_to_remove).unwrap();

    let focus = focus_order(&s.tree, s.split);
    assert!(!focus.into_iter().any(|id| id == child_to_remove));
}

#[test]
fn detach_container_sets_detached_flag() {
    let mut s = three_children_state();
    let child_to_remove = children(&s.tree, s.split)[0];

    s.tree.detach_container(child_to_remove).unwrap();

    assert!(s.tree.is_detached(child_to_remove));
}

#[test]
fn detach_container_flattens_empty_split() {
    let mut s = three_children_state();
    let nested_split = s.tree.add_container(ContainerKind::Split(TilingDirection::Vertical));
    let window = s.tree.add_container(ContainerKind::TilingWindow);
    s.tree.attach_container(window, nested_split, None).unwrap();
    s.tree.attach_container(nested_split, s.split, None).unwrap();
    let initial_child_count = s.tree.child_count(s.split);

    s.tree.detach_container(window).unwrap();

    assert!(s.tree.is_detached(window));
    assert_eq!(s.tree.child_count(s.split), initial_child_count - 1);
    assert!(!children(&s.tree, s.split).iter().any(|c| *c == nested_split));
}

#[test]
fn detach_container_fails_without_parent() {
    let mut tree = ContainerTree::new();
    let window = tree.add_container(ContainerKind::TilingWindow);
    assert_eq!(tree.detach_container(window), Err(WmError::NoParent));
    assert_eq!(WmError::NoParent.message(), "No parent.");
}

#[test]
fn detach_container_then_attach_restores_the_tree() {
    let mut s = three_children_state();
    let w = s.windows[1];
    s.tree.detach_container(w).unwrap();
    s.tree.attach_container(w, s.split, Some(1)).unwrap();
    assert_eq!(children(&s.tree, s.split), s.windows);
    s.tree.detach_container(w).unwrap();
    assert_eq!(children(&s.tree, s.split), vec![s.windows[0], s.windows[2]]);
}

// ---------------------------------------------------------------------------
// Flattening
// ---------------------------------------------------------------------------

/// An outer horizontal split under the workspace of the three-children
/// state, holding an inner vertical split with the given windows.
fn nested_splits(s: &mut ThreeChildren, windows: usize) -> (usize, usize, Vec<usize>) {
    let outer = s.tree.add_container(ContainerKind::Split(TilingDirection::Horizontal));
    let inner = s.tree.add_container(ContainerKind::Split(TilingDirection::Vertical));
    let mut ws = Vec::new();
    for _ in 0..windows {
        let w = s.tree.add_container(ContainerKind::TilingWindow);
        s.tree.attach_container(w, inner, None).unwrap();
        ws.push(w);
    }
    s.tree.attach_container(inner, outer, None).unwrap();
    s.tree.attach_container(outer, s.workspace, None).unwrap();
    (outer, inner, ws)
}

#[test]
fn flatten_split_container_moves_children_to_grandparent() {
    let mut s = three_children_state();
    let (outer, inner, ws) = nested_splits(&mut s, 2);
    assert_eq!(s.tree.child_count(outer), 1);

    s.tree.flatten_split_container(inner).unwrap();

    assert_eq!(s.tree.child_count(outer), 2);
    let outer_children = children(&s.tree, outer);
    assert!(outer_children.iter().any(|c| *c == ws[0]));
    assert!(outer_children.iter().any(|c| *c == ws[1]));
}

#[test]
fn flatten_split_container_removes_split_from_parent() {
    let mut s = three_children_state();
    let (outer, inner, _) = nested_splits(&mut s, 1);

    s.tree.flatten_split_container(inner).unwrap();

    assert!(!children(&s.tree, outer).iter().any(|c| *c == inner));
}

#[test]
fn flatten_split_container_updates_parent_pointers() {
    let mut s = three_children_state();
    let (outer, inner, ws) = nested_splits(&mut s, 1);

    s.tree.flatten_split_container(inner).unwrap();

    let window_parent = s.tree.parent(ws[0]).expect("Window should have parent");
    assert_eq!(window_parent, outer);
}

#[test]
fn flatten_split_container_clears_split_children() {
    let mut s = three_children_state();
    let (_, inner, _) = nested_splits(&mut s, 1);

    s.tree.flatten_split_container(inner).unwrap();

    assert_eq!(s.tree.child_count(inner), 0);
    assert!(s.tree.parent(inner).is_none());
}

#[test]
fn flatten_split_container_preserves_focus_order() {
    let mut s = three_children_state();
    let outer = s.tree.add_container(ContainerKind::Split(TilingDirection::Horizontal));
    let inner = s.tree.add_container(ContainerKind::Split(TilingDirection::Vertical));
    let window1 = s.tree.add_container(ContainerKind::TilingWindow);
    let window2 = s.tree.add_container(ContainerKind::TilingWindow);
    s.tree.attach_container(window2, inner, None).unwrap();
    s.tree.attach_container(window1, inner, None).unwrap();
    s.tree.attach_container(inner, outer, None).unwrap();
    s.tree.attach_container(outer, s.workspace, None).unwrap();

    s.tree.flatten_split_container(inner).unwrap();

    let focus = focus_order(&s.tree, outer);
    assert_eq!(focus.len(), 2);
    assert!(focus.contains(&window2));
    assert!(focus.contains(&window1));
    assert_eq!(focus, vec![window2, window1]);
}

#[test]
fn flatten_split_container_keeps_position_among_siblings() {
    let mut s = three_children_state();
    let inner = s.tree.add_container(ContainerKind::Split(TilingDirection::Vertical));
    let a = s.tree.add_container(ContainerKind::TilingWindow);
    let b = s.tree.add_container(ContainerKind::TilingWindow);
    s.tree.attach_container(a, inner, None).unwrap();
    s.tree.attach_container(b, inner, None).unwrap();
    s.tree.attach_container(inner, s.split, Some(1)).unwrap();

    s.tree.flatten_split_container(inner).unwrap();

    let w = &s.windows;
    assert_eq!(children(&s.tree, s.split), vec![w[0], a, b, w[1], w[2]]);
    assert_eq!(focus_order(&s.tree, s.split), vec![w[0], w[1], w[2], a, b]);
}

#[test]
fn flatten_split_container_fails_without_parent() {
    let mut tree = ContainerTree::new();
    let split = tree.add_container(ContainerKind::Split(TilingDirection::Vertical));
    assert_eq!(tree.flatten_split_container(split), Err(WmError::NoParent));
}

// ---------------------------------------------------------------------------
// Wrapping
// ---------------------------------------------------------------------------

#[test]
fn wrap_in_split_container_moves_children_to_split() {
    let mut s = three_children_state();
    let window1 = s.windows[0];
    let window2 = s.windows[1];
    let new_split = s.tree.add_container(ContainerKind::Split(TilingDirection::Vertical));

    s.tree.wrap_in_split_container(new_split, s.split, &vec![window1, window2]).unwrap();

    assert_eq!(s.tree.child_count(new_split), 2);
    let new_split_children = children(&s.tree, new_split);
    assert!(new_split_children.iter().any(|c| *c == window1));
    assert!(new_split_children.iter().any(|c| *c == window2));
}

#[test]
fn wrap_in_split_container_sets_parent_references() {
    let mut s = three_children_state();
    let window1 = s.windows[0];
    let window2 = s.windows[1];
    let new_split = s.tree.add_container(ContainerKind::Split(TilingDirection::Vertical));

    s.tree.wrap_in_split_container(new_split, s.split, &vec![window1, window2]).unwrap();

    assert_eq!(s.tree.parent(window1), Some(new_split));
    assert_eq!(s.tree.parent(window2), Some(new_split));
    assert_eq!(s.tree.parent(new_split), Some(s.split));
}

#[test]
fn wrap_in_split_container_preserves_focus_order() {
    let mut s = three_children_state();
    let window1 = s.windows[0];
    let window2 = s.windows[1];
    let window3 = s.windows[2];
    let new_split = s.tree.add_container(ContainerKind::Split(TilingDirection::Vertical));

    s.tree.wrap_in_split_container(new_split, s.split, &vec![window1, window2]).unwrap();

    let focus = focus_order(&s.tree, new_split);
    assert_eq!(focus.len(), 2);
    let parent_focus = focus_order(&s.tree, s.split);
    assert!(parent_focus.contains(&new_split));
    assert!(!parent_focus.contains(&window1));
    assert!(!parent_focus.contains(&window2));
    assert!(parent_focus.contains(&window3));
}

#[test]
fn wrap_in_split_container_removes_children_from_parent() {
    let mut s = three_children_state();
    let initial_child_count = s.tree.child_count(s.split);
    let window1 = s.windows[0];
    let window2 = s.windows[1];
    let new_split = s.tree.add_container(ContainerKind::Split(TilingDirection::Vertical));

    s.tree.wrap_in_split_container(new_split, s.split, &vec![window1, window2]).unwrap();

    let parent_children = children(&s.tree, s.split);
    assert!(!parent_children.iter().any(|c| *c == window1));
    assert!(!parent_children.iter().any(|c| *c == window2));
    assert_eq!(s.tree.child_count(s.split), initial_child_count - 1);
}

#[test]
fn wrap_in_split_container_inserts_at_starting_index() {
    let mut s = three_children_state();
    let before = children(&s.tree, s.split);
    let window2 = before[1];
    let window3 = before[2];
    let new_split = s.tree.add_container(ContainerKind::Split(TilingDirection::Vertical));

    s.tree.wrap_in_split_container(new_split, s.split, &vec![window2, window3]).unwrap();

    let parent_children = children(&s.tree, s.split);
    assert_eq!(parent_children[0], before[0]);
    assert_eq!(parent_children[1], new_split);
}

#[test]
fn wrap_in_split_container_takes_children_in_given_order() {
    let mut s = three_children_state();
    let w = s.windows.clone();
    let new_split = s.tree.add_container(ContainerKind::Split(TilingDirection::Vertical));

    s.tree.wrap_in_split_container(new_split, s.split, &vec![w[2], w[0]]).unwrap();

    assert_eq!(children(&s.tree, new_split), vec![w[2], w[0]]);
    assert_eq!(focus_order(&s.tree, new_split), vec![w[0], w[2]]);
    assert_eq!(children(&s.tree, s.split), vec![new_split, w[1]]);
    assert_eq!(focus_order(&s.tree, s.split), vec![new_split, w[1]]);
}

#[test]
fn wrap_in_split_container_fails_without_targets() {
    let mut s = three_children_state();
    let new_split = s.tree.add_container(ContainerKind::Split(TilingDirection::Vertical));
    let result = s.tree.wrap_in_split_container(new_split, s.split, &vec![]);
    assert_eq!(result, Err(WmError::NoTargets));
    assert_eq!(children(&s.tree, s.split), s.windows);
    assert_eq!(WmError::NoTargets.message(), "Failed to get starting index.");
}

// ---------------------------------------------------------------------------
// Lowest common ancestor
// ---------------------------------------------------------------------------

#[test]
fn lowest_common_ancestor_same_container() {
    let s = three_children_state();
    let window = children(&s.tree, s.split)[0];

    let lca = s.tree.lowest_common_ancestor(window, window);

    assert_eq!(lca.map(|c| s.tree.id(c)), Some(s.tree.id(window)));
}

#[test]
fn lowest_common_ancestor_siblings() {
    let s = three_children_state();
    let kids = children(&s.tree, s.split);

    let lca = s.tree.lowest_common_ancestor(kids[0], kids[1]);

    assert_eq!(lca.map(|c| s.tree.id(c)), Some(s.tree.id(s.split)));
}

#[test]
fn lowest_common_ancestor_parent_child() {
    let s = three_children_state();
    let window = children(&s.tree, s.split)[0];

    let lca = s.tree.lowest_common_ancestor(s.split, window);

    assert_eq!(lca.map(|c| s.tree.id(c)), Some(s.tree.id(s.split)));
}

#[test]
fn lowest_common_ancestor_grandparent() {
    let s = three_children_state();
    let window = children(&s.tree, s.split)[0];

    let lca = s.tree.lowest_common_ancestor(s.workspace, window);

    assert_eq!(lca.map(|c| s.tree.id(c)), Some(s.tree.id(s.workspace)));
}

#[test]
fn lowest_common_ancestor_nested_splits() {
    let mut tree = ContainerTree::new();
    let outer = tree.add_container(ContainerKind::Split(TilingDirection::Horizontal));
    let inner = tree.add_container(ContainerKind::Split(TilingDirection::Vertical));
    let window1 = tree.add_container(ContainerKind::TilingWindow);
    let window2 = tree.add_container(ContainerKind::TilingWindow);
    let window3 = tree.add_container(ContainerKind::TilingWindow);

    tree.attach_container(inner, outer, None).unwrap();
    tree.attach_container(window3, outer, None).unwrap();
    tree.attach_container(window1, inner, None).unwrap();
    tree.attach_container(window2, inner, None).unwrap();

    let lca = tree.lowest_common_ancestor(window1, window3);
    assert_eq!(lca.map(|c| tree.id(c)), Some(tree.id(outer)));

    let lca_nested = tree.lowest_common_ancestor(window1, window2);
    assert_eq!(lca_nested.map(|c| tree.id(c)), Some(tree.id(inner)));
}

#[test]
fn lowest_common_ancestor_different_branches() {
    let s = three_children_state();
    let kids = children(&s.tree, s.split);

    let lca = s.tree.lowest_common_ancestor(kids[0], kids[2]);

    assert_eq!(lca.map(|c| s.tree.id(c)), Some(s.tree.id(s.split)));
}

#[test]
fn lowest_common_ancestor_no_common_ancestor() {
    let mut tree = ContainerTree::new();
    let window1 = tree.add_container(ContainerKind::TilingWindow);
    let window2 = tree.add_container(ContainerKind::TilingWindow);

    let lca = tree.lowest_common_ancestor(window1, window2);

    assert!(lca.is_none());
}

#[test]
fn lowest_common_ancestor_is_symmetric_here() {
    let s = three_children_state();
    let w = &s.windows;
    assert_eq!(s.tree.lowest_common_ancestor(w[2], s.workspace), Some(s.workspace));
    assert_eq!(s.tree.lowest_common_ancestor(s.workspace, w[2]), Some(s.workspace));
    assert!(s.tree.is_ancestor_or_self(s.workspace, w[2]));
    assert!(!s.tree.is_ancestor_or_self(w[2], s.workspace));
}

// ---------------------------------------------------------------------------
// Moving within the tree
// ---------------------------------------------------------------------------

/// The root with monitor DP-1 holding workspace "1", whose split holds
/// three tiling windows; the first window has focus where asked, else the
/// workspace.
struct BuiltState {
    tree: ContainerTree,
    root: usize,
    monitor: usize,
    workspace: usize,
    split: usize,
    windows: Vec<usize>,
}

fn build_state(focus_first_window: bool) -> BuiltState {
    let mut tree = ContainerTree::new();
    let root = 0;
    let monitor = tree.add_container(ContainerKind::Monitor(monitor_props("DP-1")));
    tree.attach_container(monitor, root, None).unwrap();
    let workspace = tree.add_container(ContainerKind::Workspace(TilingDirection::Horizontal));
    let split = tree.add_container(ContainerKind::Split(TilingDirection::Horizontal));
    let mut windows = Vec::new();
    for _ in 0..3 {
        let w = tree.add_container(ContainerKind::TilingWindow);
        tree.attach_container(w, split, None).unwrap();
        windows.push(w);
    }
    tree.attach_container(split, workspace, None).unwrap();
    tree.attach_container(workspace, monitor, None).unwrap();
    if focus_first_window {
        tree.set_focused_descendant(windows[0], None);
    } else {
        tree.set_focused_descendant(workspace, None);
    }
    BuiltState { tree, root, monitor, workspace, split, windows }
}

#[test]
fn move_container_within_tree_reorders_same_parent() {
    let mut s = build_state(true);
    let kids = children(&s.tree, s.split);
    let window1 = kids[0];

    let focused = s.tree.move_container_within_tree(window1, s.split, 2).unwrap();

    let after = children(&s.tree, s.split);
    assert_eq!(after[0], kids[1], "W2 should now be first");
    assert_eq!(after[1], kids[2], "W3 should be second");
    assert_eq!(after[2], window1, "W1 should now be last");
    assert!(focused);
}

#[test]
fn move_container_within_tree_moves_to_different_parent() {
    let mut s = build_state(false);
    let ws2 = s.tree.add_container(ContainerKind::Workspace(TilingDirection::Horizontal));
    s.tree.attach_container(ws2, s.monitor, None).unwrap();
    let window1 = children(&s.tree, s.split)[0];

    s.tree.move_container_within_tree(window1, ws2, 0).unwrap();

    let mut ws1_window_count = 0;
    let mut stack = vec![s.workspace];
    while let Some(h) = stack.pop() {
        for c in children(&s.tree, h) {
            if matches!(s.tree.kind(c), ContainerKind::TilingWindow) {
                ws1_window_count += 1;
            }
            stack.push(c);
        }
    }
    assert_eq!(ws1_window_count, 2, "Workspace 1 should have 2 windows left");
    let ws2_children = children(&s.tree, ws2);
    assert_eq!(ws2_children.len(), 1, "Workspace 2 should have 1 window");
    assert_eq!(ws2_children[0], window1, "W1 should be in workspace 2");
}

#[test]
fn move_container_to_its_common_ancestor_takes_its_focus_place() {
    let mut s = build_state(true);
    let w = s.windows.clone();
    // Moving the focused first window up into the workspace.
    let focused = s.tree.move_container_within_tree(w[0], s.workspace, 0).unwrap();
    assert_eq!(children(&s.tree, s.workspace), vec![w[0], s.split]);
    assert_eq!(focus_order(&s.tree, s.workspace), vec![w[0], s.split]);
    assert_eq!(s.tree.parent(w[0]), Some(s.workspace));
    assert!(focused);
    assert_eq!(children(&s.tree, s.split), vec![w[1], w[2]]);
}

#[test]
fn move_container_into_its_own_subtree_fails() {
    let mut s = build_state(true);
    let w = s.windows.clone();
    let result = s.tree.move_container_within_tree(s.split, w[0], 0);
    assert_eq!(result, Err(WmError::NoAncestorUnderCommon));
    assert_eq!(children(&s.tree, s.split), w);
}

#[test]
fn move_container_between_trees_fails() {
    let mut s = build_state(true);
    let loose = s.tree.add_container(ContainerKind::Split(TilingDirection::Vertical));
    let result = s.tree.move_container_within_tree(s.windows[0], loose, 0);
    assert_eq!(result, Err(WmError::NoCommonAncestor));
    assert_eq!(WmError::NoCommonAncestor.message(), "No common ancestor between containers.");
}

#[test]
fn move_container_without_parent_fails() {
    let mut s = build_state(true);
    let result = s.tree.move_container_within_tree(s.root, s.split, 0);
    assert_eq!(result, Err(WmError::NoParent));
}

#[test]
fn move_container_flattens_a_redundant_split() {
    // V[1 H[2]] with container 1 moved down into H is V[H[1 2]], which is
    // flattened to V[1 2].
    let mut tree = ContainerTree::new();
    let ws = tree.add_container(ContainerKind::Workspace(TilingDirection::Vertical));
    tree.attach_container(ws, 0, None).unwrap();
    let w1 = tree.add_container(ContainerKind::TilingWindow);
    let h = tree.add_container(ContainerKind::Split(TilingDirection::Horizontal));
    let w2 = tree.add_container(ContainerKind::TilingWindow);
    tree.attach_container(w1, ws, None).unwrap();
    tree.attach_container(w2, h, None).unwrap();
    tree.attach_container(h, ws, None).unwrap();

    tree.move_container_within_tree(w1, h, 0).unwrap();

    assert_eq!(children(&tree, ws), vec![w1, w2]);
    assert!(tree.is_detached(h));
    assert!(matches!(tree.kind(ws), ContainerKind::Workspace(TilingDirection::Vertical)));
}

// ---------------------------------------------------------------------------
// Focus
// ---------------------------------------------------------------------------

#[test]
fn set_focused_descendant_gives_focus() {
    let mut s = build_state(false);
    let w = s.windows.clone();
    assert!(!s.tree.has_focus(w[2], None));
    s.tree.set_focused_descendant(w[2], None);
    assert!(s.tree.has_focus(w[2], None));
    assert_eq!(focus_order(&s.tree, s.split)[0], w[2]);
    assert_eq!(focus_order(&s.tree, s.root)[0], s.monitor);
}

#[test]
fn set_focused_descendant_stops_at_end_ancestor() {
    let mut s = build_state(true);
    let w = s.windows.clone();
    let ws2 = s.tree.add_container(ContainerKind::Workspace(TilingDirection::Horizontal));
    s.tree.attach_container(ws2, s.monitor, None).unwrap();
    s.tree.set_focused_descendant(w[1], Some(s.workspace));
    assert!(s.tree.has_focus(w[1], Some(s.workspace)));
    assert_eq!(focus_order(&s.tree, s.split)[0], w[1]);
    assert_eq!(focus_order(&s.tree, s.workspace)[0], s.split);
    assert_eq!(focus_order(&s.tree, s.monitor), vec![s.workspace, ws2]);
}

#[test]
fn focus_container_by_id_focuses_and_queues_sync() {
    let mut s = build_state(true);
    let mut sync = PendingSync::new();
    let target = s.windows[2];
    let id = s.tree.id(target);
    s.tree.focus_container_by_id(s.root, id, &mut sync).unwrap();
    assert!(s.tree.has_focus(target, None));
    assert!(sync.needs_focus_update());
    assert!(sync.needs_cursor_jump());
    assert!(!sync.needs_all_effects_update());
}

#[test]
fn focus_container_by_id_fails_for_unknown_id() {
    let mut s = build_state(true);
    let mut sync = PendingSync::new();
    let loose = s.tree.add_container(ContainerKind::TilingWindow);
    let loose_id = s.tree.id(loose);
    let result = s.tree.focus_container_by_id(s.root, loose_id, &mut sync);
    assert_eq!(result, Err(WmError::NoContainerWithId));
    assert_eq!(WmError::NoContainerWithId.message(), "No container with given id");
    assert!(!sync.needs_focus_update());
    assert_eq!(s.tree.container_by_id(s.root, loose_id), None);
    assert_eq!(s.tree.container_by_id(s.root, s.tree.id(s.split)), Some(s.split));
}

#[test]
fn container_ids_are_version_4_uuids() {
    let s = build_state(true);
    for h in 0..s.tree.len() {
        let id = s.tree.id(h);
        assert_eq!((id >> 76) & 0xf, 4);
        assert_eq!((id >> 62) & 0x3, 2);
    }
    assert_ne!(s.tree.id(s.windows[0]), s.tree.id(s.windows[1]));
}

#[test]
fn flatten_child_split_containers_flattens_a_sole_split() {
    let mut tree = ContainerTree::new();
    let ws = tree.add_container(ContainerKind::Workspace(TilingDirection::Horizontal));
    let split = tree.add_container(ContainerKind::Split(TilingDirection::Vertical));
    let a = tree.add_container(ContainerKind::TilingWindow);
    let b = tree.add_container(ContainerKind::TilingWindow);
    tree.attach_container(a, split, None).unwrap();
    tree.attach_container(b, split, None).unwrap();
    tree.attach_container(split, ws, None).unwrap();

    tree.flatten_child_split_containers(ws);

    assert_eq!(children(&tree, ws), vec![a, b]);
    assert!(matches!(tree.kind(ws), ContainerKind::Workspace(TilingDirection::Horizontal)));
    assert_eq!(tree.tiling_children(ws), vec![a, b]);
    assert!(tree.is_detached(split));
}

#[test]
fn default_tree_holds_only_a_root() {
    let tree = ContainerTree::default();
    assert_eq!(tree.len(), 1);
    assert!(matches!(tree.kind(0), ContainerKind::Root));
    assert!(tree.is_detached(0));
    assert_eq!(tree.child_count(0), 0);
}

#[test]
fn flatten_child_split_containers_flattens_single_child_splits_only() {
    let mut tree = ContainerTree::new();
    let ws = tree.add_container(ContainerKind::Workspace(TilingDirection::Horizontal));
    let one = tree.add_container(ContainerKind::Split(TilingDirection::Vertical));
    let two = tree.add_container(ContainerKind::Split(TilingDirection::Vertical));
    let a = tree.add_container(ContainerKind::TilingWindow);
    let b = tree.add_container(ContainerKind::TilingWindow);
    let c = tree.add_container(ContainerKind::TilingWindow);
    tree.attach_container(a, one, None).unwrap();
    tree.attach_container(b, two, None).unwrap();
    tree.attach_container(c, two, None).unwrap();
    tree.attach_container(one, ws, None).unwrap();
    tree.attach_container(two, ws, None).unwrap();

    tree.flatten_child_split_containers(ws);

    assert_eq!(children(&tree, ws), vec![a, two]);
    assert_eq!(children(&tree, two), vec![b, c]);
}
