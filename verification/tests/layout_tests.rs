//! Scenario tests for the container tree: share bookkeeping, workspace
//! geometry, and the documented clamp/reject policies.

use wm_core::container::{Container, ContainerKind, ContainerType, Workspace, WorkspaceConfig};
use wm_core::errors::LayoutError;
use wm_core::fractions::{
    copy_all, copy_without, sum_vec, units_after_insert, units_after_remove, units_after_resize,
};
use wm_core::geometry::{Rect, RectDelta, ResizeDimension, TilingDirection, TOTAL_UNITS};
use wm_core::tree::Tree;

fn monitor_rect() -> Rect {
    Rect { x: 0, y: 0, width: 1920, height: 1080 }
}

fn ws_config() -> WorkspaceConfig {
    WorkspaceConfig { name: String::from("main"), tiling_direction: TilingDirection::Horizontal }
}

/// Builds root -> monitor -> workspace and returns (tree, monitor id,
/// workspace id).
fn tree_with_workspace(gaps: RectDelta) -> (Tree, u64, u64) {
    let mut t = Tree::new();
    let m = t.add_monitor(String::from("DISPLAY1"), monitor_rect()).unwrap();
    let w = t.activate_workspace(m, ws_config(), gaps).unwrap();
    (t, m, w)
}

fn split_sizes(t: &Tree) -> Vec<u32> {
    let split = &t.root.children[0].children[0].children[0];
    split.children.iter().map(|c| c.size_units).collect()
}

#[test]
fn workspace_geometry_without_gaps() {
    let (t, _m, w) = tree_with_workspace(RectDelta::zero());
    let r = t.geometry(w).unwrap();
    assert_eq!(r, Rect { x: 0, y: 0, width: 1920, height: 1080 });
}

#[test]
fn workspace_geometry_with_pixel_gaps() {
    let gaps = RectDelta {
        left: ResizeDimension::Pixels(10),
        right: ResizeDimension::Pixels(10),
        top: ResizeDimension::Pixels(5),
        bottom: ResizeDimension::Pixels(5),
    };
    let (t, _m, w) = tree_with_workspace(gaps);
    let r = t.geometry(w).unwrap();
    assert_eq!(r, Rect { x: 10, y: 5, width: 1900, height: 1070 });
}

#[test]
fn workspace_geometry_with_percent_gaps() {
    // 10% of 1920 is 192; 50% of 1080 is 540.
    let gaps = RectDelta {
        left: ResizeDimension::Percent(1000),
        right: ResizeDimension::Pixels(0),
        top: ResizeDimension::Percent(5000),
        bottom: ResizeDimension::Pixels(0),
    };
    let (t, _m, w) = tree_with_workspace(gaps);
    let r = t.geometry(w).unwrap();
    assert_eq!(r, Rect { x: 192, y: 540, width: 1728, height: 540 });
}

#[test]
fn oversized_gaps_clamp_extent_at_zero() {
    let gaps = RectDelta {
        left: ResizeDimension::Pixels(2000),
        right: ResizeDimension::Pixels(2000),
        top: ResizeDimension::Pixels(0),
        bottom: ResizeDimension::Pixels(0),
    };
    let (t, _m, w) = tree_with_workspace(gaps);
    let r = t.geometry(w).unwrap();
    assert_eq!(r.x, 2000);
    assert_eq!(r.width, 0);
    assert_eq!(r.height, 1080);
}

#[test]
fn two_windows_split_evenly_then_one_takes_all() {
    let (mut t, _m, w) = tree_with_workspace(RectDelta::zero());
    let s = t.add_split(w, TilingDirection::Horizontal, 0, None).unwrap();
    let w1 = t.manage_window(s, 100, monitor_rect(), 0, None).unwrap();
    let w2 = t.manage_window(s, 101, monitor_rect(), 1, None).unwrap();
    assert_eq!(split_sizes(&t), vec![5000, 5000]);
    let removed = t.remove_container(w1).unwrap();
    assert_eq!(removed.id, w1);
    assert_eq!(split_sizes(&t), vec![10000]);
    let _ = w2;
}

#[test]
fn third_window_gets_an_equal_share() {
    let (mut t, _m, w) = tree_with_workspace(RectDelta::zero());
    let s = t.add_split(w, TilingDirection::Horizontal, 0, None).unwrap();
    let _w1 = t.manage_window(s, 100, monitor_rect(), 0, None).unwrap();
    let _w2 = t.manage_window(s, 101, monitor_rect(), 1, None).unwrap();
    let _w3 = t.manage_window(s, 102, monitor_rect(), 2, None).unwrap();
    // Equal thirds; the rounding remainder goes to the last previously
    // existing child.
    assert_eq!(split_sizes(&t), vec![3333, 3334, 3333]);
    assert_eq!(split_sizes(&t).iter().sum::<u32>(), TOTAL_UNITS);
}

#[test]
fn resize_moves_share_to_the_adjacent_sibling() {
    let (mut t, _m, w) = tree_with_workspace(RectDelta::zero());
    let s = t.add_split(w, TilingDirection::Horizontal, 0, None).unwrap();
    let w1 = t.manage_window(s, 100, monitor_rect(), 0, None).unwrap();
    let _w2 = t.manage_window(s, 101, monitor_rect(), 1, None).unwrap();
    // +0.1 of the whole.
    t.resize_container(w1, 1000).unwrap();
    assert_eq!(split_sizes(&t), vec![6000, 4000]);
}

#[test]
fn resize_below_zero_is_rejected_without_corruption() {
    let (mut t, _m, w) = tree_with_workspace(RectDelta::zero());
    let s = t.add_split(w, TilingDirection::Horizontal, 0, None).unwrap();
    let w1 = t.manage_window(s, 100, monitor_rect(), 0, None).unwrap();
    let _w2 = t.manage_window(s, 101, monitor_rect(), 1, None).unwrap();
    let e = t.resize_container(w1, -7000).unwrap_err();
    assert_eq!(e, LayoutError::InsufficientSpace);
    assert_eq!(split_sizes(&t), vec![5000, 5000]);
}

#[test]
fn resize_to_exactly_zero_is_allowed() {
    let (mut t, _m, w) = tree_with_workspace(RectDelta::zero());
    let s = t.add_split(w, TilingDirection::Horizontal, 0, None).unwrap();
    let w1 = t.manage_window(s, 100, monitor_rect(), 0, None).unwrap();
    let _w2 = t.manage_window(s, 101, monitor_rect(), 1, None).unwrap();
    t.resize_container(w1, -5000).unwrap();
    assert_eq!(split_sizes(&t), vec![0, 10000]);
}

#[test]
fn sole_child_cannot_be_resized() {
    let (mut t, _m, w) = tree_with_workspace(RectDelta::zero());
    let s = t.add_split(w, TilingDirection::Horizontal, 0, None).unwrap();
    let w1 = t.manage_window(s, 100, monitor_rect(), 0, None).unwrap();
    assert_eq!(t.resize_container(w1, 100).unwrap_err(), LayoutError::InsufficientSpace);
}

#[test]
fn explicit_share_is_honored_and_bounded() {
    let (mut t, _m, w) = tree_with_workspace(RectDelta::zero());
    let s = t.add_split(w, TilingDirection::Horizontal, 0, None).unwrap();
    let _w1 = t.manage_window(s, 100, monitor_rect(), 0, None).unwrap();
    let _w2 = t.manage_window(s, 101, monitor_rect(), 1, Some(2500)).unwrap();
    assert_eq!(split_sizes(&t), vec![7500, 2500]);
    let e = t.manage_window(s, 102, monitor_rect(), 2, Some(10001)).unwrap_err();
    assert_eq!(e, LayoutError::InvalidFraction);
}

#[test]
fn insert_at_out_of_range_index_is_rejected() {
    let (mut t, _m, w) = tree_with_workspace(RectDelta::zero());
    let s = t.add_split(w, TilingDirection::Horizontal, 0, None).unwrap();
    let e = t.manage_window(s, 100, monitor_rect(), 3, None).unwrap_err();
    assert_eq!(e, LayoutError::InvalidIndex);
}

#[test]
fn windows_tile_the_parent_exactly() {
    let (mut t, _m, w) = tree_with_workspace(RectDelta::zero());
    let s = t.add_split(w, TilingDirection::Horizontal, 0, None).unwrap();
    let w1 = t.manage_window(s, 100, monitor_rect(), 0, None).unwrap();
    let w2 = t.manage_window(s, 101, monitor_rect(), 1, None).unwrap();
    let w3 = t.manage_window(s, 102, monitor_rect(), 2, None).unwrap();
    let r1 = t.geometry(w1).unwrap();
    let r2 = t.geometry(w2).unwrap();
    let r3 = t.geometry(w3).unwrap();
    assert_eq!(r1.x, 0);
    assert_eq!(r2.x, r1.x + r1.width);
    assert_eq!(r3.x, r2.x + r2.width);
    assert_eq!(r1.width + r2.width + r3.width, 1920);
    assert_eq!(r1.height, 1080);
    assert_eq!(r2.y, 0);
}

#[test]
fn vertical_split_tiles_along_y() {
    let (mut t, _m, w) = tree_with_workspace(RectDelta::zero());
    let s = t.add_split(w, TilingDirection::Vertical, 0, None).unwrap();
    let w1 = t.manage_window(s, 100, monitor_rect(), 0, None).unwrap();
    let w2 = t.manage_window(s, 101, monitor_rect(), 1, None).unwrap();
    let r1 = t.geometry(w1).unwrap();
    let r2 = t.geometry(w2).unwrap();
    assert_eq!(r1, Rect { x: 0, y: 0, width: 1920, height: 540 });
    assert_eq!(r2, Rect { x: 0, y: 540, width: 1920, height: 540 });
}

#[test]
fn root_has_no_geometry() {
    let (t, _m, _w) = tree_with_workspace(RectDelta::zero());
    assert_eq!(t.geometry(0).unwrap_err(), LayoutError::RootHasNoGeometry);
    assert_eq!(t.geometry(999).unwrap_err(), LayoutError::NotFound);
}

#[test]
fn monitor_cannot_hold_tiling_windows() {
    let (mut t, m, _w) = tree_with_workspace(RectDelta::zero());
    let e = t.manage_window(m, 100, monitor_rect(), 0, None).unwrap_err();
    assert_eq!(e, LayoutError::NotTilingCapable);
}

#[test]
fn invalid_monitor_rect_is_rejected() {
    let mut t = Tree::new();
    let bad = Rect { x: 0, y: 0, width: -5, height: 100 };
    assert_eq!(
        t.add_monitor(String::from("DISPLAY1"), bad).unwrap_err(),
        LayoutError::InvalidGeometry
    );
}

#[test]
fn exhausted_identifier_counter_is_refused() {
    let mut t = Tree::new();
    t.next_id = u64::MAX;
    assert_eq!(
        t.add_monitor(String::from("DISPLAY1"), monitor_rect()).unwrap_err(),
        LayoutError::CapacityExceeded
    );
}

#[test]
fn removing_the_root_is_refused() {
    let (mut t, _m, _w) = tree_with_workspace(RectDelta::zero());
    assert!(matches!(t.remove_container(0), Err(LayoutError::NotAChild)));
}

#[test]
fn direction_change_keeps_shares() {
    let (mut t, _m, w) = tree_with_workspace(RectDelta::zero());
    let s = t.add_split(w, TilingDirection::Horizontal, 0, None).unwrap();
    let _w1 = t.manage_window(s, 100, monitor_rect(), 0, None).unwrap();
    let _w2 = t.manage_window(s, 101, monitor_rect(), 1, Some(3000)).unwrap();
    t.set_tiling_direction(s, TilingDirection::Vertical).unwrap();
    assert_eq!(split_sizes(&t), vec![7000, 3000]);
    let split = &t.root.children[0].children[0].children[0];
    assert!(matches!(
        split.kind,
        ContainerKind::Split(ref i) if i.tiling_direction == TilingDirection::Vertical
    ));
}

#[test]
fn windows_cannot_change_direction() {
    let (mut t, _m, w) = tree_with_workspace(RectDelta::zero());
    let s = t.add_split(w, TilingDirection::Horizontal, 0, None).unwrap();
    let w1 = t.manage_window(s, 100, monitor_rect(), 0, None).unwrap();
    assert_eq!(
        t.set_tiling_direction(w1, TilingDirection::Vertical).unwrap_err(),
        LayoutError::NotTilingCapable
    );
}

#[test]
fn non_tiling_windows_are_tracked_separately() {
    let cfg = ws_config();
    let gaps = RectDelta::zero();
    let mut ws = Container::new_workspace(7, Workspace::new(cfg, gaps));
    let float = Container::new_window(
        8,
        500,
        Rect { x: 30, y: 40, width: 300, height: 200 },
        false,
    );
    ws.add_non_tiling(float).unwrap();
    assert_eq!(ws.children.len(), 0);
    assert_eq!(ws.non_tiling_children.len(), 1);
    assert!(matches!(ws.non_tiling_children[0].kind, ContainerKind::NonTilingWindow(_)));
    let back = ws.remove_non_tiling(8).unwrap();
    assert_eq!(back.id, 8);
    assert!(matches!(
        back.kind,
        ContainerKind::NonTilingWindow(ref w) if w.stored_rect.x == 30 && w.stored_rect.width == 300
    ));
    assert_eq!(ws.non_tiling_children.len(), 0);
}

#[test]
fn non_tiling_windows_refused_outside_workspaces() {
    let mut split = Container::new_split(3, TilingDirection::Horizontal);
    let float = Container::new_window(4, 500, monitor_rect(), false);
    assert_eq!(split.add_non_tiling(float).unwrap_err(), LayoutError::NotTilingCapable);
}

#[test]
fn share_vector_insert_scales_proportionally() {
    let sizes: Vec<u32> = vec![6000, 4000];
    let (r, share) = units_after_insert(&sizes, 1, None).unwrap();
    // New share is a third; the others shrink by the same factor, the
    // remainder landing on the last existing child.
    assert_eq!(share, 3333);
    assert_eq!(r, vec![4000, 3333, 2667]);
    assert_eq!(sum_vec(&r), 10000);
}

#[test]
fn share_vector_remove_restores_the_whole() {
    let sizes: Vec<u32> = vec![4000, 3333, 2667];
    let r = units_after_remove(&sizes, 1);
    assert_eq!(sum_vec(&r), 10000);
    // 4000 * 10000 / 6667 rounded down, remainder to the last.
    assert_eq!(r, vec![5999, 4001]);
}

#[test]
fn share_vector_remove_of_full_share_splits_equally() {
    let sizes: Vec<u32> = vec![10000, 0, 0];
    let r = units_after_remove(&sizes, 0);
    assert_eq!(r, vec![5000, 5000]);
}

#[test]
fn share_vector_resize_is_exact() {
    let sizes: Vec<u32> = vec![5000, 5000];
    let r = units_after_resize(&sizes, 0, 1000).unwrap();
    assert_eq!(r, vec![6000, 4000]);
    assert_eq!(
        units_after_resize(&sizes, 0, -5001).unwrap_err(),
        LayoutError::InsufficientSpace
    );
    // The last child borrows from the previous one.
    let r2 = units_after_resize(&sizes, 1, 500).unwrap();
    assert_eq!(r2, vec![4500, 5500]);
}

#[test]
fn share_vector_helpers_copy_exactly() {
    let sizes: Vec<u32> = vec![1, 2, 3];
    assert_eq!(copy_all(&sizes), vec![1, 2, 3]);
    assert_eq!(copy_without(&sizes, 1), vec![1, 3]);
}

#[test]
fn to_pixels_resolves_both_forms() {
    assert_eq!(ResizeDimension::Pixels(25).to_pixels(1920), 25);
    assert_eq!(ResizeDimension::Percent(2500).to_pixels(1920), 480);
    assert_eq!(ResizeDimension::Percent(10000).to_pixels(777), 777);
    assert_eq!(ResizeDimension::Percent(0).to_pixels(777), 0);
}

#[test]
fn container_types_are_derived_from_kind() {
    let t = Tree::new();
    assert_eq!(t.root.container_type(), ContainerType::Root);
    let w = Container::new_window(5, 9, monitor_rect(), true);
    assert_eq!(w.container_type(), ContainerType::TilingWindow);
}
