//! Scenario tests for the traversal producers, the event protocol, the
//! focus bookkeeping, and the tray decision core.

use wm_core::errors::LayoutError;
use wm_core::events::{Wm, WmEvent};
use wm_core::geometry::{Rect, RectDelta, TilingDirection};
use wm_core::container::{ContainerKind, ContainerType, WorkspaceConfig};
use wm_core::tray::{TrayCommand, TrayMenuSelection, TrayState};
use wm_core::tree::Tree;

fn monitor_rect() -> Rect {
    Rect { x: 0, y: 0, width: 1920, height: 1080 }
}

fn ws_config(name: &str) -> WorkspaceConfig {
    WorkspaceConfig {
        name: String::from(name),
        tiling_direction: TilingDirection::Horizontal,
    }
}

/// root -> monitor -> workspace -> split -> two windows.
fn sample_tree() -> (Tree, u64, u64, u64, u64, u64) {
    let mut t = Tree::new();
    let m = t.add_monitor(String::from("DISPLAY1"), monitor_rect()).unwrap();
    let w = t.activate_workspace(m, ws_config("main"), RectDelta::zero()).unwrap();
    let s = t.add_split(w, TilingDirection::Horizontal, 0, None).unwrap();
    let w1 = t.manage_window(s, 100, monitor_rect(), 0, None).unwrap();
    let w2 = t.manage_window(s, 101, monitor_rect(), 1, None).unwrap();
    (t, m, w, s, w1, w2)
}

fn collect_desc(mut d: wm_core::traversal::Descendants) -> Vec<u64> {
    let mut out = Vec::new();
    while let Some(id) = d.next() {
        out.push(id);
    }
    out
}

#[test]
fn ancestors_of_root_is_empty() {
    let (t, ..) = sample_tree();
    let mut a = t.ancestors(0).unwrap();
    assert_eq!(a.next(), None);
}

#[test]
fn ancestors_of_a_leaf_stop_before_the_root() {
    let (t, m, w, s, w1, _w2) = sample_tree();
    let mut a = t.ancestors(w1).unwrap();
    // Nearest first; three levels below the monitor level; the root is
    // not yielded.
    assert_eq!(a.next(), Some(s));
    assert_eq!(a.next(), Some(w));
    assert_eq!(a.next(), Some(m));
    assert_eq!(a.next(), None);
    assert_eq!(a.next(), None);
}

#[test]
fn self_and_ancestors_prepend_self_to_ancestors() {
    let (t, m, w, s, w1, _w2) = sample_tree();
    // The node itself, then exactly what ancestors() yields: the root is
    // not included, and the root's own traversal is just the root.
    let mut a = t.self_and_ancestors(w1).unwrap();
    assert_eq!(a.next(), Some(w1));
    assert_eq!(a.next(), Some(s));
    assert_eq!(a.next(), Some(w));
    assert_eq!(a.next(), Some(m));
    assert_eq!(a.next(), None);
    let mut r = t.self_and_ancestors(0).unwrap();
    assert_eq!(r.next(), Some(0));
    assert_eq!(r.next(), None);
}

#[test]
fn descendants_come_in_preorder_exactly_once() {
    let (t, m, w, s, w1, w2) = sample_tree();
    let d = t.descendants(m).unwrap();
    assert_eq!(collect_desc(d), vec![w, s, w1, w2]);
    let d2 = t.descendants(w1).unwrap();
    assert_eq!(collect_desc(d2), Vec::<u64>::new());
}

#[test]
fn self_and_descendants_start_with_the_node() {
    let (t, _m, w, s, w1, w2) = sample_tree();
    let d = t.self_and_descendants(w).unwrap();
    assert_eq!(collect_desc(d), vec![w, s, w1, w2]);
}

#[test]
fn descendants_are_restartable_per_call() {
    let (t, m, w, s, w1, w2) = sample_tree();
    let first = collect_desc(t.descendants(m).unwrap());
    let second = collect_desc(t.descendants(m).unwrap());
    assert_eq!(first, second);
    assert_eq!(first, vec![w, s, w1, w2]);
}

#[test]
fn siblings_never_yield_the_origin() {
    let (t, _m, _w, _s, w1, w2) = sample_tree();
    let mut sib = t.siblings(w1).unwrap();
    assert_eq!(sib.next(), Some(w2));
    assert_eq!(sib.next(), None);
    let mut sib2 = t.siblings(0).unwrap();
    assert_eq!(sib2.next(), None);
}

#[test]
fn tiling_siblings_filter_to_tiling_kinds() {
    let (t, _m, _w, _s, w1, w2) = sample_tree();
    assert_eq!(t.tiling_siblings(w1).unwrap(), vec![w2]);
    // A monitor's only sibling set is empty here; the root's is too.
    assert_eq!(t.tiling_siblings(0).unwrap(), Vec::<u64>::new());
}

#[test]
fn events_are_delivered_in_emission_order() {
    let mut wm = Wm::new();
    let sub = wm.bus.subscribe();
    let m = wm.add_monitor(String::from("DISPLAY1"), monitor_rect()).unwrap();
    let w = wm.activate_workspace(m, ws_config("main"), RectDelta::zero()).unwrap();
    let s = wm.tree.add_split(w, TilingDirection::Horizontal, 0, None).unwrap();
    let w1 = wm.manage_window(s, 42, monitor_rect(), 0, None).unwrap();
    wm.focus(w1).unwrap();
    let events = wm.bus.drain(sub);
    assert_eq!(events.len(), 4);
    assert!(matches!(events[0], WmEvent::MonitorAdded { added_monitor } if added_monitor == m));
    assert!(matches!(
        events[1],
        WmEvent::WorkspaceActivated { activated_workspace } if activated_workspace == w
    ));
    assert!(matches!(events[2], WmEvent::WindowManaged { managed_window } if managed_window == w1));
    assert!(matches!(
        events[3],
        WmEvent::FocusChanged { focused_container } if focused_container == w1
    ));
    assert_eq!(wm.bus.drain(sub).len(), 0);
}

#[test]
fn failed_mutations_emit_nothing() {
    let mut wm = Wm::new();
    let sub = wm.bus.subscribe();
    assert!(wm.manage_window(999, 42, monitor_rect(), 0, None).is_err());
    assert_eq!(wm.bus.drain(sub).len(), 0);
}

#[test]
fn unmanage_reports_id_and_native_handle() {
    let mut wm = Wm::new();
    let m = wm.add_monitor(String::from("DISPLAY1"), monitor_rect()).unwrap();
    let w = wm.activate_workspace(m, ws_config("main"), RectDelta::zero()).unwrap();
    let s = wm.tree.add_split(w, TilingDirection::Horizontal, 0, None).unwrap();
    let w1 = wm.manage_window(s, 4242, monitor_rect(), 0, None).unwrap();
    let sub = wm.bus.subscribe();
    wm.unmanage_window(w1).unwrap();
    let events = wm.bus.drain(sub);
    assert_eq!(events.len(), 1);
    assert!(matches!(
        events[0],
        WmEvent::WindowUnmanaged { unmanaged_id, unmanaged_handle }
            if unmanaged_id == w1 && unmanaged_handle == 4242
    ));
}

#[test]
fn deactivate_reports_workspace_name() {
    let mut wm = Wm::new();
    let m = wm.add_monitor(String::from("DISPLAY1"), monitor_rect()).unwrap();
    let w = wm.activate_workspace(m, ws_config("mail"), RectDelta::zero()).unwrap();
    let sub = wm.bus.subscribe();
    let removed = wm.deactivate_workspace(w).unwrap();
    assert_eq!(removed.id, w);
    let events = wm.bus.drain(sub);
    assert!(matches!(
        events[0],
        WmEvent::WorkspaceDeactivated { deactivated_id, ref deactivated_name }
            if deactivated_id == w && deactivated_name == "mail"
    ));
}

#[test]
fn remove_monitor_reports_device_name() {
    let mut wm = Wm::new();
    let m = wm.add_monitor(String::from("DISPLAY7"), monitor_rect()).unwrap();
    let sub = wm.bus.subscribe();
    wm.remove_monitor(m).unwrap();
    let events = wm.bus.drain(sub);
    assert!(matches!(
        events[0],
        WmEvent::MonitorRemoved { removed_id, ref removed_device_name }
            if removed_id == m && removed_device_name == "DISPLAY7"
    ));
}

#[test]
fn unmanage_refuses_non_windows() {
    let mut wm = Wm::new();
    let m = wm.add_monitor(String::from("DISPLAY1"), monitor_rect()).unwrap();
    let w = wm.activate_workspace(m, ws_config("main"), RectDelta::zero()).unwrap();
    assert!(matches!(wm.unmanage_window(w), Err(LayoutError::KindMismatch)));
    assert!(matches!(wm.unmanage_window(999), Err(LayoutError::NotFound)));
}

#[test]
fn removing_a_subtree_clears_focus_inside_it() {
    let mut wm = Wm::new();
    let m = wm.add_monitor(String::from("DISPLAY1"), monitor_rect()).unwrap();
    let w = wm.activate_workspace(m, ws_config("main"), RectDelta::zero()).unwrap();
    let s = wm.tree.add_split(w, TilingDirection::Horizontal, 0, None).unwrap();
    let w1 = wm.manage_window(s, 42, monitor_rect(), 0, None).unwrap();
    wm.focus(w1).unwrap();
    assert_eq!(wm.tree.focused_id, Some(w1));
    wm.deactivate_workspace(w).unwrap();
    assert_eq!(wm.tree.focused_id, None);
}

#[test]
fn binding_mode_and_config_reload_events() {
    let mut wm = Wm::new();
    let sub = wm.bus.subscribe();
    wm.set_binding_mode(String::from("resize"));
    wm.reload_config();
    wm.sync_native_focus(0).unwrap();
    let events = wm.bus.drain(sub);
    assert_eq!(events.len(), 3);
    assert!(matches!(
        events[0],
        WmEvent::BindingModeChanged { ref new_binding_mode } if new_binding_mode == "resize"
    ));
    assert!(matches!(events[1], WmEvent::UserConfigReloaded));
    assert!(matches!(events[2], WmEvent::NativeFocusSynced { focused_container } if focused_container == 0));
}

#[test]
fn late_subscribers_miss_earlier_events() {
    let mut wm = Wm::new();
    let early = wm.bus.subscribe();
    wm.reload_config();
    let late = wm.bus.subscribe();
    wm.reload_config();
    assert_eq!(wm.bus.drain(early).len(), 2);
    assert_eq!(wm.bus.drain(late).len(), 1);
}

#[test]
fn tray_decisions_follow_the_menu() {
    let mut s = TrayState::new(true);
    assert_eq!(s.handle(TrayMenuSelection::ReloadConfig), TrayCommand::SendConfigReload);
    assert_eq!(s.handle(TrayMenuSelection::ShowConfigFolder), TrayCommand::OpenConfigFolder);
    assert_eq!(
        s.handle(TrayMenuSelection::ToggleAnimations),
        TrayCommand::SetWindowAnimations(false)
    );
    assert!(!s.animations_enabled);
    assert_eq!(
        s.handle(TrayMenuSelection::ToggleAnimations),
        TrayCommand::SetWindowAnimations(true)
    );
    assert_eq!(s.handle(TrayMenuSelection::Exit), TrayCommand::SendExit);
    assert_eq!(s.handle(TrayMenuSelection::Other), TrayCommand::Nothing);
}

#[test]
fn identifiers_are_never_reused() {
    let mut t = Tree::new();
    let m = t.add_monitor(String::from("DISPLAY1"), monitor_rect()).unwrap();
    let w = t.activate_workspace(m, ws_config("main"), RectDelta::zero()).unwrap();
    t.remove_container(w).unwrap();
    let w2 = t.activate_workspace(m, ws_config("other"), RectDelta::zero()).unwrap();
    assert!(w2 > w);
    assert!(t.find_path(w).is_none());
}

#[test]
fn parent_and_children_are_snapshots() {
    let (mut t, m, w, s, w1, w2) = sample_tree();
    assert_eq!(t.parent_id(w1).unwrap(), Some(s));
    assert_eq!(t.parent_id(s).unwrap(), Some(w));
    assert_eq!(t.parent_id(m).unwrap(), Some(0));
    assert_eq!(t.parent_id(0).unwrap(), None);
    let kids = t.children_of(s).unwrap();
    assert_eq!(kids.iter().map(|c| c.id).collect::<Vec<u64>>(), vec![w1, w2]);
    let snap = t.get_container(s).unwrap();
    assert_eq!(snap.id, s);
    assert_eq!(snap.children.len(), 2);
    // A snapshot is a value copy: later mutation is not reflected in it.
    t.remove_container(w2).unwrap();
    assert_eq!(snap.children.len(), 2);
    assert_eq!(t.children_of(s).unwrap().len(), 1);
}

#[test]
fn non_tiling_windows_live_on_the_workspace() {
    let mut wm = Wm::new();
    let m = wm.add_monitor(String::from("DISPLAY1"), monitor_rect()).unwrap();
    let w = wm.activate_workspace(m, ws_config("main"), RectDelta::zero()).unwrap();
    let sub = wm.bus.subscribe();
    let float_rect = Rect { x: 30, y: 40, width: 300, height: 200 };
    let f = wm.manage_non_tiling_window(w, 777, float_rect).unwrap();
    // Not part of the tiling tree (no child path leads to it), but its
    // identifier is live and resolvable, and its geometry is its own
    // stored rectangle.
    assert!(wm.tree.find_path(f).is_none());
    assert_eq!(wm.tree.geometry(f).unwrap(), float_rect);
    assert_eq!(wm.tree.root.children[0].children[0].non_tiling_children[0].id, f);
    let rm = wm.unmanage_non_tiling_window(w, f).unwrap();
    assert_eq!(rm.id, f);
    let events = wm.bus.drain(sub);
    assert_eq!(events.len(), 2);
    assert!(matches!(events[0], WmEvent::WindowManaged { managed_window } if managed_window == f));
    assert!(matches!(
        events[1],
        WmEvent::WindowUnmanaged { unmanaged_id, unmanaged_handle }
            if unmanaged_id == f && unmanaged_handle == 777
    ));
    assert!(matches!(
        wm.unmanage_non_tiling_window(w, f),
        Err(LayoutError::NotAChild)
    ));
}

#[test]
fn focus_requires_a_live_container() {
    let mut t = Tree::new();
    assert_eq!(t.set_focus(17).unwrap_err(), LayoutError::NotFound);
    t.set_focus(0).unwrap();
    assert_eq!(t.focused_id, Some(0));
}

#[test]
fn non_tiling_windows_resolve_by_id() {
    let mut wm = Wm::new();
    let m = wm.add_monitor(String::from("DISPLAY1"), monitor_rect()).unwrap();
    let w = wm.activate_workspace(m, ws_config("main"), RectDelta::zero()).unwrap();
    let float_rect = Rect { x: 25, y: 35, width: 640, height: 480 };
    let f = wm.manage_non_tiling_window(w, 888, float_rect).unwrap();
    let t = &wm.tree;
    // The common capability resolves a non-tiling window like any other
    // container: stored geometry, parent workspace, no children.
    assert_eq!(t.geometry(f).unwrap(), float_rect);
    assert_eq!(t.parent_id(f).unwrap(), Some(w));
    assert_eq!(t.parent(f).unwrap().unwrap().id, w);
    assert_eq!(t.children_of(f).unwrap().len(), 0);
    assert_eq!(t.container_type_of(f).unwrap(), ContainerType::NonTilingWindow);
    let snap = t.get_container(f).unwrap();
    assert_eq!(snap.id, f);
    assert!(matches!(
        snap.kind,
        ContainerKind::NonTilingWindow(ref wi) if wi.stored_rect == float_rect
    ));
}

#[test]
fn working_area_update_changes_derived_geometry() {
    let mut wm = Wm::new();
    let m = wm.add_monitor(String::from("DISPLAY1"), monitor_rect()).unwrap();
    let w = wm.activate_workspace(m, ws_config("main"), RectDelta::zero()).unwrap();
    let sub = wm.bus.subscribe();
    let resized = Rect { x: 0, y: 0, width: 1280, height: 720 };
    wm.update_working_area(m, resized).unwrap();
    // Geometry is derived on demand, so the workspace reflects the new
    // extent at once.
    assert_eq!(wm.tree.geometry(w).unwrap(), resized);
    let events = wm.bus.drain(sub);
    assert_eq!(events.len(), 1);
    assert!(matches!(
        events[0],
        WmEvent::WorkingAreaResized { affected_monitor } if affected_monitor == m
    ));
    // Only monitors (direct children of the root) have a working area.
    assert!(matches!(
        wm.update_working_area(w, resized),
        Err(LayoutError::NotFound)
    ));
    let bad = Rect { x: 0, y: 0, width: -1, height: 10 };
    assert!(matches!(
        wm.update_working_area(m, bad),
        Err(LayoutError::InvalidGeometry)
    ));
}

#[test]
fn non_tiling_windows_traverse_like_any_container() {
    let mut wm = Wm::new();
    let m = wm.add_monitor(String::from("DISPLAY1"), monitor_rect()).unwrap();
    let w = wm.activate_workspace(m, ws_config("main"), RectDelta::zero()).unwrap();
    let s = wm.tree.add_split(w, TilingDirection::Horizontal, 0, None).unwrap();
    let float_rect = Rect { x: 5, y: 6, width: 100, height: 100 };
    let f = wm.manage_non_tiling_window(w, 999, float_rect).unwrap();
    let t = &wm.tree;
    // Ancestors: the owning workspace first, then up to (not including)
    // the root; self-and-ancestors additionally lead with the window
    // itself.
    let mut a = t.ancestors(f).unwrap();
    assert_eq!(a.next(), Some(w));
    assert_eq!(a.next(), Some(m));
    assert_eq!(a.next(), None);
    let mut sa = t.self_and_ancestors(f).unwrap();
    assert_eq!(sa.next(), Some(f));
    assert_eq!(sa.next(), Some(w));
    assert_eq!(sa.next(), Some(m));
    assert_eq!(sa.next(), None);
    // A non-tiling window has no descendants of its own.
    assert_eq!(collect_desc(t.descendants(f).unwrap()), Vec::<u64>::new());
    assert_eq!(collect_desc(t.self_and_descendants(f).unwrap()), vec![f]);
    // Its siblings are the workspace's tiling children (it never yields
    // itself); the tiling filter keeps them all here.
    let mut sib = t.siblings(f).unwrap();
    assert_eq!(sib.next(), Some(s));
    assert_eq!(sib.next(), None);
    assert_eq!(t.tiling_siblings(f).unwrap(), vec![s]);
}
