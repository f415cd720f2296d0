//! The event model: a closed set of structural, focus and lifecycle
//! events, a subscriber bus, and the manager that applies tree mutations
//! and publishes exactly one matching event after each completed mutation
//! — never before it, and never for a refused one.

use vstd::prelude::*;
use crate::container::{
    Container, ContainerKind, ContainerType, WorkspaceConfig, has_nt_id, has_child_id,
};
use crate::fractions::MAX_CHILDREN;
use crate::errors::LayoutError;
use crate::geometry::{Rect, RectDelta, TilingDirection};
use crate::tree::{
    Tree, reaches, path_of, node_at, tree_unchanged, valid_path, spec_insert_err_tiling,
};

verus! {

/// A completed structural, focus or lifecycle change, with the minimal
/// payload observers need. Containers are named by their identifiers.
pub enum WmEvent {
    BindingModeChanged { new_binding_mode: String },
    FocusChanged { focused_container: u64 },
    FocusedContainerMoved { focused_container: u64 },
    MonitorAdded { added_monitor: u64 },
    MonitorRemoved { removed_id: u64, removed_device_name: String },
    NativeFocusSynced { focused_container: u64 },
    TilingDirectionChanged { new_tiling_direction: TilingDirection },
    UserConfigReloaded,
    WindowManaged { managed_window: u64 },
    WindowUnmanaged { unmanaged_id: u64, unmanaged_handle: u64 },
    WorkspaceActivated { activated_workspace: u64 },
    WorkspaceDeactivated { deactivated_id: u64, deactivated_name: String },
    WorkingAreaResized { affected_monitor: u64 },
}

impl Clone for WmEvent {
    /// An exact copy.
    fn clone(&self) -> (r: Self)
        ensures
            r == *self,
    {
        match self {
            WmEvent::BindingModeChanged { new_binding_mode } => WmEvent::BindingModeChanged {
                new_binding_mode: new_binding_mode.clone(),
            },
            WmEvent::FocusChanged { focused_container } => WmEvent::FocusChanged {
                focused_container: *focused_container,
            },
            WmEvent::FocusedContainerMoved { focused_container } => WmEvent::FocusedContainerMoved {
                focused_container: *focused_container,
            },
            WmEvent::MonitorAdded { added_monitor } => WmEvent::MonitorAdded {
                added_monitor: *added_monitor,
            },
            WmEvent::MonitorRemoved { removed_id, removed_device_name } => WmEvent::MonitorRemoved {
                removed_id: *removed_id,
                removed_device_name: removed_device_name.clone(),
            },
            WmEvent::NativeFocusSynced { focused_container } => WmEvent::NativeFocusSynced {
                focused_container: *focused_container,
            },
            WmEvent::TilingDirectionChanged { new_tiling_direction } => WmEvent::TilingDirectionChanged {
                new_tiling_direction: *new_tiling_direction,
            },
            WmEvent::UserConfigReloaded => WmEvent::UserConfigReloaded,
            WmEvent::WindowManaged { managed_window } => WmEvent::WindowManaged {
                managed_window: *managed_window,
            },
            WmEvent::WindowUnmanaged { unmanaged_id, unmanaged_handle } => WmEvent::WindowUnmanaged {
                unmanaged_id: *unmanaged_id,
                unmanaged_handle: *unmanaged_handle,
            },
            WmEvent::WorkspaceActivated { activated_workspace } => WmEvent::WorkspaceActivated {
                activated_workspace: *activated_workspace,
            },
            WmEvent::WorkspaceDeactivated { deactivated_id, deactivated_name } => WmEvent::WorkspaceDeactivated {
                deactivated_id: *deactivated_id,
                deactivated_name: deactivated_name.clone(),
            },
            WmEvent::WorkingAreaResized { affected_monitor } => WmEvent::WorkingAreaResized {
                affected_monitor: *affected_monitor,
            },
        }
    }
}

/// The message bus: one queue per subscriber. Publishing appends to every
/// queue present at emission time, so delivery to each such subscriber is
/// in emission order and never blocks the mutation path.
pub struct EventBus {
    pub queues: Vec<Vec<WmEvent>>,
}

/// The bus after exactly one event was appended to every queue.
pub open spec fn published_one(b_old: EventBus, b_new: EventBus, e: WmEvent) -> bool {
    &&& b_new.queues@.len() == b_old.queues@.len()
    &&& forall|i: int|
        0 <= i < b_old.queues@.len() ==> (#[trigger] b_new.queues@[i])@ == b_old.queues@[i]@.push(
            e,
        )
}

/// The bus with every queue as it was.
pub open spec fn bus_unchanged(b_old: EventBus, b_new: EventBus) -> bool {
    &&& b_new.queues@.len() == b_old.queues@.len()
    &&& forall|i: int|
        0 <= i < b_old.queues@.len() ==> (#[trigger] b_new.queues@[i])@ == b_old.queues@[i]@
}

impl EventBus {
    /// A bus with no subscribers yet.
    pub fn new() -> (b: EventBus)
        ensures
            b.queues@.len() == 0,
    {
        EventBus { queues: Vec::new() }
    }

    /// Registers a new subscriber and returns its handle; its queue
    /// starts empty.
    pub fn subscribe(&mut self) -> (s: usize)
        ensures
            s == old(self).queues@.len(),
            final(self).queues@.len() == old(self).queues@.len() + 1,
            forall|i: int|
                0 <= i < old(self).queues@.len() ==> (#[trigger] final(self).queues@[i])
                    == old(self).queues@[i],
            final(self).queues@.last()@.len() == 0,
    {
        let s = self.queues.len();
        let q: Vec<WmEvent> = Vec::new();
        self.queues.push(q);
        s
    }

    /// Delivers one event to every subscriber present now, in emission
    /// order.
    pub fn publish(&mut self, e: WmEvent)
        ensures
            published_one(*old(self), *final(self), e),
    {
        let mut i: usize = 0;
        while i < self.queues.len()
            invariant
                0 <= i <= self.queues@.len(),
                self.queues@.len() == old(self).queues@.len(),
                forall|j: int|
                    0 <= j < i ==> (#[trigger] self.queues@[j])@ == old(self).queues@[j]@.push(e),
                forall|j: int|
                    i <= j < self.queues@.len() ==> (#[trigger] self.queues@[j])@
                        == old(self).queues@[j]@,
            decreases self.queues@.len() - i,
        {
            let ev = e.clone();
            self.queues[i].push(ev);
            i = i + 1;
        }
    }

    /// Takes everything queued for the subscriber, oldest first.
    pub fn drain(&mut self, s: usize) -> (r: Vec<WmEvent>)
        requires
            s < old(self).queues@.len(),
        ensures
            r == old(self).queues@[s as int],
            final(self).queues@.len() == old(self).queues@.len(),
            final(self).queues@[s as int]@.len() == 0,
            forall|i: int|
                0 <= i < old(self).queues@.len() && i != s ==> (#[trigger] final(self).queues@[i])
                    == old(self).queues@[i],
    {
        let mut empty: Vec<WmEvent> = Vec::new();
        core::mem::swap(&mut self.queues[s], &mut empty);
        empty
    }
}

/// The command-processing component: the tree, the bus whose lifecycle is
/// bound to it, and the current binding mode.
pub struct Wm {
    pub tree: Tree,
    pub bus: EventBus,
    pub binding_mode: String,
}

impl Wm {
    pub open spec fn wf(self) -> bool {
        self.tree.wf()
    }

    /// A fresh manager: an empty tree, a bus with no subscribers, the
    /// default binding mode.
    pub fn new() -> (w: Wm)
        ensures
            w.wf(),
            w.tree.next_id == 1,
            w.tree.root.children@.len() == 0,
            w.bus.queues@.len() == 0,
            w.binding_mode@.len() == 0,
    {
        Wm { tree: Tree::new(), bus: EventBus::new(), binding_mode: String::new() }
    }

    /// Attaches a monitor and, once the mutation is fully applied,
    /// publishes `MonitorAdded`. A refused mutation publishes nothing.
    pub fn add_monitor(&mut self, device_name: String, rect: Rect) -> (res: Result<
        u64,
        LayoutError,
    >)
        requires
            old(self).wf(),
        ensures
            final(self).wf(),
            res is Err <==> (!rect.wf() || old(self).tree.next_id == u64::MAX || old(
                self,
            ).tree.root.children@.len() >= MAX_CHILDREN),
            !rect.wf() ==> res == Err::<u64, LayoutError>(LayoutError::InvalidGeometry),
            final(self).binding_mode == old(self).binding_mode,
            res is Err ==> tree_unchanged(old(self).tree, final(self).tree) && bus_unchanged(
                old(self).bus,
                final(self).bus,
            ),
            res matches Ok(id) ==> {
                &&& id == old(self).tree.next_id
                &&& final(self).tree.next_id == old(self).tree.next_id + 1
                &&& final(self).tree.root.id_set() == old(self).tree.root.id_set().insert(id)
                &&& published_one(
                    old(self).bus,
                    final(self).bus,
                    WmEvent::MonitorAdded { added_monitor: id },
                )
            },
    {
        match self.tree.add_monitor(device_name, rect) {
            Ok(id) => {
                self.bus.publish(WmEvent::MonitorAdded { added_monitor: id });
                Ok(id)
            },
            Err(e) => Err(e),
        }
    }

    /// Activates a workspace under a monitor and publishes
    /// `WorkspaceActivated` after the mutation.
    pub fn activate_workspace(
        &mut self,
        monitor_id: u64,
        config: WorkspaceConfig,
        outer_gaps: RectDelta,
    ) -> (res: Result<u64, LayoutError>)
        requires
            old(self).wf(),
        ensures
            final(self).wf(),
            outer_gaps.wf() && old(self).tree.next_id != u64::MAX && reaches(
                old(self).tree.root,
                monitor_id,
            ) ==> ({
                let mo = node_at(old(self).tree.root, path_of(old(self).tree.root, monitor_id));
                mo.spec_container_type() is Monitor && mo.children.len() < MAX_CHILDREN
                    ==> res is Ok
            }),
            res is Err ==> tree_unchanged(old(self).tree, final(self).tree) && bus_unchanged(
                old(self).bus,
                final(self).bus,
            ),
            res matches Ok(id) ==> {
                &&& id == old(self).tree.next_id
                &&& final(self).tree.next_id == old(self).tree.next_id + 1
                &&& final(self).tree.root.id_set() == old(self).tree.root.id_set().insert(id)
                &&& published_one(
                    old(self).bus,
                    final(self).bus,
                    WmEvent::WorkspaceActivated { activated_workspace: id },
                )
            },
    {
        match self.tree.activate_workspace(monitor_id, config, outer_gaps) {
            Ok(id) => {
                self.bus.publish(WmEvent::WorkspaceActivated { activated_workspace: id });
                Ok(id)
            },
            Err(e) => Err(e),
        }
    }

    /// Manages a native window as a tiling child and publishes
    /// `WindowManaged` after the mutation.
    pub fn manage_window(
        &mut self,
        parent_id: u64,
        handle: u64,
        stored_rect: Rect,
        index: usize,
        requested: Option<u32>,
    ) -> (res: Result<u64, LayoutError>)
        requires
            old(self).wf(),
        ensures
            final(self).wf(),
            stored_rect.wf() && old(self).tree.next_id != u64::MAX && reaches(
                old(self).tree.root,
                parent_id,
            ) && spec_insert_err_tiling(
                node_at(old(self).tree.root, path_of(old(self).tree.root, parent_id)),
                index as int,
                requested,
            ) is None ==> res is Ok,
            res is Err ==> tree_unchanged(old(self).tree, final(self).tree) && bus_unchanged(
                old(self).bus,
                final(self).bus,
            ),
            res matches Ok(id) ==> {
                &&& id == old(self).tree.next_id
                &&& final(self).tree.next_id == old(self).tree.next_id + 1
                &&& final(self).tree.root.id_set() == old(self).tree.root.id_set().insert(id)
                &&& published_one(
                    old(self).bus,
                    final(self).bus,
                    WmEvent::WindowManaged { managed_window: id },
                )
            },
    {
        match self.tree.manage_window(parent_id, handle, stored_rect, index, requested) {
            Ok(id) => {
                self.bus.publish(WmEvent::WindowManaged { managed_window: id });
                Ok(id)
            },
            Err(e) => Err(e),
        }
    }

    /// Manages a native window as a floating, maximized or minimized
    /// (non-tiling) child of a workspace and publishes `WindowManaged`
    /// after the mutation.
    pub fn manage_non_tiling_window(
        &mut self,
        workspace_id: u64,
        handle: u64,
        stored_rect: Rect,
    ) -> (res: Result<u64, LayoutError>)
        requires
            old(self).wf(),
        ensures
            final(self).wf(),
            stored_rect.wf() && old(self).tree.next_id != u64::MAX && reaches(
                old(self).tree.root,
                workspace_id,
            ) ==> ({
                let no = node_at(old(self).tree.root, path_of(old(self).tree.root, workspace_id));
                no.spec_container_type() is Workspace && no.non_tiling_children.len()
                    < MAX_CHILDREN ==> res is Ok
            }),
            res is Err ==> tree_unchanged(old(self).tree, final(self).tree) && bus_unchanged(
                old(self).bus,
                final(self).bus,
            ),
            res matches Ok(id) ==> {
                &&& id == old(self).tree.next_id
                &&& final(self).tree.next_id == old(self).tree.next_id + 1
                &&& final(self).tree.root.id_set() == old(self).tree.root.id_set().insert(id)
                &&& published_one(
                    old(self).bus,
                    final(self).bus,
                    WmEvent::WindowManaged { managed_window: id },
                )
            },
    {
        match self.tree.manage_non_tiling_window(workspace_id, handle, stored_rect) {
            Ok(id) => {
                self.bus.publish(WmEvent::WindowManaged { managed_window: id });
                Ok(id)
            },
            Err(e) => Err(e),
        }
    }

    /// Unmanages a non-tiling window of the named workspace and publishes
    /// `WindowUnmanaged` (identifier and native handle) after the
    /// mutation.
    pub fn unmanage_non_tiling_window(&mut self, workspace_id: u64, window_id: u64) -> (res: Result<
        Container,
        LayoutError,
    >)
        requires
            old(self).wf(),
        ensures
            final(self).wf(),
            reaches(old(self).tree.root, workspace_id) && has_nt_id(
                node_at(old(self).tree.root, path_of(old(self).tree.root, workspace_id)),
                window_id,
            ) ==> res is Ok,
            res is Err ==> tree_unchanged(old(self).tree, final(self).tree) && bus_unchanged(
                old(self).bus,
                final(self).bus,
            ),
            res matches Ok(rm) ==> {
                &&& rm.id == window_id
                &&& final(self).tree.root.id_set().union(rm.id_set())
                    == old(self).tree.root.id_set()
                &&& final(self).tree.root.id_set().disjoint(rm.id_set())
                &&& (rm.kind matches ContainerKind::NonTilingWindow(w) && published_one(
                    old(self).bus,
                    final(self).bus,
                    WmEvent::WindowUnmanaged { unmanaged_id: window_id, unmanaged_handle: w.handle },
                ))
            },
    {
        match self.tree.unmanage_non_tiling_window(workspace_id, window_id) {
            Ok(rm) => {
                let handle = match &rm.kind {
                    ContainerKind::NonTilingWindow(w) => w.handle,
                    _ => 0,
                };
                proof {
                    let root0 = old(self).tree.root;
                    let p = path_of(root0, workspace_id);
                    crate::tree::lemma_node_at_wf(root0, p);
                    let no = node_at(root0, p);
                    let k = crate::container::nt_index_of(no, window_id);
                    assert(rm == no.non_tiling_children@[k]);
                }
                self.bus.publish(
                    WmEvent::WindowUnmanaged { unmanaged_id: window_id, unmanaged_handle: handle },
                );
                Ok(rm)
            },
            Err(e) => Err(e),
        }
    }

    /// Unmanages the named tiling window and publishes `WindowUnmanaged`
    /// (identifier and native handle) after the mutation.
    pub fn unmanage_window(&mut self, window_id: u64) -> (res: Result<Container, LayoutError>)
        requires
            old(self).wf(),
        ensures
            final(self).wf(),
            reaches(old(self).tree.root, window_id) && (node_at(
                old(self).tree.root,
                path_of(old(self).tree.root, window_id),
            ).spec_container_type() is TilingWindow) ==> res is Ok,
            res is Err ==> tree_unchanged(old(self).tree, final(self).tree) && bus_unchanged(
                old(self).bus,
                final(self).bus,
            ),
            reaches(old(self).tree.root, window_id) && !(node_at(
                old(self).tree.root,
                path_of(old(self).tree.root, window_id),
            ).spec_container_type() is TilingWindow) ==> res == Err::<Container, LayoutError>(
                LayoutError::KindMismatch,
            ),
            res matches Ok(rm) ==> {
                &&& rm.id == window_id
                &&& final(self).tree.root.id_set().union(rm.id_set())
                    == old(self).tree.root.id_set()
                &&& final(self).tree.root.id_set().disjoint(rm.id_set())
                &&& (rm.kind matches ContainerKind::TilingWindow(w) && published_one(
                    old(self).bus,
                    final(self).bus,
                    WmEvent::WindowUnmanaged { unmanaged_id: window_id, unmanaged_handle: w.handle },
                ))
            },
    {
        let t = match self.tree.container_type_of(window_id) {
            Ok(t) => t,
            Err(e) => {
                return Err(e);
            },
        };
        if t != ContainerType::TilingWindow {
            return Err(LayoutError::KindMismatch);
        }
        match self.tree.remove_container(window_id) {
            Ok(rm) => {
                let handle = match &rm.kind {
                    ContainerKind::TilingWindow(w) => w.handle,
                    _ => 0,
                };
                proof {
                    let root0 = old(self).tree.root;
                    let p = path_of(root0, window_id);
                    assert(valid_path(root0, p) && node_at(root0, p).id == window_id);
                    assert(p.len() > 0);
                    crate::tree::lemma_path_decompose(root0, p);
                    let pp = p.take(p.len() - 1);
                    let parent = node_at(root0, pp);
                    crate::tree::lemma_node_at_wf(root0, pp);
                    crate::container::lemma_child_ids_distinct(parent);
                    assert(parent.children@[p.last() as int].id == window_id);
                    assert(crate::container::has_child_id(parent, window_id));
                    let k = crate::container::child_index_of(parent, window_id);
                    assert(parent.children@[k].id == window_id);
                    assert(k == p.last() as int);
                    assert(rm == parent.children@[p.last() as int]);
                    assert(rm == node_at(root0, p));
                }
                self.bus.publish(
                    WmEvent::WindowUnmanaged { unmanaged_id: window_id, unmanaged_handle: handle },
                );
                Ok(rm)
            },
            Err(e) => Err(e),
        }
    }

    /// Deactivates the named workspace and publishes
    /// `WorkspaceDeactivated` (identifier and name) after the mutation.
    pub fn deactivate_workspace(&mut self, workspace_id: u64) -> (res: Result<
        Container,
        LayoutError,
    >)
        requires
            old(self).wf(),
        ensures
            final(self).wf(),
            reaches(old(self).tree.root, workspace_id) && (node_at(
                old(self).tree.root,
                path_of(old(self).tree.root, workspace_id),
            ).spec_container_type() is Workspace) ==> res is Ok,
            res is Err ==> tree_unchanged(old(self).tree, final(self).tree) && bus_unchanged(
                old(self).bus,
                final(self).bus,
            ),
            res matches Ok(rm) ==> {
                &&& rm.id == workspace_id
                &&& final(self).tree.root.id_set().union(rm.id_set())
                    == old(self).tree.root.id_set()
                &&& final(self).tree.root.id_set().disjoint(rm.id_set())
                &&& (rm.kind matches ContainerKind::Workspace(w) && published_one(
                    old(self).bus,
                    final(self).bus,
                    WmEvent::WorkspaceDeactivated {
                        deactivated_id: workspace_id,
                        deactivated_name: w.config.name,
                    },
                ))
            },
    {
        let t = match self.tree.container_type_of(workspace_id) {
            Ok(t) => t,
            Err(e) => {
                return Err(e);
            },
        };
        if t != ContainerType::Workspace {
            return Err(LayoutError::KindMismatch);
        }
        match self.tree.remove_container(workspace_id) {
            Ok(rm) => {
                let name = match &rm.kind {
                    ContainerKind::Workspace(w) => w.config.name.clone(),
                    _ => String::new(),
                };
                proof {
                    let root0 = old(self).tree.root;
                    let p = path_of(root0, workspace_id);
                    assert(valid_path(root0, p) && node_at(root0, p).id == workspace_id);
                    assert(p.len() > 0);
                    crate::tree::lemma_path_decompose(root0, p);
                    let pp = p.take(p.len() - 1);
                    let parent = node_at(root0, pp);
                    crate::tree::lemma_node_at_wf(root0, pp);
                    crate::container::lemma_child_ids_distinct(parent);
                    assert(parent.children@[p.last() as int].id == workspace_id);
                    assert(crate::container::has_child_id(parent, workspace_id));
                    let k = crate::container::child_index_of(parent, workspace_id);
                    assert(parent.children@[k].id == workspace_id);
                    assert(k == p.last() as int);
                    assert(rm == parent.children@[p.last() as int]);
                    assert(rm == node_at(root0, p));
                }
                self.bus.publish(
                    WmEvent::WorkspaceDeactivated {
                        deactivated_id: workspace_id,
                        deactivated_name: name,
                    },
                );
                Ok(rm)
            },
            Err(e) => Err(e),
        }
    }

    /// Removes the named monitor and publishes `MonitorRemoved`
    /// (identifier and native device name) after the mutation.
    pub fn remove_monitor(&mut self, monitor_id: u64) -> (res: Result<Container, LayoutError>)
        requires
            old(self).wf(),
        ensures
            final(self).wf(),
            reaches(old(self).tree.root, monitor_id) && (node_at(
                old(self).tree.root,
                path_of(old(self).tree.root, monitor_id),
            ).spec_container_type() is Monitor) ==> res is Ok,
            res is Err ==> tree_unchanged(old(self).tree, final(self).tree) && bus_unchanged(
                old(self).bus,
                final(self).bus,
            ),
            res matches Ok(rm) ==> {
                &&& rm.id == monitor_id
                &&& final(self).tree.root.id_set().union(rm.id_set())
                    == old(self).tree.root.id_set()
                &&& final(self).tree.root.id_set().disjoint(rm.id_set())
                &&& (rm.kind matches ContainerKind::Monitor(m) && published_one(
                    old(self).bus,
                    final(self).bus,
                    WmEvent::MonitorRemoved {
                        removed_id: monitor_id,
                        removed_device_name: m.device_name,
                    },
                ))
            },
    {
        let t = match self.tree.container_type_of(monitor_id) {
            Ok(t) => t,
            Err(e) => {
                return Err(e);
            },
        };
        if t != ContainerType::Monitor {
            return Err(LayoutError::KindMismatch);
        }
        match self.tree.remove_container(monitor_id) {
            Ok(rm) => {
                let name = match &rm.kind {
                    ContainerKind::Monitor(m) => m.device_name.clone(),
                    _ => String::new(),
                };
                proof {
                    let root0 = old(self).tree.root;
                    let p = path_of(root0, monitor_id);
                    assert(valid_path(root0, p) && node_at(root0, p).id == monitor_id);
                    assert(p.len() > 0);
                    crate::tree::lemma_path_decompose(root0, p);
                    let pp = p.take(p.len() - 1);
                    let parent = node_at(root0, pp);
                    crate::tree::lemma_node_at_wf(root0, pp);
                    crate::container::lemma_child_ids_distinct(parent);
                    assert(parent.children@[p.last() as int].id == monitor_id);
                    assert(crate::container::has_child_id(parent, monitor_id));
                    let k = crate::container::child_index_of(parent, monitor_id);
                    assert(parent.children@[k].id == monitor_id);
                    assert(k == p.last() as int);
                    assert(rm == parent.children@[p.last() as int]);
                    assert(rm == node_at(root0, p));
                }
                self.bus.publish(
                    WmEvent::MonitorRemoved { removed_id: monitor_id, removed_device_name: name },
                );
                Ok(rm)
            },
            Err(e) => Err(e),
        }
    }

    /// Replaces a monitor's native rectangle and publishes
    /// `WorkingAreaResized` after the mutation.
    pub fn update_working_area(&mut self, monitor_id: u64, rect: Rect) -> (res: Result<
        (),
        LayoutError,
    >)
        requires
            old(self).wf(),
        ensures
            final(self).wf(),
            res is Err ==> tree_unchanged(old(self).tree, final(self).tree) && bus_unchanged(
                old(self).bus,
                final(self).bus,
            ),
            !rect.wf() ==> res == Err::<(), LayoutError>(LayoutError::InvalidGeometry),
            rect.wf() && has_child_id(old(self).tree.root, monitor_id) ==> res is Ok,
            res is Ok ==> published_one(
                old(self).bus,
                final(self).bus,
                WmEvent::WorkingAreaResized { affected_monitor: monitor_id },
            ) && final(self).tree.root.id_set() == old(self).tree.root.id_set()
                && final(self).tree.next_id == old(self).tree.next_id
                && final(self).tree.focused_id == old(self).tree.focused_id,
    {
        match self.tree.update_working_area(monitor_id, rect) {
            Ok(_) => {
                self.bus.publish(WmEvent::WorkingAreaResized { affected_monitor: monitor_id });
                Ok(())
            },
            Err(e) => Err(e),
        }
    }

    /// Changes a container's tiling axis and publishes
    /// `TilingDirectionChanged` after the mutation.
    pub fn set_tiling_direction(&mut self, container_id: u64, direction: TilingDirection) -> (res:
        Result<(), LayoutError>)
        requires
            old(self).wf(),
        ensures
            final(self).wf(),
            reaches(old(self).tree.root, container_id) && node_at(
                old(self).tree.root,
                path_of(old(self).tree.root, container_id),
            ).is_fraction_parent() ==> res is Ok,
            res is Err ==> tree_unchanged(old(self).tree, final(self).tree) && bus_unchanged(
                old(self).bus,
                final(self).bus,
            ),
            res is Ok ==> published_one(
                old(self).bus,
                final(self).bus,
                WmEvent::TilingDirectionChanged { new_tiling_direction: direction },
            ) && final(self).tree.root.id_set() == old(self).tree.root.id_set(),
    {
        match self.tree.set_tiling_direction(container_id, direction) {
            Ok(_) => {
                self.bus.publish(
                    WmEvent::TilingDirectionChanged { new_tiling_direction: direction },
                );
                Ok(())
            },
            Err(e) => Err(e),
        }
    }

    /// Moves the focus and publishes `FocusChanged` after the mutation.
    pub fn focus(&mut self, container_id: u64) -> (res: Result<(), LayoutError>)
        requires
            old(self).wf(),
        ensures
            final(self).wf(),
            res is Err ==> tree_unchanged(old(self).tree, final(self).tree) && bus_unchanged(
                old(self).bus,
                final(self).bus,
            ),
            res is Ok <==> old(self).tree.root.id_set().contains(container_id),
            res is Ok ==> final(self).tree.focused_id == Some(container_id) && published_one(
                old(self).bus,
                final(self).bus,
                WmEvent::FocusChanged { focused_container: container_id },
            ),
    {
        match self.tree.set_focus(container_id) {
            Ok(_) => {
                self.bus.publish(WmEvent::FocusChanged { focused_container: container_id });
                Ok(())
            },
            Err(e) => Err(e),
        }
    }

    /// Records that the native focus was brought in line with the tree's,
    /// publishing `NativeFocusSynced`.
    pub fn sync_native_focus(&mut self, container_id: u64) -> (res: Result<(), LayoutError>)
        requires
            old(self).wf(),
        ensures
            final(self).wf(),
            final(self).tree == old(self).tree,
            res is Ok <==> old(self).tree.root.id_set().contains(container_id),
            res is Ok ==> published_one(
                old(self).bus,
                final(self).bus,
                WmEvent::NativeFocusSynced { focused_container: container_id },
            ),
            res is Err ==> bus_unchanged(old(self).bus, final(self).bus),
    {
        if crate::tree::contains_id(&self.tree.root, container_id) {
            self.bus.publish(WmEvent::NativeFocusSynced { focused_container: container_id });
            Ok(())
        } else {
            Err(LayoutError::NotFound)
        }
    }

    /// Switches the binding mode and publishes `BindingModeChanged`.
    pub fn set_binding_mode(&mut self, name: String)
        requires
            old(self).wf(),
        ensures
            final(self).wf(),
            final(self).tree == old(self).tree,
            final(self).binding_mode@ == name@,
            published_one(
                old(self).bus,
                final(self).bus,
                WmEvent::BindingModeChanged { new_binding_mode: name },
            ),
    {
        let n2 = name.clone();
        self.binding_mode = n2;
        self.bus.publish(WmEvent::BindingModeChanged { new_binding_mode: name });
    }

    /// Records a configuration reload, publishing `UserConfigReloaded`.
    pub fn reload_config(&mut self)
        requires
            old(self).wf(),
        ensures
            final(self).wf(),
            final(self).tree == old(self).tree,
            published_one(old(self).bus, final(self).bus, WmEvent::UserConfigReloaded),
    {
        self.bus.publish(WmEvent::UserConfigReloaded);
    }
}

} // verus!
