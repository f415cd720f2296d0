//! The container tree's node type: a single tagged variant over root,
//! monitor, workspace, split and window kinds, with the shared fields
//! (identity, size fraction, ordered children) hoisted out of the variants.
//!
//! Ownership is structural: a container owns its children outright, so the
//! parent/child relation is acyclic by construction and a parent is found
//! by walking down from the root. Non-tiling windows (floating, maximized,
//! minimized) are tracked in a separate child list on the workspace and are
//! excluded from size-fraction bookkeeping.

use vstd::prelude::*;
use crate::geometry::{Rect, RectDelta, TilingDirection, TOTAL_UNITS};
use crate::fractions::{
    sum_units, MAX_CHILDREN, lemma_sum_push, units_after_insert, units_after_remove,
    units_after_resize,
};
use crate::errors::LayoutError;

verus! {

/// The fixed kind tag of a container.
#[derive(Clone, Copy, Debug, PartialEq, Eq, Structural)]
pub enum ContainerType {
    Root,
    Monitor,
    Workspace,
    Split,
    TilingWindow,
    NonTilingWindow,
}

/// Native display metadata carried by a monitor node.
pub struct MonitorInfo {
    pub device_name: String,
    pub rect: Rect,
}

/// The configuration record a workspace is constructed from.
pub struct WorkspaceConfig {
    pub name: String,
    pub tiling_direction: TilingDirection,
}

/// A workspace's own payload: its configuration plus the outer gaps that
/// shrink the monitor's extent to the workspace's usable area.
pub struct Workspace {
    pub config: WorkspaceConfig,
    pub outer_gaps: RectDelta,
}

impl Workspace {
    /// A workspace payload from its configuration record and outer gaps.
    pub fn new(config: WorkspaceConfig, outer_gaps: RectDelta) -> (r: Workspace)
        ensures
            r.config == config,
            r.outer_gaps == outer_gaps,
    {
        Workspace { config, outer_gaps }
    }
}

/// A split container's payload: the axis its children are arranged along.
pub struct SplitInfo {
    pub tiling_direction: TilingDirection,
}

/// A window node's payload: the opaque native handle, and the absolute
/// geometry a non-tiling window reports (kept on tiling windows as the
/// geometry to restore when they leave the tiling layout).
pub struct WindowInfo {
    pub handle: u64,
    pub stored_rect: Rect,
}

/// The variant-specific payload of a container.
pub enum ContainerKind {
    Root,
    Monitor(MonitorInfo),
    Workspace(Workspace),
    Split(SplitInfo),
    TilingWindow(WindowInfo),
    NonTilingWindow(WindowInfo),
}

/// A node of the container tree.
pub struct Container {
    /// Unique for the node's lifetime; never reused within a tree.
    pub id: u64,
    pub kind: ContainerKind,
    /// This node's share of its parent's extent along the parent's tiling
    /// axis, in units of `1 / TOTAL_UNITS`; meaningful for tiling children.
    pub size_units: u32,
    /// Ordered tiling children, owned by this node.
    pub children: Vec<Container>,
    /// Non-tiling windows, tracked separately; non-empty only on workspaces.
    pub non_tiling_children: Vec<Container>,
}

/// The shares of a child sequence, in order.
pub open spec fn sizes_of(s: Seq<Container>) -> Seq<u32> {
    s.map_values(|c: Container| c.size_units)
}

/// Which child kinds a parent of the given kind may hold in its tiling
/// child list.
pub open spec fn child_kind_ok(parent: ContainerType, child: ContainerType) -> bool {
    match parent {
        ContainerType::Root => child is Monitor,
        ContainerType::Monitor => child is Workspace,
        ContainerType::Workspace => child is Split || child is TilingWindow,
        ContainerType::Split => child is Split || child is TilingWindow,
        ContainerType::TilingWindow => false,
        ContainerType::NonTilingWindow => false,
    }
}

impl Container {
    /// The kind tag of this container.
    pub open spec fn spec_container_type(self) -> ContainerType {
        match self.kind {
            ContainerKind::Root => ContainerType::Root,
            ContainerKind::Monitor(_) => ContainerType::Monitor,
            ContainerKind::Workspace(_) => ContainerType::Workspace,
            ContainerKind::Split(_) => ContainerType::Split,
            ContainerKind::TilingWindow(_) => ContainerType::TilingWindow,
            ContainerKind::NonTilingWindow(_) => ContainerType::NonTilingWindow,
        }
    }

    /// Derived container type tag.
    pub fn container_type(&self) -> (t: ContainerType)
        ensures
            t == self.spec_container_type(),
    {
        match &self.kind {
            ContainerKind::Root => ContainerType::Root,
            ContainerKind::Monitor(_) => ContainerType::Monitor,
            ContainerKind::Workspace(_) => ContainerType::Workspace,
            ContainerKind::Split(_) => ContainerType::Split,
            ContainerKind::TilingWindow(_) => ContainerType::TilingWindow,
            ContainerKind::NonTilingWindow(_) => ContainerType::NonTilingWindow,
        }
    }

    /// Whether this node's tiling children carry size fractions that must
    /// sum to one whole.
    pub open spec fn is_fraction_parent(self) -> bool {
        self.spec_container_type() is Workspace || self.spec_container_type() is Split
    }

    /// Whether this node takes part in percentage-based space partitioning.
    pub open spec fn is_tiling_kind(self) -> bool {
        self.spec_container_type() is Workspace || self.spec_container_type() is Split
            || self.spec_container_type() is TilingWindow
    }

    /// Variant payloads are geometrically well-formed.
    pub open spec fn payload_wf(self) -> bool {
        match self.kind {
            ContainerKind::Root => true,
            ContainerKind::Monitor(m) => m.rect.wf(),
            ContainerKind::Workspace(w) => w.outer_gaps.wf(),
            ContainerKind::Split(_) => true,
            ContainerKind::TilingWindow(w) => w.stored_rect.wf(),
            ContainerKind::NonTilingWindow(w) => w.stored_rect.wf(),
        }
    }

    /// Every identifier in this subtree, tiling and non-tiling alike.
    pub open spec fn id_set(self) -> Set<u64>
        decreases self,
    {
        set![self.id].union(seq_id_sets(self.children@)).union(
            seq_id_sets(self.non_tiling_children@),
        )
    }

    /// All identifiers in this subtree are below the bound.
    pub open spec fn ids_below(self, bound: u64) -> bool {
        forall|x: u64| self.id_set().contains(x) ==> x < bound
    }

    /// Structural well-formedness: payloads in range, shares in range and
    /// summing to one whole under fraction parents, child kinds admissible,
    /// non-tiling children confined to workspaces, and all subtree
    /// identifier sets pairwise disjoint.
    pub open spec fn wf(self) -> bool
        decreases self,
    {
        &&& self.payload_wf()
        &&& self.size_units <= TOTAL_UNITS
        &&& self.children.len() <= MAX_CHILDREN
        &&& self.non_tiling_children.len() <= MAX_CHILDREN
        &&& (forall|i: int|
            0 <= i < self.children.len() ==> child_kind_ok(
                self.spec_container_type(),
                (#[trigger] self.children[i]).spec_container_type(),
            ))
        &&& (self.is_fraction_parent() && self.children.len() >= 1 ==> sum_units(
            sizes_of(self.children@),
        ) == TOTAL_UNITS)
        &&& ((self.spec_container_type() is Root || self.spec_container_type() is Monitor)
            ==> forall|i: int|
            0 <= i < self.children.len() ==> (#[trigger] self.children[i]).size_units
                == TOTAL_UNITS)
        &&& (!(self.spec_container_type() is Workspace) ==> self.non_tiling_children.len() == 0)
        &&& (forall|i: int|
            0 <= i < self.non_tiling_children.len() ==> {
                let c = #[trigger] self.non_tiling_children[i];
                c.spec_container_type() is NonTilingWindow && c.children.len() == 0
                    && c.non_tiling_children.len() == 0
            })
        &&& (forall|i: int| 0 <= i < self.children.len() ==> (#[trigger] self.children[i]).wf())
        &&& (forall|i: int|
            0 <= i < self.non_tiling_children.len() ==> (
            #[trigger] self.non_tiling_children[i]).wf())
        &&& self.ids_disjoint()
    }

    /// The subtree identifier sets hanging off this node do not overlap:
    /// not with each other, and not with this node's own identifier.
    pub open spec fn ids_disjoint(self) -> bool {
        &&& (forall|i: int, j: int|
            0 <= i < j < self.children.len() ==> (#[trigger] self.children[i]).id_set().disjoint(
                (#[trigger] self.children[j]).id_set(),
            ))
        &&& (forall|i: int, j: int|
            0 <= i < self.non_tiling_children.len() && 0 <= j < self.non_tiling_children.len() && i
                != j ==> (#[trigger] self.non_tiling_children[i]).id_set().disjoint(
                (#[trigger] self.non_tiling_children[j]).id_set(),
            ))
        &&& (forall|i: int, j: int|
            0 <= i < self.children.len() && 0 <= j < self.non_tiling_children.len() ==> (
            #[trigger] self.children[i]).id_set().disjoint(
                (#[trigger] self.non_tiling_children[j]).id_set(),
            ))
        &&& (forall|i: int|
            0 <= i < self.children.len() ==> !(#[trigger] self.children[i]).id_set().contains(
                self.id,
            ))
        &&& (forall|i: int|
            0 <= i < self.non_tiling_children.len() ==> !(
            #[trigger] self.non_tiling_children[i]).id_set().contains(self.id))
    }
}

/// The union of the subtree identifier sets of a child sequence.
pub open spec fn seq_id_sets(s: Seq<Container>) -> Set<u64>
    decreases s,
{
    if s.len() == 0 {
        Set::empty()
    } else {
        s[0].id_set().union(seq_id_sets(s.drop_first()))
    }
}

/// An element's subtree identifiers are among the sequence's.
pub proof fn lemma_seq_id_sets_elem(s: Seq<Container>, i: int)
    requires
        0 <= i < s.len(),
    ensures
        s[i].id_set().subset_of(seq_id_sets(s)),
    decreases s.len(),
{
    if i > 0 {
        lemma_seq_id_sets_elem(s.drop_first(), i - 1);
    }
}

/// Membership in a sequence's identifier union comes from some element.
pub proof fn lemma_seq_id_sets_member(s: Seq<Container>, x: u64)
    requires
        seq_id_sets(s).contains(x),
    ensures
        exists|i: int| 0 <= i < s.len() && (#[trigger] s[i]).id_set().contains(x),
    decreases s.len(),
{
    if s.len() > 0 {
        if s[0].id_set().contains(x) {
            assert(s[0].id_set().contains(x) && 0 <= 0 < s.len());
        } else {
            lemma_seq_id_sets_member(s.drop_first(), x);
            let i = choose|i: int|
                0 <= i < s.drop_first().len() && (#[trigger] s.drop_first()[i]).id_set().contains(
                    x,
                );
            assert(s[i + 1].id_set().contains(x));
        }
    }
}

/// Pointwise-equal identifier sets give an equal union.
pub proof fn lemma_seq_id_sets_pointwise(s1: Seq<Container>, s2: Seq<Container>)
    requires
        s1.len() == s2.len(),
        forall|i: int| 0 <= i < s1.len() ==> (#[trigger] s1[i]).id_set() == s2[i].id_set(),
    ensures
        seq_id_sets(s1) == seq_id_sets(s2),
    decreases s1.len(),
{
    if s1.len() > 0 {
        lemma_seq_id_sets_pointwise(s1.drop_first(), s2.drop_first());
        assert(s1[0].id_set() == s2[0].id_set());
        assert(seq_id_sets(s1) =~= seq_id_sets(s2));
    }
}

/// Inserting an element adds exactly its identifiers to the union.
pub proof fn lemma_seq_id_sets_insert(s: Seq<Container>, k: int, x: Container)
    requires
        0 <= k <= s.len(),
    ensures
        seq_id_sets(s.insert(k, x)) =~= seq_id_sets(s).union(x.id_set()),
    decreases s.len(),
{
    let t = s.insert(k, x);
    if k == 0 {
        assert(t[0] == x);
        assert(t.drop_first() =~= s);
    } else {
        assert(t[0] == s[0]);
        assert(t.drop_first() =~= s.drop_first().insert(k - 1, x));
        lemma_seq_id_sets_insert(s.drop_first(), k - 1, x);
    }
}

/// The same container with another share.
pub open spec fn with_size(c: Container, v: u32) -> Container {
    Container { size_units: v, ..c }
}

/// A share change touches neither well-formedness (beyond the share bound),
/// the kind, nor the subtree's identifiers.
pub proof fn lemma_wf_with_size(c: Container, v: u32)
    requires
        c.wf(),
        v <= TOTAL_UNITS,
    ensures
        with_size(c, v).wf(),
        with_size(c, v).id_set() == c.id_set(),
        with_size(c, v).spec_container_type() == c.spec_container_type(),
{
    assert(with_size(c, v).id_set() =~= c.id_set());
}

/// Removing an element takes exactly its identifiers out of the union,
/// provided the sequence's element sets do not overlap.
pub proof fn lemma_seq_id_sets_remove(s: Seq<Container>, k: int)
    requires
        0 <= k < s.len(),
    ensures
        seq_id_sets(s.remove(k)).union(s[k].id_set()) =~= seq_id_sets(s),
    decreases s.len(),
{
    let t = s.remove(k);
    if k == 0 {
        assert(t =~= s.drop_first());
    } else {
        assert(t[0] == s[0]);
        assert(t.drop_first() =~= s.drop_first().remove(k - 1));
        lemma_seq_id_sets_remove(s.drop_first(), k - 1);
    }
}

/// Rebuilding a node from share-adjusted old children plus at most one
/// fresh child preserves well-formedness. `m` says, for each new child
/// position, which old child it came from; `-1` marks the fresh child.
pub proof fn lemma_rebuild_wf(
    p_old: Container,
    p_new: Container,
    c_new: Container,
    m: spec_fn(int) -> int,
)
    requires
        p_old.wf(),
        p_new.id == p_old.id,
        p_new.spec_container_type() == p_old.spec_container_type(),
        p_new.payload_wf(),
        p_new.size_units == p_old.size_units,
        p_new.non_tiling_children == p_old.non_tiling_children,
        p_new.children.len() <= MAX_CHILDREN,
        p_new.is_fraction_parent() && p_new.children.len() >= 1 ==> sum_units(
            sizes_of(p_new.children@),
        ) == TOTAL_UNITS,
        (p_new.spec_container_type() is Root || p_new.spec_container_type() is Monitor)
            ==> forall|j: int|
            0 <= j < p_new.children.len() ==> (#[trigger] p_new.children[j]).size_units
                == TOTAL_UNITS,
        forall|j: int| 0 <= j < p_new.children.len() ==> (#[trigger] p_new.children[j]).size_units
            <= TOTAL_UNITS,
        forall|j: int|
            0 <= j < p_new.children.len() ==> {
                let src = #[trigger] m(j);
                if src == -1 {
                    p_new.children[j] == with_size(c_new, p_new.children[j].size_units)
                } else {
                    0 <= src < p_old.children.len() && p_new.children[j] == with_size(
                        p_old.children[src],
                        p_new.children[j].size_units,
                    )
                }
            },
        forall|j1: int, j2: int|
            0 <= j1 < p_new.children.len() && 0 <= j2 < p_new.children.len() && j1 != j2 ==> !(
            #[trigger] m(j1) == #[trigger] m(j2)),
        (exists|j: int| 0 <= j < p_new.children.len() && #[trigger] m(j) == -1) ==> {
            &&& c_new.wf()
            &&& child_kind_ok(p_old.spec_container_type(), c_new.spec_container_type())
            &&& c_new.id_set().disjoint(p_old.id_set())
        },
    ensures
        p_new.wf(),
{
    let tn = p_new.children@;
    let to = p_old.children@;
    assert forall|j: int| 0 <= j < tn.len() implies (#[trigger] tn[j]).wf()
        && tn[j].id_set().subset_of(p_old.id_set().union(c_new.id_set())) && child_kind_ok(
        p_new.spec_container_type(),
        tn[j].spec_container_type(),
    ) by {
        if m(j) == -1 {
            lemma_wf_with_size(c_new, tn[j].size_units);
        } else {
            lemma_wf_with_size(to[m(j)], tn[j].size_units);
            lemma_seq_id_sets_elem(to, m(j));
        }
    }
    assert forall|j1: int, j2: int|
        0 <= j1 < tn.len() && 0 <= j2 < tn.len() && j1 != j2 implies (
    #[trigger] tn[j1]).id_set().disjoint((#[trigger] tn[j2]).id_set()) by {
        if m(j1) == -1 {
            lemma_wf_with_size(c_new, tn[j1].size_units);
            lemma_wf_with_size(to[m(j2)], tn[j2].size_units);
            lemma_seq_id_sets_elem(to, m(j2));
            assert(tn[j2].id_set().subset_of(p_old.id_set()));
        } else if m(j2) == -1 {
            lemma_wf_with_size(c_new, tn[j2].size_units);
            lemma_wf_with_size(to[m(j1)], tn[j1].size_units);
            lemma_seq_id_sets_elem(to, m(j1));
            assert(tn[j1].id_set().subset_of(p_old.id_set()));
        } else {
            lemma_wf_with_size(to[m(j1)], tn[j1].size_units);
            lemma_wf_with_size(to[m(j2)], tn[j2].size_units);
        }
    }
    assert forall|j: int| 0 <= j < tn.len() implies !(#[trigger] tn[j]).id_set().contains(
        p_new.id,
    ) by {
        assert(p_old.id_set().contains(p_old.id));
        if m(j) == -1 {
            lemma_wf_with_size(c_new, tn[j].size_units);
        } else {
            lemma_wf_with_size(to[m(j)], tn[j].size_units);
            lemma_seq_id_sets_elem(to, m(j));
        }
    }
    assert forall|i: int, j: int|
        0 <= i < tn.len() && 0 <= j < p_new.non_tiling_children.len() implies (
    #[trigger] tn[i]).id_set().disjoint(
        (#[trigger] p_new.non_tiling_children[j]).id_set(),
    ) by {
        lemma_seq_id_sets_elem(p_old.non_tiling_children@, j);
        assert(p_old.non_tiling_children[j].id_set().subset_of(p_old.id_set()));
        if m(i) == -1 {
            lemma_wf_with_size(c_new, tn[i].size_units);
        } else {
            lemma_wf_with_size(to[m(i)], tn[i].size_units);
            lemma_seq_id_sets_elem(to, m(i));
        }
    }
}

impl Container {
    /// A fresh root container.
    pub fn new_root(id: u64) -> (r: Container)
        ensures
            r.id == id,
            r.kind is Root,
            r.size_units == TOTAL_UNITS,
            r.children@.len() == 0,
            r.non_tiling_children@.len() == 0,
            r.wf(),
            r.id_set() == set![id],
    {
        let r = Container {
            id,
            kind: ContainerKind::Root,
            size_units: TOTAL_UNITS,
            children: Vec::new(),
            non_tiling_children: Vec::new(),
        };
        proof {
            assert(r.id_set() =~= set![id]);
        }
        r
    }

    /// A fresh monitor container over a native display.
    pub fn new_monitor(id: u64, device_name: String, rect: Rect) -> (r: Container)
        requires
            rect.wf(),
        ensures
            r.id == id,
            r.kind == (ContainerKind::Monitor(MonitorInfo { device_name, rect })),
            r.size_units == TOTAL_UNITS,
            r.children@.len() == 0,
            r.non_tiling_children@.len() == 0,
            r.wf(),
            r.id_set() == set![id],
    {
        let r = Container {
            id,
            kind: ContainerKind::Monitor(MonitorInfo { device_name, rect }),
            size_units: TOTAL_UNITS,
            children: Vec::new(),
            non_tiling_children: Vec::new(),
        };
        proof {
            assert(r.id_set() =~= set![id]);
        }
        r
    }

    /// A fresh workspace container from its payload.
    pub fn new_workspace(id: u64, workspace: Workspace) -> (r: Container)
        requires
            workspace.outer_gaps.wf(),
        ensures
            r.id == id,
            r.kind == ContainerKind::Workspace(workspace),
            r.size_units == TOTAL_UNITS,
            r.children@.len() == 0,
            r.non_tiling_children@.len() == 0,
            r.wf(),
            r.id_set() == set![id],
    {
        let r = Container {
            id,
            kind: ContainerKind::Workspace(workspace),
            size_units: TOTAL_UNITS,
            children: Vec::new(),
            non_tiling_children: Vec::new(),
        };
        proof {
            assert(r.id_set() =~= set![id]);
        }
        r
    }

    /// A fresh split container arranging its children along `direction`.
    pub fn new_split(id: u64, direction: TilingDirection) -> (r: Container)
        ensures
            r.id == id,
            r.kind == ContainerKind::Split(SplitInfo { tiling_direction: direction }),
            r.size_units == TOTAL_UNITS,
            r.children@.len() == 0,
            r.non_tiling_children@.len() == 0,
            r.wf(),
            r.id_set() == set![id],
    {
        let r = Container {
            id,
            kind: ContainerKind::Split(SplitInfo { tiling_direction: direction }),
            size_units: TOTAL_UNITS,
            children: Vec::new(),
            non_tiling_children: Vec::new(),
        };
        proof {
            assert(r.id_set() =~= set![id]);
        }
        r
    }

    /// A fresh window container; `tiling` picks the kind.
    pub fn new_window(id: u64, handle: u64, stored_rect: Rect, tiling: bool) -> (r: Container)
        requires
            stored_rect.wf(),
        ensures
            r.id == id,
            r.kind == (if tiling {
                ContainerKind::TilingWindow(WindowInfo { handle, stored_rect })
            } else {
                ContainerKind::NonTilingWindow(WindowInfo { handle, stored_rect })
            }),
            r.size_units == TOTAL_UNITS,
            r.children@.len() == 0,
            r.non_tiling_children@.len() == 0,
            r.wf(),
            r.id_set() == set![id],
    {
        let kind = if tiling {
            ContainerKind::TilingWindow(WindowInfo { handle, stored_rect })
        } else {
            ContainerKind::NonTilingWindow(WindowInfo { handle, stored_rect })
        };
        let r = Container {
            id,
            kind,
            size_units: TOTAL_UNITS,
            children: Vec::new(),
            non_tiling_children: Vec::new(),
        };
        proof {
            assert(r.id_set() =~= set![id]);
        }
        r
    }
}

/// A container's own identifier is in its identifier set.
pub proof fn lemma_id_in_own_set(c: Container)
    ensures
        c.id_set().contains(c.id),
{
}

/// Under a well-formed parent, direct children carry pairwise distinct
/// identifiers.
pub proof fn lemma_child_ids_distinct(p: Container)
    requires
        p.wf(),
    ensures
        forall|i: int, j: int|
            0 <= i < p.children.len() && 0 <= j < p.children.len() && i != j ==> (
            #[trigger] p.children[i]).id != (#[trigger] p.children[j]).id,
        forall|i: int, j: int|
            0 <= i < p.non_tiling_children.len() && 0 <= j < p.non_tiling_children.len() && i != j
                ==> (#[trigger] p.non_tiling_children[i]).id != (
            #[trigger] p.non_tiling_children[j]).id,
{
    assert forall|i: int, j: int|
        0 <= i < p.children.len() && 0 <= j < p.children.len() && i != j implies (
    #[trigger] p.children[i]).id != (#[trigger] p.children[j]).id by {
        lemma_id_in_own_set(p.children[i]);
        lemma_id_in_own_set(p.children[j]);
    }
    assert forall|i: int, j: int|
        0 <= i < p.non_tiling_children.len() && 0 <= j < p.non_tiling_children.len() && i
            != j implies (#[trigger] p.non_tiling_children[i]).id != (
    #[trigger] p.non_tiling_children[j]).id by {
        lemma_id_in_own_set(p.non_tiling_children[i]);
        lemma_id_in_own_set(p.non_tiling_children[j]);
    }
}

/// The shares of a child vector, in order.
pub fn child_sizes(children: &Vec<Container>) -> (r: Vec<u32>)
    ensures
        r@ == sizes_of(children@),
{
    let mut r: Vec<u32> = Vec::new();
    let mut i: usize = 0;
    while i < children.len()
        invariant
            0 <= i <= children.len(),
            r@ == sizes_of(children@).take(i as int),
        decreases children.len() - i,
    {
        proof {
            assert(sizes_of(children@).take(i + 1) =~= sizes_of(children@).take(i as int).push(
                children@[i as int].size_units,
            ));
        }
        r.push(children[i].size_units);
        i = i + 1;
    }
    proof {
        assert(sizes_of(children@).take(children@.len() as int) =~= sizes_of(children@));
    }
    r
}

/// Overwrites each child's share with the given value, touching nothing
/// else.
fn replace_sizes(children: &mut Vec<Container>, sizes: &Vec<u32>)
    requires
        old(children)@.len() == sizes@.len(),
    ensures
        final(children)@.len() == old(children)@.len(),
        forall|j: int|
            0 <= j < final(children)@.len() ==> #[trigger] final(children)@[j] == with_size(
                old(children)@[j],
                sizes@[j],
            ),
{
    let ghost orig = old(children)@;
    let mut out: Vec<Container> = Vec::new();
    while children.len() > 0
        invariant
            out@.len() + children@.len() == orig.len(),
            sizes@.len() == orig.len(),
            forall|j: int| 0 <= j < children@.len() ==> #[trigger] children@[j] == orig[j
                + out@.len()],
            forall|j: int| 0 <= j < out@.len() ==> #[trigger] out@[j] == with_size(
                orig[j],
                sizes@[j],
            ),
        decreases children.len(),
    {
        let mut c = children.remove(0);
        c.size_units = sizes[out.len()];
        out.push(c);
    }
    core::mem::swap(children, &mut out);
}

/// The index of the child with the given identifier, scanning in order.
pub fn find_index_by_id(v: &Vec<Container>, id: u64) -> (r: Option<usize>)
    ensures
        r matches Some(k) ==> k < v@.len() && v@[k as int].id == id,
        r is None ==> forall|j: int| 0 <= j < v@.len() ==> (#[trigger] v@[j]).id != id,
{
    let mut i: usize = 0;
    while i < v.len()
        invariant
            0 <= i <= v@.len(),
            forall|j: int| 0 <= j < i ==> (#[trigger] v@[j]).id != id,
        decreases v@.len() - i,
    {
        if v[i].id == id {
            return Some(i);
        }
        i = i + 1;
    }
    None
}

/// The share an insertion assigns to the new child.
pub open spec fn insert_share_value(n: int, requested: Option<u32>) -> int {
    if n == 0 {
        TOTAL_UNITS as int
    } else if requested is Some {
        requested->0 as int
    } else {
        TOTAL_UNITS as int / (n + 1)
    }
}

/// Where an old child at position `j` lands after an insertion at `index`.
pub open spec fn insert_map(j: int, index: int) -> int {
    if j < index {
        j
    } else {
        j + 1
    }
}

/// Where a new position `j` came from after a removal at `k`.
pub open spec fn remove_map(j: int, k: int) -> int {
    if j < k {
        j
    } else {
        j + 1
    }
}

/// Whether some direct child carries the identifier.
pub open spec fn has_child_id(p: Container, id: u64) -> bool {
    exists|j: int| 0 <= j < p.children.len() && (#[trigger] p.children[j]).id == id
}

/// The position of the direct child carrying the identifier.
pub open spec fn child_index_of(p: Container, id: u64) -> int {
    choose|j: int| 0 <= j < p.children.len() && (#[trigger] p.children[j]).id == id
}

/// Fields an operation on the child list leaves alone.
pub open spec fn frame_same(p_old: Container, p_new: Container) -> bool {
    &&& p_new.id == p_old.id
    &&& p_new.kind == p_old.kind
    &&& p_new.size_units == p_old.size_units
    &&& p_new.non_tiling_children == p_old.non_tiling_children
}

/// Exactly when, and with which error, an insertion is refused.
pub open spec fn spec_insert_err(
    p: Container,
    child: Container,
    index: int,
    requested: Option<u32>,
) -> Option<LayoutError> {
    if !p.is_fraction_parent() || !child_kind_ok(
        p.spec_container_type(),
        child.spec_container_type(),
    ) {
        Some(LayoutError::NotTilingCapable)
    } else if p.children.len() >= MAX_CHILDREN {
        Some(LayoutError::CapacityExceeded)
    } else if index > p.children.len() {
        Some(LayoutError::InvalidIndex)
    } else if requested is Some && requested->0 > TOTAL_UNITS {
        Some(LayoutError::InvalidFraction)
    } else {
        None
    }
}

/// What a successful insertion did: the child sits at `index` with the
/// assigned share, every old child keeps everything but its share, the
/// non-last old children are shrunk exactly proportionally (floor), and the
/// shares again sum to one whole.
pub open spec fn spec_insert_done(
    p_old: Container,
    p_new: Container,
    child: Container,
    index: int,
    requested: Option<u32>,
) -> bool {
    let n = p_old.children.len() as int;
    let share = insert_share_value(n, requested);
    &&& frame_same(p_old, p_new)
    &&& p_new.wf()
    &&& p_new.children.len() == n + 1
    &&& p_new.children[index] == with_size(child, share as u32)
    &&& (forall|j: int|
        0 <= j < n ==> p_new.children[#[trigger] insert_map(j, index)] == with_size(
            p_old.children[j],
            p_new.children[insert_map(j, index)].size_units,
        ))
    &&& (forall|j: int|
        0 <= j < n - 1 ==> p_new.children[#[trigger] insert_map(j, index)].size_units == (
        p_old.children[j].size_units) * (TOTAL_UNITS - share) / (TOTAL_UNITS as int))
    &&& sum_units(sizes_of(p_new.children@)) == TOTAL_UNITS
    &&& p_new.id_set() == p_old.id_set().union(child.id_set())
}

impl Container {
    /// Inserts a tiling child at `index`. Without an explicit share the
    /// child receives an equal share and the existing children shrink
    /// proportionally; rounding remainders go to the last existing child.
    /// Validates before mutating: on an error the container is unchanged.
    #[verifier::rlimit(60)]
    #[verifier::spinoff_prover]
    pub fn insert_child(&mut self, child: Container, index: usize, requested: Option<u32>) -> (res:
        Result<(), LayoutError>)
        requires
            old(self).wf(),
            child.wf(),
            child.id_set().disjoint(old(self).id_set()),
        ensures
            spec_insert_err(*old(self), child, index as int, requested) matches Some(e) ==> res
                == Err::<(), LayoutError>(e) && *final(self) == *old(self),
            spec_insert_err(*old(self), child, index as int, requested) is None ==> res == Ok::<
                (),
                LayoutError,
            >(()) && spec_insert_done(*old(self), *final(self), child, index as int, requested),
    {
        let t = self.container_type();
        if !(t == ContainerType::Workspace || t == ContainerType::Split) {
            return Err(LayoutError::NotTilingCapable);
        }
        let ct = child.container_type();
        if !(ct == ContainerType::Split || ct == ContainerType::TilingWindow) {
            return Err(LayoutError::NotTilingCapable);
        }
        if self.children.len() >= MAX_CHILDREN {
            return Err(LayoutError::CapacityExceeded);
        }
        let sizes = child_sizes(&self.children);
        proof {
            assert(forall|i: int|
                0 <= i < sizes@.len() ==> #[trigger] sizes@[i] == old(self).children@[i].size_units
                    && old(self).children@[i].wf());
        }
        match units_after_insert(&sizes, index, requested) {
            Err(e) => Err(e),
            Ok((new_units, assigned)) => {
                let scaled = crate::fractions::copy_without(&new_units, index);
                replace_sizes(&mut self.children, &scaled);
                let mut c = child;
                c.size_units = assigned;
                self.children.insert(index, c);
                proof {
                    let po = *old(self);
                    let pn = *self;
                    let n = po.children@.len() as int;
                    let share = insert_share_value(n, requested);
                    assert(sizes_of(pn.children@) =~= new_units@);
                    let scaled_seq = po.children@.map_values(
                        |cc: Container| with_size(cc, cc.size_units),
                    );
                    assert forall|j: int| 0 <= j < n implies pn.children@[
                        #[trigger] insert_map(j, index as int)] == with_size(
                        po.children@[j],
                        pn.children@[insert_map(j, index as int)].size_units,
                    ) by {
                        if j < index {
                            assert(pn.children@[j] == with_size(po.children@[j], scaled@[j]));
                        } else {
                            assert(pn.children@[j + 1] == with_size(po.children@[j], scaled@[j]));
                        }
                    }
                    let m = |j: int|
                        if j < index {
                            j
                        } else if j == index {
                            -1
                        } else {
                            j - 1
                        };
                    assert forall|j: int|
                        0 <= j < pn.children@.len() implies ({
                        let src = #[trigger] m(j);
                        if src == -1 {
                            pn.children@[j] == with_size(child, pn.children@[j].size_units)
                        } else {
                            0 <= src < po.children@.len() && pn.children@[j] == with_size(
                                po.children@[src],
                                pn.children@[j].size_units,
                            )
                        }
                    }) by {
                        if j < index {
                            assert(pn.children@[j] == with_size(po.children@[j], scaled@[j]));
                        } else if j == index {
                        } else {
                            assert(pn.children@[j] == with_size(po.children@[j - 1], scaled@[j
                                - 1]));
                        }
                    }
                    assert(0 <= index < pn.children@.len() && m(index as int) == -1);
                    lemma_rebuild_wf(po, pn, child, m);
                    // identifier bookkeeping
                    let mid = po.children@.map_values(|cc: Container| cc.size_units);
                    let resized = pn.children@.remove(index as int);
                    assert(resized =~= Seq::new(n as nat, |j: int| pn.children@[insert_map(j, index as int)]));
                    assert forall|j: int| 0 <= j < n implies (#[trigger] resized[j]).id_set()
                        == po.children@[j].id_set() by {
                        lemma_wf_with_size(po.children@[j], resized[j].size_units);
                    }
                    lemma_seq_id_sets_pointwise(resized, po.children@);
                    assert(pn.children@ =~= resized.insert(index as int, pn.children@[index as int]));
                    lemma_seq_id_sets_insert(resized, index as int, pn.children@[index as int]);
                    lemma_wf_with_size(child, assigned);
                    assert(pn.children@[index as int].id_set() == child.id_set());
                    assert(pn.id_set() =~= po.id_set().union(child.id_set()));
                    assert(assigned as int == share);
                    assert(share as u32 == assigned);
                    assert(pn.children@[index as int] == with_size(child, share as u32));
                    assert forall|j: int| 0 <= j < n - 1 implies pn.children@[
                        #[trigger] insert_map(j, index as int)].size_units == (
                    po.children@[j].size_units) * (TOTAL_UNITS - share) / (TOTAL_UNITS as int) by {
                        assert(new_units@[if j < index {
                            j
                        } else {
                            j + 1
                        }] == sizes@[j] * (TOTAL_UNITS - assigned) / TOTAL_UNITS as int);
                        assert(insert_map(j, index as int) == if j < index {
                            j
                        } else {
                            j + 1
                        });
                        assert(sizes_of(pn.children@)[insert_map(j, index as int)]
                            == new_units@[insert_map(j, index as int)]);
                    }
                    assert(spec_insert_done(po, pn, child, index as int, requested));
                }
                Ok(())
            },
        }
    }
}

/// After dropping the child at `k` (with the surviving children keeping
/// their subtree identifiers), the removed subtree's identifiers are gone
/// from the node and exactly account for the difference.
proof fn lemma_removed_disjoint(p_old: Container, p_new: Container, k: int)
    requires
        p_old.wf(),
        0 <= k < p_old.children.len(),
        p_new.id == p_old.id,
        p_new.non_tiling_children == p_old.non_tiling_children,
        p_new.children@.len() == p_old.children@.len() - 1,
        forall|j: int|
            0 <= j < p_new.children@.len() ==> (#[trigger] p_new.children@[j]).id_set()
                == p_old.children@[remove_map(j, k)].id_set(),
    ensures
        p_new.id_set().union(p_old.children@[k].id_set()) == p_old.id_set(),
        p_new.id_set().disjoint(p_old.children@[k].id_set()),
{
    let rest = p_old.children@.remove(k);
    assert forall|j: int| 0 <= j < rest.len() implies (#[trigger] p_new.children@[j]).id_set()
        == rest[j].id_set() by {
        assert(rest[j] == p_old.children@[remove_map(j, k)]);
    }
    lemma_seq_id_sets_pointwise(p_new.children@, rest);
    lemma_seq_id_sets_remove(p_old.children@, k);
    assert(p_new.id_set().union(p_old.children@[k].id_set()) =~= p_old.id_set());
    let rm = p_old.children@[k];
    assert forall|x: u64| rm.id_set().contains(x) implies !p_new.id_set().contains(x) by {
        lemma_id_in_own_set(p_old);
        if p_new.id_set().contains(x) {
            if x == p_old.id {
                assert(!rm.id_set().contains(p_old.id));
            } else if seq_id_sets(p_new.children@).contains(x) {
                lemma_seq_id_sets_member(p_new.children@, x);
                let j = choose|j: int|
                    0 <= j < p_new.children@.len() && (#[trigger] p_new.children@[j]).id_set().contains(x);
                assert(p_old.children@[remove_map(j, k)].id_set().contains(x));
                assert(remove_map(j, k) != k);
            } else {
                lemma_seq_id_sets_member(p_old.non_tiling_children@, x);
                let j = choose|j: int|
                    0 <= j < p_old.non_tiling_children@.len() && (
                    #[trigger] p_old.non_tiling_children@[j]).id_set().contains(x);
                assert(rm.id_set().disjoint(p_old.non_tiling_children@[j].id_set()));
            }
        }
    }
}

/// Exactly when, and with which error, a removal is refused.
pub open spec fn spec_remove_err(p: Container, id: u64) -> Option<LayoutError> {
    if !p.is_fraction_parent() {
        Some(LayoutError::NotTilingCapable)
    } else if !has_child_id(p, id) {
        Some(LayoutError::NotAChild)
    } else {
        None
    }
}

/// What a successful removal did: the named child is gone and returned,
/// the survivors keep everything but their shares, the non-last survivors
/// carry exactly the proportionally grown share (floor), and the shares
/// again sum to one whole.
pub open spec fn spec_remove_done(
    p_old: Container,
    p_new: Container,
    removed: Container,
    id: u64,
) -> bool {
    let n = p_old.children.len() as int;
    let k = child_index_of(p_old, id);
    let rest = p_old.children@.remove(k);
    &&& frame_same(p_old, p_new)
    &&& p_new.wf()
    &&& removed == p_old.children[k]
    &&& p_new.children.len() == n - 1
    &&& (forall|j: int|
        0 <= j < n - 1 ==> #[trigger] p_new.children[j] == with_size(
            rest[j],
            p_new.children[j].size_units,
        ))
    &&& (n >= 2 ==> sum_units(sizes_of(p_new.children@)) == TOTAL_UNITS)
    &&& (sum_units(sizes_of(rest)) > 0 ==> forall|j: int|
        0 <= j < n - 2 ==> (#[trigger] p_new.children[j]).size_units == (rest[j].size_units)
            * TOTAL_UNITS / (TOTAL_UNITS - removed.size_units))
    &&& p_new.id_set().union(removed.id_set()) == p_old.id_set()
    &&& p_new.id_set().disjoint(removed.id_set())
}

/// Exactly when, and with which error, a resize is refused.
pub open spec fn spec_resize_err(p: Container, id: u64, delta: int) -> Option<LayoutError> {
    if !p.is_fraction_parent() {
        Some(LayoutError::NotTilingCapable)
    } else if !has_child_id(p, id) {
        Some(LayoutError::NotAChild)
    } else if p.children.len() == 1 {
        Some(LayoutError::InsufficientSpace)
    } else {
        let k = child_index_of(p, id);
        let adj = if k + 1 < p.children.len() {
            k + 1
        } else {
            k - 1
        };
        if 0 <= p.children[k].size_units + delta <= TOTAL_UNITS && 0 <= p.children[adj].size_units
            - delta <= TOTAL_UNITS {
            None
        } else {
            Some(LayoutError::InsufficientSpace)
        }
    }
}

/// What a successful resize did: the named child's share moved by the
/// delta, the adjacent sibling's share moved back by the same amount, and
/// nothing else changed.
pub open spec fn spec_resize_done(
    p_old: Container,
    p_new: Container,
    id: u64,
    delta: int,
) -> bool {
    let n = p_old.children.len() as int;
    let k = child_index_of(p_old, id);
    let adj = if k + 1 < n {
        k + 1
    } else {
        k - 1
    };
    &&& frame_same(p_old, p_new)
    &&& p_new.wf()
    &&& p_new.children.len() == n
    &&& (forall|j: int|
        0 <= j < n ==> #[trigger] p_new.children[j] == with_size(
            p_old.children[j],
            p_new.children[j].size_units,
        ))
    &&& sizes_of(p_new.children@) == sizes_of(p_old.children@).update(
        k,
        (p_old.children[k].size_units + delta) as u32,
    ).update(adj, (p_old.children[adj].size_units - delta) as u32)
    &&& sum_units(sizes_of(p_new.children@)) == TOTAL_UNITS
    &&& p_new.id_set() == p_old.id_set()
}

impl Container {
    /// Removes the direct tiling child with the given identifier and hands
    /// it back; its vacated share is redistributed proportionally across
    /// the remaining siblings. On an error the container is unchanged.
    #[verifier::rlimit(60)]
    #[verifier::spinoff_prover]
    pub fn remove_child(&mut self, child_id: u64) -> (res: Result<Container, LayoutError>)
        requires
            old(self).wf(),
        ensures
            spec_remove_err(*old(self), child_id) matches Some(e) ==> res == Err::<
                Container,
                LayoutError,
            >(e) && *final(self) == *old(self),
            spec_remove_err(*old(self), child_id) is None ==> (res matches Ok(rm)
                && spec_remove_done(*old(self), *final(self), rm, child_id)),
    {
        let t = self.container_type();
        if !(t == ContainerType::Workspace || t == ContainerType::Split) {
            return Err(LayoutError::NotTilingCapable);
        }
        match find_index_by_id(&self.children, child_id) {
            None => Err(LayoutError::NotAChild),
            Some(k) => {
                proof {
                    lemma_child_ids_distinct(*old(self));
                    assert(has_child_id(*old(self), child_id));
                    let k0 = child_index_of(*old(self), child_id);
                    assert(old(self).children@[k0].id == child_id);
                    assert(k0 == k as int);
                    assert(forall|i: int|
                        0 <= i < old(self).children@.len() ==> #[trigger] sizes_of(
                            old(self).children@,
                        )[i] == old(self).children@[i].size_units && old(
                            self,
                        ).children@[i].wf());
                }
                let sizes = child_sizes(&self.children);
                let new_units = units_after_remove(&sizes, k);
                let removed = self.children.remove(k);
                replace_sizes(&mut self.children, &new_units);
                proof {
                    let po = *old(self);
                    let pn = *self;
                    let n = po.children@.len() as int;
                    let rest = po.children@.remove(k as int);
                    assert(sizes@.remove(k as int) =~= sizes_of(rest));
                    assert forall|j: int| 0 <= j < n - 1 implies #[trigger] pn.children@[j]
                        == with_size(rest[j], pn.children@[j].size_units) by {
                        assert(pn.children@[j] == with_size(rest[j], new_units@[j]));
                    }
                    assert(sizes_of(pn.children@) =~= new_units@);
                    let m = |j: int| remove_map(j, k as int);
                    assert forall|j: int|
                        0 <= j < pn.children@.len() implies ({
                        let src = #[trigger] m(j);
                        if src == -1 {
                            pn.children@[j] == with_size(po, pn.children@[j].size_units)
                        } else {
                            0 <= src < po.children@.len() && pn.children@[j] == with_size(
                                po.children@[src],
                                pn.children@[j].size_units,
                            )
                        }
                    }) by {
                        assert(rest[j] == po.children@[remove_map(j, k as int)]);
                        assert(pn.children@[j] == with_size(rest[j], new_units@[j]));
                    }
                    lemma_rebuild_wf(po, pn, po, m);
                    assert forall|j: int| 0 <= j < pn.children@.len() implies (
                    #[trigger] pn.children@[j]).id_set() == po.children@[remove_map(
                        j,
                        k as int,
                    )].id_set() by {
                        lemma_wf_with_size(po.children@[remove_map(j, k as int)], pn.children@[j].size_units);
                    }
                    lemma_removed_disjoint(po, pn, k as int);
                    assert(removed == po.children@[k as int]);
                    assert(spec_remove_done(po, pn, removed, child_id));
                }
                Ok(removed)
            },
        }
    }

    /// Adjusts the named child's share by a signed amount, taking it from
    /// (or giving it to) the adjacent sibling; refused with
    /// `InsufficientSpace` when either share would leave `0 ..= TOTAL_UNITS`
    /// or when the child has no sibling. On an error the container is
    /// unchanged.
    #[verifier::rlimit(60)]
    #[verifier::spinoff_prover]
    pub fn resize_child(&mut self, child_id: u64, delta_units: i32) -> (res: Result<
        (),
        LayoutError,
    >)
        requires
            old(self).wf(),
        ensures
            spec_resize_err(*old(self), child_id, delta_units as int) matches Some(e) ==> res
                == Err::<(), LayoutError>(e) && *final(self) == *old(self),
            spec_resize_err(*old(self), child_id, delta_units as int) is None ==> res == Ok::<
                (),
                LayoutError,
            >(()) && spec_resize_done(*old(self), *final(self), child_id, delta_units as int),
    {
        let t = self.container_type();
        if !(t == ContainerType::Workspace || t == ContainerType::Split) {
            return Err(LayoutError::NotTilingCapable);
        }
        match find_index_by_id(&self.children, child_id) {
            None => Err(LayoutError::NotAChild),
            Some(k) => {
                proof {
                    lemma_child_ids_distinct(*old(self));
                    assert(has_child_id(*old(self), child_id));
                    let k0 = child_index_of(*old(self), child_id);
                    assert(old(self).children@[k0].id == child_id);
                    assert(k0 == k as int);
                    assert(forall|i: int|
                        0 <= i < old(self).children@.len() ==> #[trigger] sizes_of(
                            old(self).children@,
                        )[i] == old(self).children@[i].size_units && old(
                            self,
                        ).children@[i].wf());
                }
                let sizes = child_sizes(&self.children);
                match units_after_resize(&sizes, k, delta_units) {
                    Err(e) => Err(e),
                    Ok(new_units) => {
                        replace_sizes(&mut self.children, &new_units);
                        proof {
                            let po = *old(self);
                            let pn = *self;
                            let m = |j: int| j;
                            assert forall|j: int|
                                0 <= j < pn.children@.len() implies ({
                                let src = #[trigger] m(j);
                                if src == -1 {
                                    pn.children@[j] == with_size(po, pn.children@[j].size_units)
                                } else {
                                    0 <= src < po.children@.len() && pn.children@[j] == with_size(
                                        po.children@[src],
                                        pn.children@[j].size_units,
                                    )
                                }
                            }) by {
                                assert(pn.children@[j] == with_size(po.children@[j], new_units@[j]));
                            }
                            assert(sizes_of(pn.children@) =~= new_units@);
                            lemma_rebuild_wf(po, pn, po, m);
                            assert forall|j: int| 0 <= j < pn.children@.len() implies (
                            #[trigger] pn.children@[j]).id_set() == po.children@[j].id_set() by {
                                lemma_wf_with_size(po.children@[j], pn.children@[j].size_units);
                            }
                            lemma_seq_id_sets_pointwise(pn.children@, po.children@);
                            assert(pn.id_set() =~= po.id_set());
                            assert(spec_resize_done(po, pn, child_id, delta_units as int));
                        }
                        Ok(())
                    },
                }
            },
        }
    }
}

/// The same container with its tiling axis changed (split and workspace
/// kinds only; anything else is left as it is).
pub open spec fn with_direction(p: Container, dir: TilingDirection) -> Container {
    match p.kind {
        ContainerKind::Workspace(w) => (Container {
            kind: ContainerKind::Workspace(
                Workspace {
                    config: WorkspaceConfig { name: w.config.name, tiling_direction: dir },
                    outer_gaps: w.outer_gaps,
                },
            ),
            ..p
        }),
        ContainerKind::Split(_) => (Container {
            kind: ContainerKind::Split(SplitInfo { tiling_direction: dir }),
            ..p
        }),
        _ => p,
    }
}

/// Whether some non-tiling child carries the identifier.
pub open spec fn has_nt_id(p: Container, id: u64) -> bool {
    exists|j: int|
        0 <= j < p.non_tiling_children.len() && (#[trigger] p.non_tiling_children[j]).id == id
}

/// The position of the non-tiling child carrying the identifier.
pub open spec fn nt_index_of(p: Container, id: u64) -> int {
    choose|j: int|
        0 <= j < p.non_tiling_children.len() && (#[trigger] p.non_tiling_children[j]).id == id
}

impl Container {
    /// Changes the axis along which this container's children are
    /// interpreted; stored fraction values are untouched. Only split and
    /// workspace containers carry an axis.
    pub fn set_tiling_direction(&mut self, direction: TilingDirection) -> (res: Result<
        (),
        LayoutError,
    >)
        requires
            old(self).wf(),
        ensures
            !old(self).is_fraction_parent() ==> res == Err::<(), LayoutError>(
                LayoutError::NotTilingCapable,
            ) && *final(self) == *old(self),
            old(self).is_fraction_parent() ==> res == Ok::<(), LayoutError>(()) && *final(self)
                == with_direction(*old(self), direction) && final(self).wf()
                && final(self).id_set() == old(self).id_set(),
    {
        let t = self.container_type();
        if !(t == ContainerType::Workspace || t == ContainerType::Split) {
            return Err(LayoutError::NotTilingCapable);
        }
        let mut k = ContainerKind::Root;
        core::mem::swap(&mut self.kind, &mut k);
        match k {
            ContainerKind::Workspace(w) => {
                self.kind = ContainerKind::Workspace(
                    Workspace {
                        config: WorkspaceConfig {
                            name: w.config.name,
                            tiling_direction: direction,
                        },
                        outer_gaps: w.outer_gaps,
                    },
                );
            },
            ContainerKind::Split(_) => {
                self.kind = ContainerKind::Split(SplitInfo { tiling_direction: direction });
            },
            other => {
                self.kind = other;
            },
        }
        proof {
            let po = *old(self);
            let pn = *self;
            assert(pn.spec_container_type() == po.spec_container_type());
            assert(pn.id_set() =~= po.id_set());
            assert(pn.wf());
        }
        Ok(())
    }

    /// Appends a child under a root or monitor container, where children
    /// carry no fraction bookkeeping (each holds one whole).
    pub fn attach_plain_child(&mut self, child: Container) -> (res: Result<(), LayoutError>)
        requires
            old(self).wf(),
            child.wf(),
            child.size_units == TOTAL_UNITS,
            old(self).spec_container_type() is Root || old(self).spec_container_type() is Monitor,
            child_kind_ok(old(self).spec_container_type(), child.spec_container_type()),
            child.id_set().disjoint(old(self).id_set()),
        ensures
            old(self).children.len() >= MAX_CHILDREN ==> res == Err::<(), LayoutError>(
                LayoutError::CapacityExceeded,
            ) && *final(self) == *old(self),
            old(self).children.len() < MAX_CHILDREN ==> res == Ok::<(), LayoutError>(()) && {
                &&& final(self).children@ == old(self).children@.push(child)
                &&& frame_same(*old(self), *final(self))
                &&& final(self).wf()
                &&& final(self).id_set() == old(self).id_set().union(child.id_set())
            },
    {
        if self.children.len() >= MAX_CHILDREN {
            return Err(LayoutError::CapacityExceeded);
        }
        let ghost po = *old(self);
        let ghost n = po.children@.len() as int;
        self.children.push(child);
        proof {
            let pn = *self;
            let m = |j: int|
                if j < n {
                    j
                } else {
                    -1
                };
            assert(child == with_size(child, child.size_units));
            assert forall|j: int|
                0 <= j < pn.children@.len() implies ({
                let src = #[trigger] m(j);
                if src == -1 {
                    pn.children@[j] == with_size(child, pn.children@[j].size_units)
                } else {
                    0 <= src < po.children@.len() && pn.children@[j] == with_size(
                        po.children@[src],
                        pn.children@[j].size_units,
                    )
                }
            }) by {
                if j < n {
                    assert(pn.children@[j] == po.children@[j]);
                    assert(po.children@[j] == with_size(po.children@[j], po.children@[j].size_units));
                }
            }
            assert forall|j: int| 0 <= j < pn.children@.len() implies (
            #[trigger] pn.children@[j]).size_units <= TOTAL_UNITS by {
                if j < n {
                    assert(po.children@[j].wf());
                }
            }
            assert(0 <= n < pn.children@.len() && m(n) == -1);
            lemma_rebuild_wf(po, pn, child, m);
            assert(pn.children@ =~= po.children@.insert(n, child));
            lemma_seq_id_sets_insert(po.children@, n, child);
            assert(pn.id_set() =~= po.id_set().union(child.id_set()));
        }
        Ok(())
    }

    /// Detaches the named child of a root or monitor container and hands
    /// it back; no fraction bookkeeping is involved.
    pub fn detach_plain_child(&mut self, child_id: u64) -> (res: Result<Container, LayoutError>)
        requires
            old(self).wf(),
            old(self).spec_container_type() is Root || old(self).spec_container_type() is Monitor,
        ensures
            !has_child_id(*old(self), child_id) ==> res == Err::<Container, LayoutError>(
                LayoutError::NotAChild,
            ) && *final(self) == *old(self),
            has_child_id(*old(self), child_id) ==> (res matches Ok(rm) && {
                let k = child_index_of(*old(self), child_id);
                &&& rm == old(self).children[k]
                &&& final(self).children@ == old(self).children@.remove(k)
                &&& frame_same(*old(self), *final(self))
                &&& final(self).wf()
                &&& final(self).id_set().union(rm.id_set()) == old(self).id_set()
                &&& final(self).id_set().disjoint(rm.id_set())
            }),
    {
        match find_index_by_id(&self.children, child_id) {
            None => Err(LayoutError::NotAChild),
            Some(k) => {
                proof {
                    lemma_child_ids_distinct(*old(self));
                    assert(has_child_id(*old(self), child_id));
                    let k0 = child_index_of(*old(self), child_id);
                    assert(old(self).children@[k0].id == child_id);
                    assert(k0 == k as int);
                }
                let removed = self.children.remove(k);
                proof {
                    let po = *old(self);
                    let pn = *self;
                    let m = |j: int| remove_map(j, k as int);
                    assert forall|j: int|
                        0 <= j < pn.children@.len() implies ({
                        let src = #[trigger] m(j);
                        if src == -1 {
                            pn.children@[j] == with_size(po, pn.children@[j].size_units)
                        } else {
                            0 <= src < po.children@.len() && pn.children@[j] == with_size(
                                po.children@[src],
                                pn.children@[j].size_units,
                            )
                        }
                    }) by {
                        assert(pn.children@[j] == po.children@[remove_map(j, k as int)]);
                        assert(po.children@[remove_map(j, k as int)] == with_size(
                            po.children@[remove_map(j, k as int)],
                            po.children@[remove_map(j, k as int)].size_units,
                        ));
                    }
                    assert forall|j: int| 0 <= j < pn.children@.len() implies (
                    #[trigger] pn.children@[j]).size_units <= TOTAL_UNITS by {
                        assert(po.children@[remove_map(j, k as int)].wf());
                    }
                    lemma_rebuild_wf(po, pn, po, m);
                    assert forall|j: int| 0 <= j < pn.children@.len() implies (
                    #[trigger] pn.children@[j]).id_set() == po.children@[remove_map(
                        j,
                        k as int,
                    )].id_set() by {
                        assert(pn.children@[j] == po.children@[remove_map(j, k as int)]);
                    }
                    lemma_removed_disjoint(po, pn, k as int);
                }
                Ok(removed)
            },
        }
    }

    /// Adds a floating, maximized or minimized window to this workspace's
    /// separate non-tiling child list.
    pub fn add_non_tiling(&mut self, child: Container) -> (res: Result<(), LayoutError>)
        requires
            old(self).wf(),
            child.wf(),
            child.spec_container_type() is NonTilingWindow,
            child.children@.len() == 0,
            child.non_tiling_children@.len() == 0,
            child.id_set().disjoint(old(self).id_set()),
        ensures
            !(old(self).spec_container_type() is Workspace) ==> res == Err::<(), LayoutError>(
                LayoutError::NotTilingCapable,
            ) && *final(self) == *old(self),
            old(self).spec_container_type() is Workspace && old(self).non_tiling_children.len()
                >= MAX_CHILDREN ==> res == Err::<(), LayoutError>(LayoutError::CapacityExceeded)
                && *final(self) == *old(self),
            old(self).spec_container_type() is Workspace && old(self).non_tiling_children.len()
                < MAX_CHILDREN ==> res == Ok::<(), LayoutError>(()) && {
                &&& final(self).non_tiling_children@ == old(self).non_tiling_children@.push(child)
                &&& final(self).children == old(self).children
                &&& final(self).id == old(self).id
                &&& final(self).kind == old(self).kind
                &&& final(self).size_units == old(self).size_units
                &&& final(self).wf()
                &&& final(self).id_set() == old(self).id_set().union(child.id_set())
            },
    {
        let t = self.container_type();
        if t != ContainerType::Workspace {
            return Err(LayoutError::NotTilingCapable);
        }
        if self.non_tiling_children.len() >= MAX_CHILDREN {
            return Err(LayoutError::CapacityExceeded);
        }
        let ghost po = *old(self);
        let ghost n = po.non_tiling_children@.len() as int;
        self.non_tiling_children.push(child);
        proof {
            let pn = *self;
            assert(pn.non_tiling_children@ =~= po.non_tiling_children@.insert(n, child));
            lemma_seq_id_sets_insert(po.non_tiling_children@, n, child);
            assert(pn.id_set() =~= po.id_set().union(child.id_set()));
            lemma_id_in_own_set(po);
            assert forall|i: int, j: int|
                0 <= i < pn.non_tiling_children.len() && 0 <= j < pn.non_tiling_children.len() && i
                    != j implies (#[trigger] pn.non_tiling_children[i]).id_set().disjoint(
                (#[trigger] pn.non_tiling_children[j]).id_set(),
            ) by {
                if i == n {
                    lemma_seq_id_sets_elem(po.non_tiling_children@, j);
                } else if j == n {
                    lemma_seq_id_sets_elem(po.non_tiling_children@, i);
                }
            }
            assert forall|i: int, j: int|
                0 <= i < pn.children.len() && 0 <= j < pn.non_tiling_children.len() implies (
            #[trigger] pn.children[i]).id_set().disjoint(
                (#[trigger] pn.non_tiling_children[j]).id_set(),
            ) by {
                if j == n {
                    lemma_seq_id_sets_elem(po.children@, i);
                }
            }
            assert forall|j: int| 0 <= j < pn.non_tiling_children.len() implies !(
            #[trigger] pn.non_tiling_children[j]).id_set().contains(pn.id) by {
                if j == n {
                    assert(po.id_set().contains(po.id));
                }
            }
            assert(pn.wf());
        }
        Ok(())
    }

    /// Removes the named window from this workspace's non-tiling child
    /// list and hands it back.
    pub fn remove_non_tiling(&mut self, child_id: u64) -> (res: Result<Container, LayoutError>)
        requires
            old(self).wf(),
        ensures
            !has_nt_id(*old(self), child_id) ==> res == Err::<Container, LayoutError>(
                LayoutError::NotAChild,
            ) && *final(self) == *old(self),
            has_nt_id(*old(self), child_id) ==> (res matches Ok(rm) && {
                let k = nt_index_of(*old(self), child_id);
                &&& rm == old(self).non_tiling_children[k]
                &&& final(self).non_tiling_children@ == old(self).non_tiling_children@.remove(k)
                &&& final(self).children == old(self).children
                &&& final(self).id == old(self).id
                &&& final(self).kind == old(self).kind
                &&& final(self).size_units == old(self).size_units
                &&& final(self).wf()
                &&& final(self).id_set().union(rm.id_set()) == old(self).id_set()
                &&& final(self).id_set().disjoint(rm.id_set())
            }),
    {
        match find_index_by_id(&self.non_tiling_children, child_id) {
            None => Err(LayoutError::NotAChild),
            Some(k) => {
                proof {
                    lemma_child_ids_distinct(*old(self));
                    assert(has_nt_id(*old(self), child_id));
                    let k0 = nt_index_of(*old(self), child_id);
                    assert(old(self).non_tiling_children@[k0].id == child_id);
                    assert(k0 == k as int);
                }
                let removed = self.non_tiling_children.remove(k);
                proof {
                    let po = *old(self);
                    let pn = *self;
                    let rest = po.non_tiling_children@.remove(k as int);
                    assert(pn.non_tiling_children@ =~= rest);
                    lemma_seq_id_sets_remove(po.non_tiling_children@, k as int);
                    assert(pn.id_set().union(removed.id_set()) =~= po.id_set());
                    assert forall|i: int, j: int|
                        0 <= i < pn.non_tiling_children.len() && 0 <= j
                            < pn.non_tiling_children.len() && i != j implies (
                    #[trigger] pn.non_tiling_children[i]).id_set().disjoint(
                        (#[trigger] pn.non_tiling_children[j]).id_set(),
                    ) by {
                        assert(pn.non_tiling_children@[i] == po.non_tiling_children@[remove_map(
                            i,
                            k as int,
                        )]);
                        assert(pn.non_tiling_children@[j] == po.non_tiling_children@[remove_map(
                            j,
                            k as int,
                        )]);
                    }
                    assert forall|i: int, j: int|
                        0 <= i < pn.children.len() && 0 <= j
                            < pn.non_tiling_children.len() implies (
                    #[trigger] pn.children[i]).id_set().disjoint(
                        (#[trigger] pn.non_tiling_children[j]).id_set(),
                    ) by {
                        assert(pn.non_tiling_children@[j] == po.non_tiling_children@[remove_map(
                            j,
                            k as int,
                        )]);
                    }
                    assert forall|j: int| 0 <= j < pn.non_tiling_children.len() implies !(
                    #[trigger] pn.non_tiling_children[j]).id_set().contains(pn.id) by {
                        assert(pn.non_tiling_children@[j] == po.non_tiling_children@[remove_map(
                            j,
                            k as int,
                        )]);
                    }
                    assert forall|j: int|
                        0 <= j < pn.non_tiling_children.len() implies ((
                    #[trigger] pn.non_tiling_children[j]).spec_container_type() is NonTilingWindow
                        && pn.non_tiling_children[j].children.len() == 0
                        && pn.non_tiling_children[j].non_tiling_children.len() == 0
                        && pn.non_tiling_children[j].wf()) by {
                        assert(pn.non_tiling_children@[j] == po.non_tiling_children@[remove_map(
                            j,
                            k as int,
                        )]);
                    }
                    assert(pn.wf());
                    let rm = removed;
                    assert forall|x: u64| rm.id_set().contains(x) implies !pn.id_set().contains(
                        x,
                    ) by {
                        lemma_id_in_own_set(po);
                        if pn.id_set().contains(x) {
                            if x == po.id {
                                assert(!rm.id_set().contains(po.id));
                            } else if seq_id_sets(pn.children@).contains(x) {
                                lemma_seq_id_sets_member(pn.children@, x);
                                let j = choose|j: int|
                                    0 <= j < pn.children@.len() && (
                                    #[trigger] pn.children@[j]).id_set().contains(x);
                                assert(rm.id_set().disjoint(po.children@[j].id_set()));
                            } else {
                                lemma_seq_id_sets_member(pn.non_tiling_children@, x);
                                let j = choose|j: int|
                                    0 <= j < pn.non_tiling_children@.len() && (
                                    #[trigger] pn.non_tiling_children@[j]).id_set().contains(x);
                                assert(pn.non_tiling_children@[j] == po.non_tiling_children@[
                                    remove_map(j, k as int)]);
                                assert(remove_map(j, k as int) != k as int);
                            }
                        }
                    }
                }
                Ok(removed)
            },
        }
    }
}

} // verus!
