//! The container tree: a single root owning monitors, workspaces, splits
//! and windows, addressed by stable identifiers. Identifiers are handed out
//! by a monotone counter and never reused, so every identifier names at
//! most one node for the tree's whole lifetime.
//!
//! Structural mutations locate the target by identifier, validate, apply
//! the node-level operation, and leave the tree untouched on any error.

use vstd::prelude::*;
use crate::container::{
    Container, ContainerKind, ContainerType, MonitorInfo, Workspace, WorkspaceConfig, SplitInfo,
    WindowInfo, child_kind_ok, has_child_id, has_nt_id, child_index_of, nt_index_of, frame_same,
    with_size, with_direction, sizes_of, seq_id_sets, spec_insert_err, spec_insert_done,
    spec_remove_err, spec_remove_done, spec_resize_err, spec_resize_done, insert_share_value,
    insert_map, remove_map, lemma_id_in_own_set, lemma_child_ids_distinct, lemma_seq_id_sets_elem,
    lemma_seq_id_sets_member, lemma_seq_id_sets_pointwise, lemma_seq_id_sets_insert,
    lemma_seq_id_sets_remove, lemma_wf_with_size, find_index_by_id,
};
use crate::errors::LayoutError;
use crate::geometry::{Rect, RectDelta, TilingDirection, TOTAL_UNITS};
use crate::fractions::MAX_CHILDREN;

verus! {

/// Whether `path` names a chain of child indices that exists under `c`.
pub open spec fn valid_path(c: Container, path: Seq<usize>) -> bool
    decreases path.len(),
{
    path.len() == 0 || (path[0] < c.children.len() && valid_path(
        c.children[path[0] as int],
        path.drop_first(),
    ))
}

/// The node reached from `c` by following `path`.
pub open spec fn node_at(c: Container, path: Seq<usize>) -> Container
    decreases path.len(),
{
    if path.len() == 0 {
        c
    } else {
        node_at(c.children[path[0] as int], path.drop_first())
    }
}

/// Some path under `c` leads to a node with this identifier.
pub open spec fn reaches(c: Container, id: u64) -> bool {
    exists|p: Seq<usize>| valid_path(c, p) && node_at(c, p).id == id
}

/// The path under `c` leading to the node with this identifier (unique in
/// a well-formed tree).
pub open spec fn path_of(c: Container, id: u64) -> Seq<usize> {
    choose|p: Seq<usize>| valid_path(c, p) && node_at(c, p).id == id
}

/// A reached node's identifier lies in the subtree's identifier set.
pub proof fn lemma_node_at_in_id_set(c: Container, p: Seq<usize>)
    requires
        valid_path(c, p),
    ensures
        c.id_set().contains(node_at(c, p).id),
    decreases p.len(),
{
    if p.len() == 0 {
        lemma_id_in_own_set(c);
    } else {
        lemma_node_at_in_id_set(c.children[p[0] as int], p.drop_first());
        lemma_seq_id_sets_elem(c.children@, p[0] as int);
    }
}

/// In a well-formed tree, at most one path leads to a given identifier.
pub proof fn lemma_path_unique(c: Container, p1: Seq<usize>, p2: Seq<usize>)
    requires
        c.wf(),
        valid_path(c, p1),
        valid_path(c, p2),
        node_at(c, p1).id == node_at(c, p2).id,
    ensures
        p1 == p2,
    decreases p1.len(),
{
    if p1.len() == 0 && p2.len() == 0 {
        assert(p1 =~= p2);
    } else if p1.len() == 0 {
        lemma_node_at_in_id_set(c.children[p2[0] as int], p2.drop_first());
        assert(c.children[p2[0] as int].id_set().contains(c.id));
    } else if p2.len() == 0 {
        lemma_node_at_in_id_set(c.children[p1[0] as int], p1.drop_first());
        assert(c.children[p1[0] as int].id_set().contains(c.id));
    } else {
        let i1 = p1[0] as int;
        let i2 = p2[0] as int;
        lemma_node_at_in_id_set(c.children[i1], p1.drop_first());
        lemma_node_at_in_id_set(c.children[i2], p2.drop_first());
        if i1 != i2 {
            assert(c.children[i1].id_set().disjoint(c.children[i2].id_set()));
            assert(false);
        } else {
            assert(c.children[i1].wf());
            lemma_path_unique(c.children[i1], p1.drop_first(), p2.drop_first());
            assert forall|j: int| 0 <= j < p1.len() implies p1[j] == p2[j] by {
                if j > 0 {
                    assert(p1.drop_first()[j - 1] == p2.drop_first()[j - 1]);
                }
            }
            assert(p1.len() == p2.len());
            assert(p1 =~= p2);
        }
    }
}

/// Locates the node with the given identifier by pre-order search, or says
/// definitively that no path leads to it.
pub fn find_in(c: &Container, id: u64) -> (r: Option<Vec<usize>>)
    ensures
        r matches Some(p) ==> valid_path(*c, p@) && node_at(*c, p@).id == id,
        r is None ==> !reaches(*c, id),
    decreases *c,
{
    if c.id == id {
        let p: Vec<usize> = Vec::new();
        proof {
            assert(valid_path(*c, p@));
        }
        return Some(p);
    }
    let mut i: usize = 0;
    while i < c.children.len()
        invariant
            0 <= i <= c.children.len(),
            c.id != id,
            forall|j: int| 0 <= j < i ==> !reaches(#[trigger] c.children@[j], id),
        decreases c.children.len() - i,
    {
        match find_in(&c.children[i], id) {
            Some(mut p) => {
                let ghost p0 = p@;
                p.insert(0, i);
                proof {
                    assert(p@ =~= seq![i].add(p0));
                    assert(p@[0] == i);
                    assert(p@.drop_first() =~= p0);
                    assert(valid_path(*c, p@));
                    assert(node_at(*c, p@).id == id);
                }
                return Some(p);
            },
            None => {},
        }
        i = i + 1;
    }
    proof {
        if reaches(*c, id) {
            let p = choose|p: Seq<usize>| valid_path(*c, p) && node_at(*c, p).id == id;
            if p.len() == 0 {
                assert(false);
            } else {
                assert(valid_path(c.children@[p[0] as int], p.drop_first()));
                assert(reaches(c.children@[p[0] as int], id));
            }
        }
    }
    None
}

/// Equal in everything observable: same identity, payload, share, and the
/// same child values in the same order. (Two vectors with equal contents
/// are interchangeable here even when nothing relates their allocations.)
pub open spec fn same_shape(a: Container, b: Container) -> bool {
    &&& b.id == a.id
    &&& b.kind == a.kind
    &&& b.size_units == a.size_units
    &&& b.children@ == a.children@
    &&& b.non_tiling_children@ == a.non_tiling_children@
}

/// Shape-equal containers agree on every derived notion used here.
pub proof fn lemma_same_shape(a: Container, b: Container)
    requires
        same_shape(a, b),
    ensures
        a.id_set() == b.id_set(),
        a.wf() <==> b.wf(),
        a.spec_container_type() == b.spec_container_type(),
        forall|p: Seq<usize>| valid_path(a, p) <==> valid_path(b, p),
        forall|p: Seq<usize>| #[trigger] valid_path(a, p) && p.len() > 0 ==> node_at(a, p)
            == node_at(b, p),
{
    assert(a.id_set() =~= b.id_set());
    assert forall|p: Seq<usize>| valid_path(a, p) <==> valid_path(b, p) by {
        if p.len() > 0 {
            assert(a.children@ =~= b.children@);
        }
    }
    assert forall|p: Seq<usize>| #[trigger] valid_path(a, p) && p.len() > 0 implies node_at(a, p)
        == node_at(b, p) by {
        assert(a.children[p[0] as int] == b.children[p[0] as int]);
    }
}

/// Both inclusions relating a child list's identifier union before and
/// after one element is replaced.
pub proof fn lemma_seq_id_sets_update(s: Seq<Container>, i: int, x: Container)
    requires
        0 <= i < s.len(),
    ensures
        seq_id_sets(s.update(i, x)).subset_of(seq_id_sets(s).union(x.id_set())),
        seq_id_sets(s).subset_of(seq_id_sets(s.update(i, x)).union(s[i].id_set())),
    decreases s.len(),
{
    let t = s.update(i, x);
    if i == 0 {
        assert(t[0] == x);
        assert(t.drop_first() =~= s.drop_first());
    } else {
        assert(t[0] == s[0]);
        assert(t.drop_first() =~= s.drop_first().update(i - 1, x));
        lemma_seq_id_sets_update(s.drop_first(), i - 1, x);
    }
}

/// A structural operation applied at a node found by a path.
pub enum TreeOp {
    /// Insert a tiling child under a workspace or split.
    Insert { child: Container, index: usize, requested: Option<u32> },
    /// Remove a tiling child of a workspace or split, rebalancing shares.
    Remove { child_id: u64 },
    /// Shift share between a tiling child and its adjacent sibling.
    Resize { child_id: u64, delta_units: i32 },
    /// Change the tiling axis of a workspace or split.
    SetDirection { direction: TilingDirection },
    /// Append a child under the root or a monitor (no share bookkeeping).
    Attach { child: Container },
    /// Detach a child of the root or a monitor.
    Detach { child_id: u64 },
    /// Add a floating/maximized/minimized window to a workspace.
    AddNonTiling { child: Container },
    /// Remove a window from a workspace's non-tiling list.
    RemoveNonTiling { child_id: u64 },
}

/// What an operation asks of the whole subtree it is applied in: any node
/// it brings along must be well-formed and carry identifiers foreign to
/// the subtree.
pub open spec fn op_requires(c: Container, op: TreeOp) -> bool {
    match op {
        TreeOp::Insert { child, .. } => child.wf() && child.id_set().disjoint(c.id_set()),
        TreeOp::Attach { child } => child.wf() && child.size_units == TOTAL_UNITS
            && child.id_set().disjoint(c.id_set()),
        TreeOp::AddNonTiling { child } => child.wf()
            && child.spec_container_type() is NonTilingWindow && child.children@.len() == 0
            && child.non_tiling_children@.len() == 0 && child.id_set().disjoint(c.id_set()),
        _ => true,
    }
}

/// Exactly when, and with which error, the operation is refused at its
/// target node.
pub open spec fn op_err(p: Container, op: TreeOp) -> Option<LayoutError> {
    match op {
        TreeOp::Insert { child, index, requested } => spec_insert_err(
            p,
            child,
            index as int,
            requested,
        ),
        TreeOp::Remove { child_id } => spec_remove_err(p, child_id),
        TreeOp::Resize { child_id, delta_units } => spec_resize_err(
            p,
            child_id,
            delta_units as int,
        ),
        TreeOp::SetDirection { .. } => if p.is_fraction_parent() {
            None
        } else {
            Some(LayoutError::NotTilingCapable)
        },
        TreeOp::Attach { child } => if !(p.spec_container_type() is Root
            || p.spec_container_type() is Monitor) || !child_kind_ok(
            p.spec_container_type(),
            child.spec_container_type(),
        ) {
            Some(LayoutError::NotTilingCapable)
        } else if p.children.len() >= MAX_CHILDREN {
            Some(LayoutError::CapacityExceeded)
        } else {
            None
        },
        TreeOp::Detach { child_id } => if !(p.spec_container_type() is Root
            || p.spec_container_type() is Monitor) {
            Some(LayoutError::NotTilingCapable)
        } else if !has_child_id(p, child_id) {
            Some(LayoutError::NotAChild)
        } else {
            None
        },
        TreeOp::AddNonTiling { .. } => if !(p.spec_container_type() is Workspace) {
            Some(LayoutError::NotTilingCapable)
        } else if p.non_tiling_children.len() >= MAX_CHILDREN {
            Some(LayoutError::CapacityExceeded)
        } else {
            None
        },
        TreeOp::RemoveNonTiling { child_id } => if !has_nt_id(p, child_id) {
            Some(LayoutError::NotAChild)
        } else {
            None
        },
    }
}

/// What a successful operation did to its target node.
pub open spec fn op_done(
    p_old: Container,
    p_new: Container,
    op: TreeOp,
    r: Option<Container>,
) -> bool {
    match op {
        TreeOp::Insert { child, index, requested } => r is None && spec_insert_done(
            p_old,
            p_new,
            child,
            index as int,
            requested,
        ),
        TreeOp::Remove { child_id } => (r matches Some(rm) && spec_remove_done(
            p_old,
            p_new,
            rm,
            child_id,
        )),
        TreeOp::Resize { child_id, delta_units } => r is None && spec_resize_done(
            p_old,
            p_new,
            child_id,
            delta_units as int,
        ),
        TreeOp::SetDirection { direction } => r is None && p_new == with_direction(
            p_old,
            direction,
        ) && p_new.wf() && p_new.id_set() == p_old.id_set(),
        TreeOp::Attach { child } => r is None && p_new.children@ == p_old.children@.push(child)
            && frame_same(p_old, p_new) && p_new.wf() && p_new.id_set() == p_old.id_set().union(
            child.id_set(),
        ),
        TreeOp::Detach { child_id } => (r matches Some(rm) && {
            let k = child_index_of(p_old, child_id);
            &&& rm == p_old.children[k]
            &&& p_new.children@ == p_old.children@.remove(k)
            &&& frame_same(p_old, p_new)
            &&& p_new.wf()
            &&& p_new.id_set().union(rm.id_set()) == p_old.id_set()
            &&& p_new.id_set().disjoint(rm.id_set())
        }),
        TreeOp::AddNonTiling { child } => r is None && {
            &&& p_new.non_tiling_children@ == p_old.non_tiling_children@.push(child)
            &&& p_new.children == p_old.children
            &&& p_new.id == p_old.id
            &&& p_new.kind == p_old.kind
            &&& p_new.size_units == p_old.size_units
            &&& p_new.wf()
            &&& p_new.id_set() == p_old.id_set().union(child.id_set())
        },
        TreeOp::RemoveNonTiling { child_id } => (r matches Some(rm) && {
            let k = nt_index_of(p_old, child_id);
            &&& rm == p_old.non_tiling_children[k]
            &&& p_new.non_tiling_children@ == p_old.non_tiling_children@.remove(k)
            &&& p_new.children == p_old.children
            &&& p_new.id == p_old.id
            &&& p_new.kind == p_old.kind
            &&& p_new.size_units == p_old.size_units
            &&& p_new.wf()
            &&& p_new.id_set().union(rm.id_set()) == p_old.id_set()
            &&& p_new.id_set().disjoint(rm.id_set())
        }),
    }
}

/// Whether the operation takes a subtree out of the tree.
pub open spec fn op_removes(op: TreeOp) -> bool {
    match op {
        TreeOp::Remove { .. } => true,
        TreeOp::Detach { .. } => true,
        TreeOp::RemoveNonTiling { .. } => true,
        _ => false,
    }
}

/// The identifiers the operation brings into the tree.
pub open spec fn op_added(op: TreeOp) -> Set<u64> {
    match op {
        TreeOp::Insert { child, .. } => child.id_set(),
        TreeOp::Attach { child } => child.id_set(),
        TreeOp::AddNonTiling { child } => child.id_set(),
        _ => Set::empty(),
    }
}

/// Every node on the path from the root to the target keeps its identity,
/// payload, share and non-tiling children, and changes its child list in
/// exactly one position: the next step of the path.
pub open spec fn frames_along(r_old: Container, r_new: Container, sp: Seq<usize>) -> bool {
    forall|dd: int|
        0 <= dd < sp.len() ==> {
            let po = node_at(r_old, #[trigger] sp.take(dd));
            let pn = node_at(r_new, sp.take(dd));
            &&& pn.id == po.id
            &&& pn.kind == po.kind
            &&& pn.size_units == po.size_units
            &&& pn.non_tiling_children@ == po.non_tiling_children@
            &&& pn.children@.len() == po.children@.len()
            &&& pn.children@ == po.children@.update(
                sp[dd] as int,
                pn.children@[sp[dd] as int],
            )
        }
}

/// Observationally equal trees: same identity, payload and share at every
/// node, and the same children in the same order. (Weaker than `==` only
/// in that nothing relates the vectors' allocations.)
pub open spec fn same_tree(a: Container, b: Container) -> bool
    decreases a,
{
    a == b || {
        &&& b.id == a.id
        &&& b.kind == a.kind
        &&& b.size_units == a.size_units
        &&& b.non_tiling_children@.len() == a.non_tiling_children@.len()
        &&& (forall|j: int|
            0 <= j < a.non_tiling_children@.len() ==> same_tree(
                a.non_tiling_children@[j],
                #[trigger] b.non_tiling_children@[j],
            ))
        &&& b.children@.len() == a.children@.len()
        &&& (forall|j: int|
            0 <= j < a.children@.len() ==> same_tree(
                a.children@[j],
                #[trigger] b.children@[j],
            ))
    }
}

/// Observationally equal trees agree on well-formedness and identifiers.
pub proof fn lemma_same_tree(a: Container, b: Container)
    requires
        same_tree(a, b),
    ensures
        a.id_set() == b.id_set(),
        a.wf() ==> b.wf(),
        a.spec_container_type() == b.spec_container_type(),
    decreases a,
{
    if a == b {
    } else {
        assert forall|j: int| 0 <= j < a.children@.len() implies (#[trigger] a.children@[j]).id_set()
            == b.children@[j].id_set() && a.children@[j].size_units == b.children@[j].size_units
            && a.children@[j].spec_container_type() == b.children@[j].spec_container_type() && (
        a.children@[j].wf() ==> b.children@[j].wf()) by {
            lemma_same_tree(a.children@[j], b.children@[j]);
        }
        assert forall|j: int|
            0 <= j < a.non_tiling_children@.len() implies (
        #[trigger] a.non_tiling_children@[j]).id_set() == b.non_tiling_children@[j].id_set()
            && a.non_tiling_children@[j].spec_container_type()
            == b.non_tiling_children@[j].spec_container_type()
            && a.non_tiling_children@[j].children@.len()
            == b.non_tiling_children@[j].children@.len()
            && a.non_tiling_children@[j].non_tiling_children@.len()
            == b.non_tiling_children@[j].non_tiling_children@.len() && (
        a.non_tiling_children@[j].wf() ==> b.non_tiling_children@[j].wf()) by {
            lemma_same_tree(a.non_tiling_children@[j], b.non_tiling_children@[j]);
        }
        lemma_seq_id_sets_pointwise(a.children@, b.children@);
        lemma_seq_id_sets_pointwise(a.non_tiling_children@, b.non_tiling_children@);
        assert(a.id_set() =~= b.id_set());
        if a.wf() {
            assert(sizes_of(b.children@) =~= sizes_of(a.children@));
            assert(b.wf());
        }
    }
}

/// Replacing one child with a well-formed node of the same identity, kind
/// tag and share, whose subtree gained at most the `added` identifiers
/// (all foreign to the parent's subtree), keeps the parent well-formed.
proof fn lemma_replace_child_wf(co: Container, cn: Container, i: int, added: Set<u64>)
    requires
        co.wf(),
        0 <= i < co.children@.len(),
        cn.id == co.id,
        cn.kind == co.kind,
        cn.size_units == co.size_units,
        cn.non_tiling_children@ == co.non_tiling_children@,
        cn.children@.len() == co.children@.len(),
        cn.children@ == co.children@.update(i, cn.children@[i]),
        cn.children@[i].wf(),
        cn.children@[i].id == co.children@[i].id,
        cn.children@[i].spec_container_type() == co.children@[i].spec_container_type(),
        cn.children@[i].size_units == co.children@[i].size_units,
        cn.children@[i].id_set().subset_of(co.children@[i].id_set().union(added)),
        added.disjoint(co.id_set()),
    ensures
        cn.wf(),
{
    let fc = cn.children@[i];
    let oc = co.children@[i];
    assert forall|j: int| 0 <= j < cn.children@.len() && j != i implies cn.children@[j]
        == co.children@[j] by {}
    assert(sizes_of(cn.children@) =~= sizes_of(co.children@));
    lemma_id_in_own_set(co);
    assert forall|j1: int, j2: int|
        0 <= j1 < cn.children@.len() && 0 <= j2 < cn.children@.len() && j1 != j2 implies (
    #[trigger] cn.children@[j1]).id_set().disjoint((#[trigger] cn.children@[j2]).id_set()) by {
        if j1 == i {
            lemma_seq_id_sets_elem(co.children@, j2);
            assert forall|x: u64| fc.id_set().contains(x) implies !co.children@[j2].id_set().contains(
                x,
            ) by {
                if oc.id_set().contains(x) {
                    assert(oc.id_set().disjoint(co.children@[j2].id_set()));
                } else {
                    assert(added.contains(x));
                    if co.children@[j2].id_set().contains(x) {
                        assert(co.id_set().contains(x));
                    }
                }
            }
        } else if j2 == i {
            lemma_seq_id_sets_elem(co.children@, j1);
            assert forall|x: u64| fc.id_set().contains(x) implies !co.children@[j1].id_set().contains(
                x,
            ) by {
                if oc.id_set().contains(x) {
                    assert(oc.id_set().disjoint(co.children@[j1].id_set()));
                } else {
                    assert(added.contains(x));
                    if co.children@[j1].id_set().contains(x) {
                        assert(co.id_set().contains(x));
                    }
                }
            }
        }
    }
    assert forall|j: int| 0 <= j < cn.children@.len() implies !(
    #[trigger] cn.children@[j]).id_set().contains(cn.id) by {
        if j == i {
            if fc.id_set().contains(co.id) {
                assert(!oc.id_set().contains(co.id));
                assert(added.contains(co.id));
                assert(co.id_set().contains(co.id));
            }
        }
    }
    assert forall|j: int, k: int|
        0 <= j < cn.children@.len() && 0 <= k < cn.non_tiling_children@.len() implies (
    #[trigger] cn.children@[j]).id_set().disjoint(
        (#[trigger] cn.non_tiling_children@[k]).id_set(),
    ) by {
        assert(cn.non_tiling_children@[k] == co.non_tiling_children@[k]);
        if j == i {
            lemma_seq_id_sets_elem(co.non_tiling_children@, k);
            assert forall|x: u64| fc.id_set().contains(x) implies !co.non_tiling_children@[k].id_set().contains(
                x,
            ) by {
                if oc.id_set().contains(x) {
                    assert(oc.id_set().disjoint(co.non_tiling_children@[k].id_set()));
                } else {
                    assert(added.contains(x));
                    if co.non_tiling_children@[k].id_set().contains(x) {
                        assert(co.id_set().contains(x));
                    }
                }
            }
        }
    }
    assert(cn.wf());
}

/// Identifier accounting for replacing one child: purely additive case.
proof fn lemma_replace_child_ids_add(co: Container, cn: Container, i: int, added: Set<u64>)
    requires
        0 <= i < co.children@.len(),
        cn.id == co.id,
        cn.non_tiling_children@ == co.non_tiling_children@,
        cn.children@.len() == co.children@.len(),
        cn.children@ == co.children@.update(i, cn.children@[i]),
        cn.children@[i].id_set() == co.children@[i].id_set().union(added),
    ensures
        cn.id_set() == co.id_set().union(added),
{
    lemma_seq_id_sets_update(co.children@, i, cn.children@[i]);
    lemma_seq_id_sets_elem(cn.children@, i);
    lemma_seq_id_sets_elem(co.children@, i);
    assert(cn.children@[i] == cn.children@.update(i, cn.children@[i])[i]);
    assert forall|x: u64| cn.id_set().contains(x) implies co.id_set().union(added).contains(x) by {
        if seq_id_sets(cn.children@).contains(x) {
            assert(seq_id_sets(co.children@).union(cn.children@[i].id_set()).contains(x));
        }
    }
    assert forall|x: u64| co.id_set().union(added).contains(x) implies cn.id_set().contains(x) by {
        if added.contains(x) {
            assert(cn.children@[i].id_set().contains(x));
        } else if seq_id_sets(co.children@).contains(x) {
            assert(seq_id_sets(cn.children@).union(co.children@[i].id_set()).contains(x));
        }
    }
    assert(cn.id_set() =~= co.id_set().union(added));
}

/// Identifier accounting for replacing one child: removal case.
proof fn lemma_replace_child_ids_sub(co: Container, cn: Container, i: int, removed: Set<u64>)
    requires
        co.wf(),
        0 <= i < co.children@.len(),
        cn.id == co.id,
        cn.non_tiling_children@ == co.non_tiling_children@,
        cn.children@.len() == co.children@.len(),
        cn.children@ == co.children@.update(i, cn.children@[i]),
        cn.children@[i].id_set().union(removed) == co.children@[i].id_set(),
        cn.children@[i].id_set().disjoint(removed),
    ensures
        cn.id_set().union(removed) == co.id_set(),
        cn.id_set().disjoint(removed),
{
    lemma_seq_id_sets_update(co.children@, i, cn.children@[i]);
    lemma_seq_id_sets_elem(cn.children@, i);
    lemma_seq_id_sets_elem(co.children@, i);
    lemma_id_in_own_set(co);
    let fc = cn.children@[i];
    let oc = co.children@[i];
    assert forall|x: u64| cn.id_set().union(removed).contains(x) implies co.id_set().contains(
        x,
    ) by {
        if removed.contains(x) {
            assert(oc.id_set().contains(x));
        } else if seq_id_sets(cn.children@).contains(x) {
            assert(seq_id_sets(co.children@).union(fc.id_set()).contains(x));
            assert(fc.id_set().subset_of(oc.id_set()));
        }
    }
    assert forall|x: u64| co.id_set().contains(x) implies cn.id_set().union(removed).contains(
        x,
    ) by {
        if seq_id_sets(co.children@).contains(x) {
            assert(seq_id_sets(cn.children@).union(oc.id_set()).contains(x));
            if oc.id_set().contains(x) && !removed.contains(x) {
                assert(fc.id_set().contains(x));
            }
        }
    }
    assert(cn.id_set().union(removed) =~= co.id_set());
    assert forall|x: u64| removed.contains(x) implies !cn.id_set().contains(x) by {
        assert(oc.id_set().contains(x));
        if cn.id_set().contains(x) {
            if x == co.id {
                assert(!oc.id_set().contains(co.id));
            } else if seq_id_sets(cn.children@).contains(x) {
                lemma_seq_id_sets_member(cn.children@, x);
                let j = choose|j: int|
                    0 <= j < cn.children@.len() && (#[trigger] cn.children@[j]).id_set().contains(
                        x,
                    );
                if j == i {
                    assert(fc.id_set().disjoint(removed));
                } else {
                    assert(cn.children@[j] == co.children@[j]);
                    assert(oc.id_set().disjoint(co.children@[j].id_set()));
                }
            } else {
                lemma_seq_id_sets_member(cn.non_tiling_children@, x);
                let j = choose|j: int|
                    0 <= j < cn.non_tiling_children@.len() && (
                    #[trigger] cn.non_tiling_children@[j]).id_set().contains(x);
                assert(cn.non_tiling_children@[j] == co.non_tiling_children@[j]);
                assert(oc.id_set().disjoint(co.non_tiling_children@[j].id_set()));
            }
        }
    }
}

/// Applies the operation at the node the path (from position `d` on)
/// leads to. Validation happens before mutation: on any error the whole
/// subtree is observationally unchanged.
#[verifier::rlimit(100)]
#[verifier::spinoff_prover]
pub fn apply_at(c: &mut Container, path: &Vec<usize>, d: usize, op: TreeOp) -> (res: Result<
    Option<Container>,
    LayoutError,
>)
    requires
        old(c).wf(),
        d <= path@.len(),
        valid_path(*old(c), path@.skip(d as int)),
        op_requires(*old(c), op),
    ensures
        final(c).wf(),
        op_err(node_at(*old(c), path@.skip(d as int)), op) matches Some(e) ==> res == Err::<
            Option<Container>,
            LayoutError,
        >(e) && same_tree(*old(c), *final(c)),
        op_err(node_at(*old(c), path@.skip(d as int)), op) is None ==> (res matches Ok(r) && {
            let sp = path@.skip(d as int);
            &&& valid_path(*final(c), sp)
            &&& op_done(node_at(*old(c), sp), node_at(*final(c), sp), op, r)
            &&& frames_along(*old(c), *final(c), sp)
            &&& (op_removes(op) ==> (r matches Some(rm) && final(c).id_set().union(rm.id_set())
                == old(c).id_set() && final(c).id_set().disjoint(rm.id_set())))
            &&& (!op_removes(op) ==> r is None && final(c).id_set() == old(c).id_set().union(
                op_added(op),
            ))
        }),
    decreases path@.len() - d,
{
    if d == path.len() {
        proof {
            assert(path@.skip(d as int) =~= Seq::<usize>::empty());
            assert(old(c).id_set().union(Set::<u64>::empty()) =~= old(c).id_set());
        }
        match op {
            TreeOp::Insert { child, index, requested } => {
                match c.insert_child(child, index, requested) {
                    Ok(_) => Ok(None),
                    Err(e) => Err(e),
                }
            },
            TreeOp::Remove { child_id } => {
                match c.remove_child(child_id) {
                    Ok(rm) => Ok(Some(rm)),
                    Err(e) => Err(e),
                }
            },
            TreeOp::Resize { child_id, delta_units } => {
                match c.resize_child(child_id, delta_units) {
                    Ok(_) => Ok(None),
                    Err(e) => Err(e),
                }
            },
            TreeOp::SetDirection { direction } => {
                match c.set_tiling_direction(direction) {
                    Ok(_) => Ok(None),
                    Err(e) => Err(e),
                }
            },
            TreeOp::Attach { child } => {
                let t = c.container_type();
                let ct = child.container_type();
                if !(t == ContainerType::Root || t == ContainerType::Monitor) || !child_kind_ok_exec(
                    t,
                    ct,
                ) {
                    return Err(LayoutError::NotTilingCapable);
                }
                match c.attach_plain_child(child) {
                    Ok(_) => Ok(None),
                    Err(e) => Err(e),
                }
            },
            TreeOp::Detach { child_id } => {
                let t = c.container_type();
                if !(t == ContainerType::Root || t == ContainerType::Monitor) {
                    return Err(LayoutError::NotTilingCapable);
                }
                match c.detach_plain_child(child_id) {
                    Ok(rm) => Ok(Some(rm)),
                    Err(e) => Err(e),
                }
            },
            TreeOp::AddNonTiling { child } => {
                match c.add_non_tiling(child) {
                    Ok(_) => Ok(None),
                    Err(e) => Err(e),
                }
            },
            TreeOp::RemoveNonTiling { child_id } => {
                match c.remove_non_tiling(child_id) {
                    Ok(rm) => Ok(Some(rm)),
                    Err(e) => Err(e),
                }
            },
        }
    } else {
        let i = path[d];
        let ghost sp = path@.skip(d as int);
        let ghost spp = path@.skip(d as int + 1);
        let ghost co = *old(c);
        let ghost oc = co.children@[i as int];
        proof {
            assert(sp[0] == path@[d as int]);
            assert(sp.drop_first() =~= spp);
            assert(valid_path(co, sp));
            assert(oc.wf());
            lemma_seq_id_sets_elem(co.children@, i as int);
            assert forall|x: u64| oc.id_set().contains(x) implies co.id_set().contains(x) by {}
            assert(op_requires(oc, op));
        }
        let res = apply_at(&mut c.children[i], path, d + 1, op);
        proof {
            let fc = c.children@[i as int];
            assert(c.children@ == co.children@.update(i as int, fc));
            assert(node_at(co, sp) == node_at(oc, spp));
            let target = node_at(co, sp);
            if op_err(target, op) is Some {
                assert(same_tree(oc, fc));
                lemma_same_tree(oc, fc);
                assert forall|j: int| 0 <= j < co.children@.len() implies same_tree(
                    co.children@[j],
                    #[trigger] c.children@[j],
                ) by {
                    if j != i {
                        assert(c.children@[j] == co.children@[j]);
                    }
                }
                assert forall|j: int| 0 <= j < co.non_tiling_children@.len() implies same_tree(
                    co.non_tiling_children@[j],
                    #[trigger] c.non_tiling_children@[j],
                ) by {
                    assert(c.non_tiling_children@[j] == co.non_tiling_children@[j]);
                }
                assert(same_tree(co, *c));
                lemma_same_tree(co, *c);
            } else {
                let r = res->Ok_0;
                assert(node_at(*c, sp) == node_at(fc, spp));
                // classify the identifier change at the child
                if op_removes(op) {
                    let rm = r->0;
                    assert(fc.id_set().union(rm.id_set()) == oc.id_set());
                    assert(fc.id_set().disjoint(rm.id_set()));
                    lemma_replace_child_ids_sub(co, *c, i as int, rm.id_set());
                    assert(fc.id_set().subset_of(oc.id_set().union(Set::<u64>::empty())));
                    lemma_replace_child_wf(co, *c, i as int, Set::<u64>::empty());
                } else {
                    let aset = op_added(op);
                    assert(fc.id_set() == oc.id_set().union(aset));
                    assert(aset.disjoint(co.id_set()));
                    lemma_replace_child_ids_add(co, *c, i as int, aset);
                    assert(fc.id_set().subset_of(oc.id_set().union(aset)));
                    lemma_replace_child_wf(co, *c, i as int, aset);
                }
                // the child kept its identity, kind tag and share
                assert(fc.id == oc.id && fc.spec_container_type() == oc.spec_container_type()
                    && fc.size_units == oc.size_units) by {
                    if spp.len() == 0 {
                        assert(node_at(fc, spp) == fc && node_at(oc, spp) == oc);
                        assert(op_done(oc, fc, op, r));
                    } else {
                        assert(frames_along(oc, fc, spp));
                        assert(spp.take(0) =~= Seq::<usize>::empty());
                        assert(node_at(oc, spp.take(0)) == oc);
                        assert(node_at(fc, spp.take(0)) == fc);
                    }
                }
                // path validity and framing at this level
                assert(valid_path(*c, sp)) by {
                    assert(c.children@[sp[0] as int] == fc);
                    assert(valid_path(fc, spp));
                }
                assert(frames_along(co, *c, sp)) by {
                    assert forall|dd: int|
                        0 <= dd < sp.len() implies ({
                        let po = node_at(co, #[trigger] sp.take(dd));
                        let pn = node_at(*c, sp.take(dd));
                        &&& pn.id == po.id
                        &&& pn.kind == po.kind
                        &&& pn.size_units == po.size_units
                        &&& pn.non_tiling_children@ == po.non_tiling_children@
                        &&& pn.children@.len() == po.children@.len()
                        &&& pn.children@ == po.children@.update(
                            sp[dd] as int,
                            pn.children@[sp[dd] as int],
                        )
                    }) by {
                        if dd == 0 {
                            assert(sp.take(0) =~= Seq::<usize>::empty());
                            assert(node_at(co, sp.take(0)) == co);
                            assert(node_at(*c, sp.take(0)) == *c);
                        } else {
                            assert(sp.take(dd)[0] == sp[0]);
                            assert(sp.take(dd).drop_first() =~= spp.take(dd - 1));
                            assert(node_at(co, sp.take(dd)) == node_at(oc, spp.take(dd - 1)));
                            assert(node_at(*c, sp.take(dd)) == node_at(fc, spp.take(dd - 1)));
                            assert(frames_along(oc, fc, spp));
                            assert(sp[dd] == spp[dd - 1]);
                        }
                    }
                }
            }
        }
        res
    }
}

/// Run-time form of `child_kind_ok`.
pub fn child_kind_ok_exec(parent: ContainerType, child: ContainerType) -> (b: bool)
    ensures
        b == child_kind_ok(parent, child),
{
    match parent {
        ContainerType::Root => child == ContainerType::Monitor,
        ContainerType::Monitor => child == ContainerType::Workspace,
        ContainerType::Workspace => child == ContainerType::Split || child
            == ContainerType::TilingWindow,
        ContainerType::Split => child == ContainerType::Split || child
            == ContainerType::TilingWindow,
        ContainerType::TilingWindow => false,
        ContainerType::NonTilingWindow => false,
    }
}

/// Every node on a valid path is well-formed.
pub proof fn lemma_node_at_wf(c: Container, p: Seq<usize>)
    requires
        c.wf(),
        valid_path(c, p),
    ensures
        node_at(c, p).wf(),
    decreases p.len(),
{
    if p.len() > 0 {
        assert(c.children[p[0] as int].wf());
        lemma_node_at_wf(c.children[p[0] as int], p.drop_first());
    }
}

/// An exact copy of a variant payload.
fn clone_kind(k: &ContainerKind) -> (r: ContainerKind)
    ensures
        r == *k,
{
    match k {
        ContainerKind::Root => ContainerKind::Root,
        ContainerKind::Monitor(m) => ContainerKind::Monitor(
            MonitorInfo { device_name: m.device_name.clone(), rect: m.rect },
        ),
        ContainerKind::Workspace(w) => ContainerKind::Workspace(
            Workspace {
                config: WorkspaceConfig {
                    name: w.config.name.clone(),
                    tiling_direction: w.config.tiling_direction,
                },
                outer_gaps: w.outer_gaps,
            },
        ),
        ContainerKind::Split(s) => ContainerKind::Split(
            SplitInfo { tiling_direction: s.tiling_direction },
        ),
        ContainerKind::TilingWindow(w) => ContainerKind::TilingWindow(
            WindowInfo { handle: w.handle, stored_rect: w.stored_rect },
        ),
        ContainerKind::NonTilingWindow(w) => ContainerKind::NonTilingWindow(
            WindowInfo { handle: w.handle, stored_rect: w.stored_rect },
        ),
    }
}

/// An observationally equal value copy of a whole subtree: what the
/// snapshot accessors hand out.
pub fn clone_subtree(c: &Container) -> (r: Container)
    ensures
        same_tree(*c, r),
    decreases *c,
{
    let kind = clone_kind(&c.kind);
    let mut children: Vec<Container> = Vec::new();
    let mut i: usize = 0;
    while i < c.children.len()
        invariant
            0 <= i <= c.children.len(),
            children@.len() == i,
            forall|j: int| 0 <= j < i ==> same_tree(c.children@[j], #[trigger] children@[j]),
        decreases c.children.len() - i,
    {
        let ch = clone_subtree(&c.children[i]);
        children.push(ch);
        i = i + 1;
    }
    let mut nts: Vec<Container> = Vec::new();
    let mut i: usize = 0;
    while i < c.non_tiling_children.len()
        invariant
            0 <= i <= c.non_tiling_children.len(),
            nts@.len() == i,
            forall|j: int| 0 <= j < i ==> same_tree(
                c.non_tiling_children@[j],
                #[trigger] nts@[j],
            ),
        decreases c.non_tiling_children.len() - i,
    {
        let ch = clone_subtree(&c.non_tiling_children[i]);
        nts.push(ch);
        i = i + 1;
    }
    let r = Container {
        id: c.id,
        kind,
        size_units: c.size_units,
        children,
        non_tiling_children: nts,
    };
    proof {
        assert(same_tree(*c, r));
    }
    r
}

/// The size-fraction invariant: in a well-formed tree, every workspace or
/// split with at least one tiling child has children's shares summing to
/// exactly one whole. Every mutation of this crate keeps trees
/// well-formed, so the invariant survives any sequence of insertions,
/// removals and resizes.
pub proof fn lemma_fraction_invariant(t: Tree, p: Seq<usize>)
    requires
        t.wf(),
        valid_path(t.root, p),
    ensures
        node_at(t.root, p).is_fraction_parent() && node_at(t.root, p).children@.len() >= 1
            ==> crate::fractions::sum_units(sizes_of(node_at(t.root, p).children@))
            == TOTAL_UNITS,
{
    lemma_node_at_wf(t.root, p);
}

/// The removal law: after removing a tiling child, the survivors' shares
/// again sum to one whole, and each non-last survivor's share is exactly
/// its old share rescaled by `TOTAL_UNITS / (TOTAL_UNITS - removed)`,
/// rounded down — the relative ratios are preserved up to rounding.
pub proof fn lemma_remove_renormalizes(
    p_old: Container,
    p_new: Container,
    removed: Container,
    id: u64,
)
    requires
        p_old.wf(),
        spec_remove_done(p_old, p_new, removed, id),
        p_new.children@.len() >= 1,
    ensures
        crate::fractions::sum_units(sizes_of(p_new.children@)) == TOTAL_UNITS,
        crate::fractions::sum_units(
            sizes_of(p_old.children@.remove(child_index_of(p_old, id))),
        ) > 0 ==> forall|j: int|
            0 <= j < p_new.children@.len() - 1 ==> (#[trigger] p_new.children@[j]).size_units == (
            p_old.children@.remove(child_index_of(p_old, id))[j].size_units) * TOTAL_UNITS / (
            TOTAL_UNITS - removed.size_units),
{
}

/// A path decomposes into its parent prefix and a last child step.
pub proof fn lemma_path_decompose(c: Container, p: Seq<usize>)
    requires
        valid_path(c, p),
        p.len() > 0,
    ensures
        valid_path(c, p.take(p.len() - 1)),
        p.last() < node_at(c, p.take(p.len() - 1)).children.len(),
        node_at(c, p.take(p.len() - 1)).children[p.last() as int] == node_at(c, p),
    decreases p.len(),
{
    if p.len() == 1 {
        assert(p.take(0) =~= Seq::<usize>::empty());
        assert(p.drop_first() =~= Seq::<usize>::empty());
        assert(node_at(c, p) == node_at(c.children[p[0] as int], p.drop_first()));
        assert(node_at(c.children[p[0] as int], p.drop_first()) == c.children[p[0] as int]);
    } else {
        lemma_path_decompose(c.children[p[0] as int], p.drop_first());
        assert(p.take(p.len() - 1)[0] == p[0]);
        assert(p.take(p.len() - 1).drop_first() =~= p.drop_first().take(p.drop_first().len() - 1));
        assert(p.drop_first().last() == p.last());
    }
}

/// Whether the identifier occurs anywhere in the subtree, non-tiling
/// windows included.
pub fn contains_id(c: &Container, id: u64) -> (b: bool)
    ensures
        b == c.id_set().contains(id),
    decreases *c,
{
    if c.id == id {
        proof {
            lemma_id_in_own_set(*c);
        }
        return true;
    }
    let mut i: usize = 0;
    while i < c.children.len()
        invariant
            0 <= i <= c.children.len(),
            c.id != id,
            forall|j: int| 0 <= j < i ==> !(#[trigger] c.children@[j]).id_set().contains(id),
        decreases c.children.len() - i,
    {
        if contains_id(&c.children[i], id) {
            proof {
                lemma_seq_id_sets_elem(c.children@, i as int);
            }
            return true;
        }
        i = i + 1;
    }
    let mut i: usize = 0;
    while i < c.non_tiling_children.len()
        invariant
            0 <= i <= c.non_tiling_children.len(),
            c.id != id,
            forall|j: int| 0 <= j < i ==> !(
            #[trigger] c.non_tiling_children@[j]).id_set().contains(id),
        decreases c.non_tiling_children.len() - i,
    {
        if contains_id(&c.non_tiling_children[i], id) {
            proof {
                lemma_seq_id_sets_elem(c.non_tiling_children@, i as int);
            }
            return true;
        }
        i = i + 1;
    }
    proof {
        if c.id_set().contains(id) {
            if seq_id_sets(c.children@).contains(id) {
                lemma_seq_id_sets_member(c.children@, id);
            } else if seq_id_sets(c.non_tiling_children@).contains(id) {
                lemma_seq_id_sets_member(c.non_tiling_children@, id);
            }
        }
    }
    false
}

/// A reached node's identifiers all lie within the starting subtree's.
pub proof fn lemma_node_at_subset(c: Container, p: Seq<usize>)
    requires
        valid_path(c, p),
    ensures
        node_at(c, p).id_set().subset_of(c.id_set()),
    decreases p.len(),
{
    if p.len() > 0 {
        lemma_node_at_subset(c.children[p[0] as int], p.drop_first());
        lemma_seq_id_sets_elem(c.children@, p[0] as int);
        assert forall|x: u64| node_at(c, p).id_set().contains(x) implies c.id_set().contains(
            x,
        ) by {
            assert(c.children[p[0] as int].id_set().contains(x));
        }
    }
}

/// `(p, k)` names a non-tiling window: `p` leads to its workspace, `k`
/// indexes the workspace's non-tiling list.
pub open spec fn nt_loc_valid(c: Container, p: Seq<usize>, k: int) -> bool {
    valid_path(c, p) && 0 <= k < node_at(c, p).non_tiling_children.len()
}

/// Some workspace in the tree holds a non-tiling window with this
/// identifier.
pub open spec fn nt_reaches(c: Container, id: u64) -> bool {
    exists|loc: (Seq<usize>, int)|
        nt_loc_valid(c, loc.0, loc.1) && (#[trigger] node_at(
            c,
            loc.0,
        )).non_tiling_children[loc.1].id == id
}

/// The location of the non-tiling window with this identifier (unique in
/// a well-formed tree).
pub open spec fn nt_loc_of(c: Container, id: u64) -> (Seq<usize>, int) {
    choose|loc: (Seq<usize>, int)|
        nt_loc_valid(c, loc.0, loc.1) && (#[trigger] node_at(
            c,
            loc.0,
        )).non_tiling_children[loc.1].id == id
}

/// The non-tiling window with this identifier.
pub open spec fn nt_window_of(c: Container, id: u64) -> Container {
    node_at(c, nt_loc_of(c, id).0).non_tiling_children[nt_loc_of(c, id).1]
}

/// In a well-formed tree, at most one location holds a non-tiling window
/// with a given identifier.
pub proof fn lemma_nt_loc_unique(c: Container, p1: Seq<usize>, k1: int, p2: Seq<usize>, k2: int)
    requires
        c.wf(),
        nt_loc_valid(c, p1, k1),
        nt_loc_valid(c, p2, k2),
        node_at(c, p1).non_tiling_children[k1].id == node_at(c, p2).non_tiling_children[k2].id,
    ensures
        p1 == p2,
        k1 == k2,
    decreases p1.len(),
{
    let id = node_at(c, p1).non_tiling_children[k1].id;
    lemma_id_in_own_set(node_at(c, p1).non_tiling_children[k1]);
    lemma_id_in_own_set(node_at(c, p2).non_tiling_children[k2]);
    if p1.len() == 0 && p2.len() == 0 {
        if k1 != k2 {
            assert(c.non_tiling_children[k1].id_set().disjoint(
                c.non_tiling_children[k2].id_set(),
            ));
        }
        assert(p1 =~= p2);
    } else if p1.len() == 0 {
        lemma_node_at_subset(c.children[p2[0] as int], p2.drop_first());
        lemma_seq_id_sets_elem(node_at(c, p2).non_tiling_children@, k2);
        assert(node_at(c, p2).id_set().contains(id));
        assert(c.children[p2[0] as int].id_set().contains(id));
        assert(c.children[p2[0] as int].id_set().disjoint(c.non_tiling_children[k1].id_set()));
        assert(false);
    } else if p2.len() == 0 {
        lemma_node_at_subset(c.children[p1[0] as int], p1.drop_first());
        lemma_seq_id_sets_elem(node_at(c, p1).non_tiling_children@, k1);
        assert(node_at(c, p1).id_set().contains(id));
        assert(c.children[p1[0] as int].id_set().contains(id));
        assert(c.children[p1[0] as int].id_set().disjoint(c.non_tiling_children[k2].id_set()));
        assert(false);
    } else {
        let i1 = p1[0] as int;
        let i2 = p2[0] as int;
        lemma_node_at_subset(c.children[i1], p1.drop_first());
        lemma_node_at_subset(c.children[i2], p2.drop_first());
        lemma_seq_id_sets_elem(node_at(c, p1).non_tiling_children@, k1);
        lemma_seq_id_sets_elem(node_at(c, p2).non_tiling_children@, k2);
        assert(c.children[i1].id_set().contains(id));
        assert(c.children[i2].id_set().contains(id));
        if i1 != i2 {
            assert(c.children[i1].id_set().disjoint(c.children[i2].id_set()));
            assert(false);
        } else {
            assert(c.children[i1].wf());
            lemma_nt_loc_unique(c.children[i1], p1.drop_first(), k1, p2.drop_first(), k2);
            assert forall|j: int| 0 <= j < p1.len() implies p1[j] == p2[j] by {
                if j > 0 {
                    assert(p1.drop_first()[j - 1] == p2.drop_first()[j - 1]);
                }
            }
            assert(p1.len() == p2.len());
            assert(p1 =~= p2);
        }
    }
}

/// Locates the workspace holding the non-tiling window with this
/// identifier, or says definitively that none does.
pub fn find_nt_in(c: &Container, id: u64) -> (r: Option<(Vec<usize>, usize)>)
    ensures
        r matches Some(loc) ==> nt_loc_valid(*c, loc.0@, loc.1 as int) && node_at(
            *c,
            loc.0@,
        ).non_tiling_children[loc.1 as int].id == id,
        r is None ==> !nt_reaches(*c, id),
    decreases *c,
{
    match find_index_by_id(&c.non_tiling_children, id) {
        Some(k) => {
            let p: Vec<usize> = Vec::new();
            proof {
                assert(valid_path(*c, p@));
                assert(node_at(*c, p@) == *c);
            }
            return Some((p, k));
        },
        None => {},
    }
    let mut i: usize = 0;
    while i < c.children.len()
        invariant
            0 <= i <= c.children.len(),
            forall|j: int| 0 <= j < c.non_tiling_children@.len() ==> (
            #[trigger] c.non_tiling_children@[j]).id != id,
            forall|j: int| 0 <= j < i ==> !nt_reaches(#[trigger] c.children@[j], id),
        decreases c.children.len() - i,
    {
        match find_nt_in(&c.children[i], id) {
            Some((mut p, k)) => {
                let ghost p0 = p@;
                p.insert(0, i);
                proof {
                    assert(p@ =~= seq![i].add(p0));
                    assert(p@[0] == i);
                    assert(p@.drop_first() =~= p0);
                    assert(valid_path(*c, p@));
                    assert(node_at(*c, p@) == node_at(c.children@[i as int], p0));
                }
                return Some((p, k));
            },
            None => {},
        }
        i = i + 1;
    }
    proof {
        if nt_reaches(*c, id) {
            let loc = choose|loc: (Seq<usize>, int)|
                nt_loc_valid(*c, loc.0, loc.1) && (#[trigger] node_at(
                    *c,
                    loc.0,
                )).non_tiling_children[loc.1].id == id;
            if loc.0.len() == 0 {
                assert(node_at(*c, loc.0) == *c);
                assert(false);
            } else {
                let i0 = loc.0[0] as int;
                assert(valid_path(c.children@[i0], loc.0.drop_first()));
                assert(node_at(*c, loc.0) == node_at(c.children@[i0], loc.0.drop_first()));
                let w: (Seq<usize>, int) = (loc.0.drop_first(), loc.1);
                assert(nt_loc_valid(c.children@[i0], w.0, w.1) && node_at(
                    c.children@[i0],
                    w.0,
                ).non_tiling_children[w.1].id == id);
                assert(nt_reaches(c.children@[i0], id));
                assert(false);
            }
        }
    }
    None
}

/// The same container with another native monitor rectangle (anything
/// but a monitor is left as it is).
pub open spec fn with_monitor_rect(c: Container, rect: Rect) -> Container {
    match c.kind {
        ContainerKind::Monitor(m) => (Container {
            kind: ContainerKind::Monitor(MonitorInfo { device_name: m.device_name, rect }),
            ..c
        }),
        _ => c,
    }
}

/// A found non-tiling location is the unique one the contracts speak of.
pub proof fn lemma_nt_found(t: Tree, id: u64, p: Seq<usize>, k: int)
    requires
        t.wf(),
        nt_loc_valid(t.root, p, k),
        node_at(t.root, p).non_tiling_children[k].id == id,
    ensures
        nt_reaches(t.root, id),
        nt_loc_of(t.root, id) == (p, k),
        nt_window_of(t.root, id) == node_at(t.root, p).non_tiling_children[k],
{
    let w: (Seq<usize>, int) = (p, k);
    assert(nt_loc_valid(t.root, w.0, w.1) && node_at(t.root, w.0).non_tiling_children[w.1].id
        == id);
    assert(nt_reaches(t.root, id));
    let loc0 = nt_loc_of(t.root, id);
    assert(nt_loc_valid(t.root, loc0.0, loc0.1) && node_at(
        t.root,
        loc0.0,
    ).non_tiling_children[loc0.1].id == id);
    lemma_nt_loc_unique(t.root, p, k, loc0.0, loc0.1);
}

/// A borrowed view of the node a path leads to.
pub fn node_ref<'a>(c: &'a Container, path: &Vec<usize>, d: usize) -> (r: &'a Container)
    requires
        d <= path@.len(),
        valid_path(*c, path@.skip(d as int)),
    ensures
        *r == node_at(*c, path@.skip(d as int)),
    decreases path@.len() - d,
{
    if d == path.len() {
        proof {
            assert(path@.skip(d as int) =~= Seq::<usize>::empty());
        }
        c
    } else {
        let i = path[d];
        proof {
            let sp = path@.skip(d as int);
            assert(sp[0] == path@[d as int]);
            assert(sp.drop_first() =~= path@.skip(d as int + 1));
        }
        node_ref(&c.children[i], path, d + 1)
    }
}

/// The container tree with its identifier counter and focus state.
pub struct Tree {
    pub root: Container,
    pub next_id: u64,
    pub focused_id: Option<u64>,
}

impl Tree {
    /// The tree's invariant: a well-formed root of the root kind, every
    /// identifier below the counter, and the focus (if any) naming a live
    /// node.
    pub open spec fn wf(self) -> bool {
        &&& self.root.wf()
        &&& self.root.spec_container_type() is Root
        &&& self.root.ids_below(self.next_id)
        &&& (self.focused_id matches Some(f) ==> self.root.id_set().contains(f))
    }

    /// A fresh tree holding only the root.
    pub fn new() -> (t: Tree)
        ensures
            t.wf(),
            t.root.id == 0,
            t.root.children@.len() == 0,
            t.next_id == 1,
            t.focused_id is None,
    {
        let root = Container::new_root(0);
        let t = Tree { root, next_id: 1, focused_id: None };
        proof {
            assert forall|x: u64| t.root.id_set().contains(x) implies x < 1 by {}
        }
        t
    }

    /// The path from the root to the node with this identifier.
    pub fn find_path(&self, id: u64) -> (r: Option<Vec<usize>>)
        ensures
            r matches Some(p) ==> valid_path(self.root, p@) && node_at(self.root, p@).id == id
                && reaches(self.root, id),
            r is None ==> !reaches(self.root, id),
    {
        find_in(&self.root, id)
    }
}

/// The insertion refusals for a child that is itself of a tiling kind:
/// only the parent's state decides.
pub open spec fn spec_insert_err_tiling(p: Container, index: int, requested: Option<u32>) -> Option<
    LayoutError,
> {
    if !p.is_fraction_parent() {
        Some(LayoutError::NotTilingCapable)
    } else if p.children.len() >= MAX_CHILDREN {
        Some(LayoutError::CapacityExceeded)
    } else if index > p.children.len() {
        Some(LayoutError::InvalidIndex)
    } else if requested is Some && requested->0 > TOTAL_UNITS {
        Some(LayoutError::InvalidFraction)
    } else {
        None
    }
}

/// Nothing observable about the tree changed.
pub open spec fn tree_unchanged(a: Tree, b: Tree) -> bool {
    &&& same_tree(a.root, b.root)
    &&& b.next_id == a.next_id
    &&& b.focused_id == a.focused_id
}

/// A freshly created window node.
pub open spec fn is_new_window(c: Container, id: u64, handle: u64, rect: Rect, tiling: bool) -> bool {
    &&& c.id == id
    &&& c.kind == (if tiling {
        ContainerKind::TilingWindow(WindowInfo { handle, stored_rect: rect })
    } else {
        ContainerKind::NonTilingWindow(WindowInfo { handle, stored_rect: rect })
    })
    &&& c.children@.len() == 0
    &&& c.non_tiling_children@.len() == 0
    &&& c.id_set() == set![id]
}

/// A freshly created split node.
pub open spec fn is_new_split(c: Container, id: u64, direction: TilingDirection) -> bool {
    &&& c.id == id
    &&& c.kind == ContainerKind::Split(SplitInfo { tiling_direction: direction })
    &&& c.children@.len() == 0
    &&& c.non_tiling_children@.len() == 0
    &&& c.id_set() == set![id]
}

impl Tree {
    /// A fresh identifier is foreign to the whole tree.
    proof fn lemma_fresh_disjoint(self)
        requires
            self.wf(),
        ensures
            !self.root.id_set().contains(self.next_id),
            forall|s: Set<u64>| s.subset_of(set![self.next_id]) ==> s.disjoint(
                self.root.id_set(),
            ),
    {
        assert forall|s: Set<u64>| s.subset_of(set![self.next_id]) implies s.disjoint(
            self.root.id_set(),
        ) by {
            assert forall|x: u64| s.contains(x) implies !self.root.id_set().contains(x) by {
                assert(x == self.next_id);
            }
        }
    }

    /// Re-establishes the counter bound after one identifier was handed out.
    proof fn lemma_bump(self, other: Tree, added: Set<u64>)
        requires
            self.wf(),
            other.root.id_set() == self.root.id_set().union(added),
            added.subset_of(set![self.next_id]),
            other.next_id == self.next_id + 1,
            self.next_id < u64::MAX,
        ensures
            other.root.ids_below(other.next_id),
    {
        assert forall|x: u64| other.root.id_set().contains(x) implies x < other.next_id by {
            if added.contains(x) {
                assert(x == self.next_id);
            }
        }
    }

    /// Attaches a fresh monitor for a native display under the root and
    /// returns its identifier.
    pub fn add_monitor(&mut self, device_name: String, rect: Rect) -> (res: Result<
        u64,
        LayoutError,
    >)
        requires
            old(self).wf(),
        ensures
            final(self).wf(),
            res is Err ==> tree_unchanged(*old(self), *final(self)),
            res is Err <==> (!rect.wf() || old(self).next_id == u64::MAX
                || old(self).root.children@.len() >= MAX_CHILDREN),
            !rect.wf() ==> res == Err::<u64, LayoutError>(LayoutError::InvalidGeometry),
            res matches Ok(id) ==> {
                let rc = final(self).root.children@;
                &&& id == old(self).next_id
                &&& final(self).next_id == old(self).next_id + 1
                &&& final(self).focused_id == old(self).focused_id
                &&& rc.len() == old(self).root.children@.len() + 1
                &&& (forall|j: int|
                    0 <= j < old(self).root.children@.len() ==> rc[j] == old(
                        self,
                    ).root.children@[j])
                &&& rc.last().id == id
                &&& rc.last().kind == (ContainerKind::Monitor(MonitorInfo { device_name, rect }))
                &&& rc.last().children@.len() == 0
                &&& final(self).root.id_set() == old(self).root.id_set().insert(id)
            },
    {
        if !rect.check_wf() {
            return Err(LayoutError::InvalidGeometry);
        }
        if self.next_id == u64::MAX {
            return Err(LayoutError::CapacityExceeded);
        }
        let id = self.next_id;
        let m = Container::new_monitor(id, device_name, rect);
        let ghost gm = m;
        proof {
            old(self).lemma_fresh_disjoint();
        }
        let path: Vec<usize> = Vec::new();
        match apply_at(&mut self.root, &path, 0, TreeOp::Attach { child: m }) {
            Ok(_) => {
                self.next_id = self.next_id + 1;
                proof {
                    assert(path@.skip(0) =~= Seq::<usize>::empty());
                    assert(node_at(old(self).root, path@.skip(0)) == old(self).root);
                    old(self).lemma_bump(*self, gm.id_set());
                    assert(old(self).root.id_set().union(gm.id_set()) =~= old(
                        self,
                    ).root.id_set().insert(id));
                    assert(self.root.id_set().contains(id)) by {
                        lemma_id_in_own_set(gm);
                    }
                    if old(self).focused_id is Some {
                        assert(self.root.id_set().contains(old(self).focused_id->0));
                    }
                }
                Ok(id)
            },
            Err(e) => {
                proof {
                    assert(path@.skip(0) =~= Seq::<usize>::empty());
                    lemma_same_tree(old(self).root, self.root);
                }
                Err(e)
            },
        }
    }

    /// Activates a fresh workspace under the named monitor, built from its
    /// configuration record and outer gaps, and returns its identifier.
    pub fn activate_workspace(
        &mut self,
        monitor_id: u64,
        config: WorkspaceConfig,
        outer_gaps: RectDelta,
    ) -> (res: Result<u64, LayoutError>)
        requires
            old(self).wf(),
        ensures
            final(self).wf(),
            res is Err ==> tree_unchanged(*old(self), *final(self)),
            !outer_gaps.wf() ==> res == Err::<u64, LayoutError>(LayoutError::InvalidGeometry),
            outer_gaps.wf() && old(self).next_id == u64::MAX ==> res == Err::<u64, LayoutError>(
                LayoutError::CapacityExceeded,
            ),
            outer_gaps.wf() && old(self).next_id != u64::MAX && !reaches(
                old(self).root,
                monitor_id,
            ) ==> res == Err::<u64, LayoutError>(LayoutError::NotFound),
            outer_gaps.wf() && old(self).next_id != u64::MAX && reaches(
                old(self).root,
                monitor_id,
            ) ==> ({
                let mo = node_at(old(self).root, path_of(old(self).root, monitor_id));
                &&& (!(mo.spec_container_type() is Monitor) ==> res == Err::<u64, LayoutError>(
                    LayoutError::NotTilingCapable,
                ))
                &&& (mo.spec_container_type() is Monitor && mo.children.len() >= MAX_CHILDREN
                    ==> res == Err::<u64, LayoutError>(LayoutError::CapacityExceeded))
                &&& (mo.spec_container_type() is Monitor && mo.children.len() < MAX_CHILDREN
                    ==> res is Ok)
            }),
            res matches Ok(id) ==> reaches(old(self).root, monitor_id) && {
                let p = path_of(old(self).root, monitor_id);
                let mo = node_at(old(self).root, p);
                let mn = node_at(final(self).root, p);
                &&& mo.spec_container_type() is Monitor
                &&& id == old(self).next_id
                &&& final(self).next_id == old(self).next_id + 1
                &&& final(self).focused_id == old(self).focused_id
                &&& mn.children@.len() == mo.children@.len() + 1
                &&& (forall|j: int| 0 <= j < mo.children@.len() ==> mn.children@[j] == mo.children@[j])
                &&& mn.children@.last().id == id
                &&& mn.children@.last().kind == (ContainerKind::Workspace(
                    Workspace { config, outer_gaps },
                ))
                &&& mn.children@.last().children@.len() == 0
                &&& mn.children@.last().size_units == TOTAL_UNITS
                &&& frame_same(mo, mn)
                &&& frames_along(old(self).root, final(self).root, p)
                &&& final(self).root.id_set() == old(self).root.id_set().insert(id)
            },
    {
        if !outer_gaps.check_wf() {
            return Err(LayoutError::InvalidGeometry);
        }
        if self.next_id == u64::MAX {
            return Err(LayoutError::CapacityExceeded);
        }
        match self.find_path(monitor_id) {
            None => Err(LayoutError::NotFound),
            Some(p) => {
                let id = self.next_id;
                let w = Container::new_workspace(id, Workspace::new(config, outer_gaps));
                let ghost gw = w;
                proof {
                    old(self).lemma_fresh_disjoint();
                    let p0 = path_of(old(self).root, monitor_id);
                    assert(valid_path(old(self).root, p0) && node_at(old(self).root, p0).id
                        == monitor_id);
                    lemma_path_unique(old(self).root, p@, p0);
                    assert(p@.skip(0) =~= p@);
                }
                match apply_at(&mut self.root, &p, 0, TreeOp::Attach { child: w }) {
                    Ok(_) => {
                        self.next_id = self.next_id + 1;
                        proof {
                            assert(p@.skip(0) =~= p@);
                            if p@.len() == 0 {
                                assert(node_at(old(self).root, p@) == old(self).root);
                                assert(false);
                            }
                            assert(p@.take(0) =~= Seq::<usize>::empty());
                            assert(node_at(old(self).root, p@.take(0)) == old(self).root);
                            assert(node_at(self.root, p@.take(0)) == self.root);
                            assert(self.root.kind == old(self).root.kind);
                            old(self).lemma_bump(*self, gw.id_set());
                            assert(old(self).root.id_set().union(gw.id_set()) =~= old(
                                self,
                            ).root.id_set().insert(id));
                            assert(self.root.id_set().contains(id)) by {
                                lemma_id_in_own_set(gw);
                            }
                            if old(self).focused_id is Some {
                                assert(self.root.id_set().contains(old(self).focused_id->0));
                            }
                        }
                        Ok(id)
                    },
                    Err(e) => {
                        proof {
                            assert(p@.skip(0) =~= p@);
                            lemma_same_tree(old(self).root, self.root);
                            assert(gw.spec_container_type() is Workspace);
                            let mo = node_at(old(self).root, p@);
                            if mo.spec_container_type() is Monitor {
                                assert(child_kind_ok(
                                    mo.spec_container_type(),
                                    gw.spec_container_type(),
                                ));
                            }
                        }
                        Err(e)
                    },
                }
            },
        }
    }

    /// Inserts a fresh tiling container under the named workspace or
    /// split: a window over a native handle, or an empty split along
    /// `direction`. Without an explicit share the new child receives an
    /// equal share and its siblings shrink proportionally.
    #[verifier::rlimit(60)]
    #[verifier::spinoff_prover]
    fn insert_new_tiling(
        &mut self,
        parent_id: u64,
        index: usize,
        requested: Option<u32>,
        handle: u64,
        stored_rect: Rect,
        direction: Option<TilingDirection>,
    ) -> (res: Result<u64, LayoutError>)
        requires
            old(self).wf(),
            stored_rect.wf(),
        ensures
            final(self).wf(),
            res is Err ==> tree_unchanged(*old(self), *final(self)),
            old(self).next_id == u64::MAX ==> res == Err::<u64, LayoutError>(
                LayoutError::CapacityExceeded,
            ),
            old(self).next_id != u64::MAX && !reaches(old(self).root, parent_id) ==> res == Err::<
                u64,
                LayoutError,
            >(LayoutError::NotFound),
            old(self).next_id != u64::MAX && reaches(old(self).root, parent_id) ==> {
                let p = path_of(old(self).root, parent_id);
                let e0 = spec_insert_err_tiling(
                    node_at(old(self).root, p),
                    index as int,
                    requested,
                );
                &&& (e0 matches Some(e) ==> res == Err::<u64, LayoutError>(e))
                &&& (e0 is None ==> (res matches Ok(id) && {
                    &&& id == old(self).next_id
                    &&& final(self).next_id == old(self).next_id + 1
                    &&& final(self).focused_id == old(self).focused_id
                    &&& (exists|w: Container|
                        {
                            &&& (match direction {
                                Some(dd) => is_new_split(w, id, dd),
                                None => is_new_window(w, id, handle, stored_rect, true),
                            })
                            &&& spec_insert_done(
                                node_at(old(self).root, p),
                                node_at(final(self).root, p),
                                w,
                                index as int,
                                requested,
                            )
                        })
                    &&& frames_along(old(self).root, final(self).root, p)
                    &&& final(self).root.id_set() == old(self).root.id_set().insert(id)
                }))
            },
    {
        if self.next_id == u64::MAX {
            return Err(LayoutError::CapacityExceeded);
        }
        match self.find_path(parent_id) {
            None => Err(LayoutError::NotFound),
            Some(p) => {
                let id = self.next_id;
                let w = match direction {
                    Some(dd) => Container::new_split(id, dd),
                    None => Container::new_window(id, handle, stored_rect, true),
                };
                let ghost gw = w;
                proof {
                    old(self).lemma_fresh_disjoint();
                    let p0 = path_of(old(self).root, parent_id);
                    assert(valid_path(old(self).root, p0) && node_at(old(self).root, p0).id
                        == parent_id);
                    lemma_path_unique(old(self).root, p@, p0);
                    assert(p@.skip(0) =~= p@);
                }
                match apply_at(
                    &mut self.root,
                    &p,
                    0,
                    TreeOp::Insert { child: w, index, requested },
                ) {
                    Ok(_) => {
                        self.next_id = self.next_id + 1;
                        proof {
                            if p@.len() == 0 {
                                assert(node_at(old(self).root, p@) == old(self).root);
                                assert(false);
                            }
                            assert(p@.take(0) =~= Seq::<usize>::empty());
                            assert(node_at(old(self).root, p@.take(0)) == old(self).root);
                            assert(node_at(self.root, p@.take(0)) == self.root);
                            assert(self.root.kind == old(self).root.kind);
                            old(self).lemma_bump(*self, gw.id_set());
                            assert(old(self).root.id_set().union(gw.id_set()) =~= old(
                                self,
                            ).root.id_set().insert(id));
                            assert(self.root.id_set().contains(id)) by {
                                lemma_id_in_own_set(gw);
                            }
                            if old(self).focused_id is Some {
                                assert(self.root.id_set().contains(old(self).focused_id->0));
                            }
                        }
                        Ok(id)
                    },
                    Err(e) => {
                        proof {
                            lemma_same_tree(old(self).root, self.root);
                        }
                        Err(e)
                    },
                }
            },
        }
    }

    /// Puts a fresh tiling window over a native handle under the named
    /// workspace or split.
    pub fn manage_window(
        &mut self,
        parent_id: u64,
        handle: u64,
        stored_rect: Rect,
        index: usize,
        requested: Option<u32>,
    ) -> (res: Result<u64, LayoutError>)
        requires
            old(self).wf(),
        ensures
            final(self).wf(),
            res is Err ==> tree_unchanged(*old(self), *final(self)),
            !stored_rect.wf() ==> res == Err::<u64, LayoutError>(LayoutError::InvalidGeometry),
            stored_rect.wf() && old(self).next_id == u64::MAX ==> res == Err::<u64, LayoutError>(
                LayoutError::CapacityExceeded,
            ),
            stored_rect.wf() && old(self).next_id != u64::MAX && !reaches(
                old(self).root,
                parent_id,
            ) ==> res == Err::<u64, LayoutError>(LayoutError::NotFound),
            stored_rect.wf() && old(self).next_id != u64::MAX && reaches(
                old(self).root,
                parent_id,
            ) ==> {
                let p = path_of(old(self).root, parent_id);
                let e0 = spec_insert_err_tiling(
                    node_at(old(self).root, p),
                    index as int,
                    requested,
                );
                &&& (e0 matches Some(e) ==> res == Err::<u64, LayoutError>(e))
                &&& (e0 is None ==> (res matches Ok(id) && {
                    &&& id == old(self).next_id
                    &&& final(self).next_id == old(self).next_id + 1
                    &&& final(self).focused_id == old(self).focused_id
                    &&& (exists|w: Container|
                        is_new_window(w, id, handle, stored_rect, true) && spec_insert_done(
                            node_at(old(self).root, p),
                            node_at(final(self).root, p),
                            w,
                            index as int,
                            requested,
                        ))
                    &&& frames_along(old(self).root, final(self).root, p)
                    &&& final(self).root.id_set() == old(self).root.id_set().insert(id)
                }))
            },
    {
        if !stored_rect.check_wf() {
            return Err(LayoutError::InvalidGeometry);
        }
        self.insert_new_tiling(parent_id, index, requested, handle, stored_rect, None)
    }

    /// Introduces a fresh empty split along `direction` under the named
    /// workspace or split.
    pub fn add_split(
        &mut self,
        parent_id: u64,
        direction: TilingDirection,
        index: usize,
        requested: Option<u32>,
    ) -> (res: Result<u64, LayoutError>)
        requires
            old(self).wf(),
        ensures
            final(self).wf(),
            res is Err ==> tree_unchanged(*old(self), *final(self)),
            old(self).next_id == u64::MAX ==> res == Err::<u64, LayoutError>(
                LayoutError::CapacityExceeded,
            ),
            old(self).next_id != u64::MAX && !reaches(old(self).root, parent_id) ==> res == Err::<
                u64,
                LayoutError,
            >(LayoutError::NotFound),
            old(self).next_id != u64::MAX && reaches(old(self).root, parent_id) ==> {
                let p = path_of(old(self).root, parent_id);
                let e0 = spec_insert_err_tiling(
                    node_at(old(self).root, p),
                    index as int,
                    requested,
                );
                &&& (e0 matches Some(e) ==> res == Err::<u64, LayoutError>(e))
                &&& (e0 is None ==> (res matches Ok(id) && {
                    &&& id == old(self).next_id
                    &&& final(self).next_id == old(self).next_id + 1
                    &&& final(self).focused_id == old(self).focused_id
                    &&& (exists|w: Container|
                        is_new_split(w, id, direction) && spec_insert_done(
                            node_at(old(self).root, p),
                            node_at(final(self).root, p),
                            w,
                            index as int,
                            requested,
                        ))
                    &&& frames_along(old(self).root, final(self).root, p)
                    &&& final(self).root.id_set() == old(self).root.id_set().insert(id)
                }))
            },
    {
        let r = Rect { x: 0, y: 0, width: 0, height: 0 };
        self.insert_new_tiling(parent_id, index, requested, 0, r, Some(direction))
    }

    /// Puts a fresh floating, maximized or minimized window into the
    /// named workspace's separate non-tiling list; it takes no part in
    /// share bookkeeping and keeps its own absolute geometry.
    #[verifier::rlimit(60)]
    #[verifier::spinoff_prover]
    pub fn manage_non_tiling_window(
        &mut self,
        workspace_id: u64,
        handle: u64,
        stored_rect: Rect,
    ) -> (res: Result<u64, LayoutError>)
        requires
            old(self).wf(),
        ensures
            final(self).wf(),
            res is Err ==> tree_unchanged(*old(self), *final(self)),
            !stored_rect.wf() ==> res == Err::<u64, LayoutError>(LayoutError::InvalidGeometry),
            stored_rect.wf() && old(self).next_id == u64::MAX ==> res == Err::<u64, LayoutError>(
                LayoutError::CapacityExceeded,
            ),
            stored_rect.wf() && old(self).next_id != u64::MAX && !reaches(
                old(self).root,
                workspace_id,
            ) ==> res == Err::<u64, LayoutError>(LayoutError::NotFound),
            stored_rect.wf() && old(self).next_id != u64::MAX && reaches(
                old(self).root,
                workspace_id,
            ) && !(node_at(
                old(self).root,
                path_of(old(self).root, workspace_id),
            ).spec_container_type() is Workspace) ==> res == Err::<u64, LayoutError>(
                LayoutError::NotTilingCapable,
            ),
            stored_rect.wf() && old(self).next_id != u64::MAX && reaches(
                old(self).root,
                workspace_id,
            ) && (node_at(
                old(self).root,
                path_of(old(self).root, workspace_id),
            ).spec_container_type() is Workspace) ==> ({
                let no = node_at(old(self).root, path_of(old(self).root, workspace_id));
                &&& (no.non_tiling_children.len() >= MAX_CHILDREN ==> res == Err::<
                    u64,
                    LayoutError,
                >(LayoutError::CapacityExceeded))
                &&& (no.non_tiling_children.len() < MAX_CHILDREN ==> res is Ok)
            }),
            res matches Ok(id) ==> reaches(old(self).root, workspace_id) && {
                let p = path_of(old(self).root, workspace_id);
                let no = node_at(old(self).root, p);
                let nn = node_at(final(self).root, p);
                &&& no.spec_container_type() is Workspace
                &&& id == old(self).next_id
                &&& final(self).next_id == old(self).next_id + 1
                &&& final(self).focused_id == old(self).focused_id
                &&& nn.non_tiling_children@.len() == no.non_tiling_children@.len() + 1
                &&& (forall|j: int|
                    0 <= j < no.non_tiling_children@.len() ==> nn.non_tiling_children@[j]
                        == no.non_tiling_children@[j])
                &&& nn.non_tiling_children@.last().id == id
                &&& nn.non_tiling_children@.last().kind == (ContainerKind::NonTilingWindow(
                    WindowInfo { handle, stored_rect },
                ))
                &&& nn.children == no.children
                &&& nn.kind == no.kind
                &&& frames_along(old(self).root, final(self).root, p)
                &&& final(self).root.id_set() == old(self).root.id_set().insert(id)
            },
    {
        if !stored_rect.check_wf() {
            return Err(LayoutError::InvalidGeometry);
        }
        if self.next_id == u64::MAX {
            return Err(LayoutError::CapacityExceeded);
        }
        match self.find_path(workspace_id) {
            None => Err(LayoutError::NotFound),
            Some(p) => {
                let id = self.next_id;
                let w = Container::new_window(id, handle, stored_rect, false);
                let ghost gw = w;
                proof {
                    old(self).lemma_fresh_disjoint();
                    let p0 = path_of(old(self).root, workspace_id);
                    assert(valid_path(old(self).root, p0) && node_at(old(self).root, p0).id
                        == workspace_id);
                    lemma_path_unique(old(self).root, p@, p0);
                    assert(p@.skip(0) =~= p@);
                }
                match apply_at(&mut self.root, &p, 0, TreeOp::AddNonTiling { child: w }) {
                    Ok(_) => {
                        self.next_id = self.next_id + 1;
                        proof {
                            if p@.len() == 0 {
                                assert(node_at(old(self).root, p@) == old(self).root);
                                assert(false);
                            }
                            assert(p@.take(0) =~= Seq::<usize>::empty());
                            assert(node_at(old(self).root, p@.take(0)) == old(self).root);
                            assert(node_at(self.root, p@.take(0)) == self.root);
                            assert(self.root.kind == old(self).root.kind);
                            old(self).lemma_bump(*self, gw.id_set());
                            assert(old(self).root.id_set().union(gw.id_set()) =~= old(
                                self,
                            ).root.id_set().insert(id));
                            assert(self.root.id_set().contains(id)) by {
                                lemma_id_in_own_set(gw);
                            }
                            if old(self).focused_id is Some {
                                assert(self.root.id_set().contains(old(self).focused_id->0));
                            }
                        }
                        Ok(id)
                    },
                    Err(e) => {
                        proof {
                            lemma_same_tree(old(self).root, self.root);
                        }
                        Err(e)
                    },
                }
            },
        }
    }

    /// Takes the named window out of the named workspace's non-tiling
    /// list and hands it back. If the focus pointed at it, the focus is
    /// cleared.
    #[verifier::rlimit(60)]
    #[verifier::spinoff_prover]
    pub fn unmanage_non_tiling_window(&mut self, workspace_id: u64, window_id: u64) -> (res: Result<
        Container,
        LayoutError,
    >)
        requires
            old(self).wf(),
        ensures
            final(self).wf(),
            res is Err ==> tree_unchanged(*old(self), *final(self)),
            !reaches(old(self).root, workspace_id) ==> res == Err::<Container, LayoutError>(
                LayoutError::NotFound,
            ),
            reaches(old(self).root, workspace_id) && !has_nt_id(
                node_at(old(self).root, path_of(old(self).root, workspace_id)),
                window_id,
            ) ==> res == Err::<Container, LayoutError>(LayoutError::NotAChild),
            reaches(old(self).root, workspace_id) && has_nt_id(
                node_at(old(self).root, path_of(old(self).root, workspace_id)),
                window_id,
            ) ==> res is Ok,
            res matches Ok(rm) ==> reaches(old(self).root, workspace_id) && {
                let p = path_of(old(self).root, workspace_id);
                let no = node_at(old(self).root, p);
                let nn = node_at(final(self).root, p);
                let k = nt_index_of(no, window_id);
                &&& rm == no.non_tiling_children[k]
                &&& rm.id == window_id
                &&& nn.non_tiling_children@ == no.non_tiling_children@.remove(k)
                &&& nn.children == no.children
                &&& nn.kind == no.kind
                &&& frames_along(old(self).root, final(self).root, p)
                &&& final(self).root.id_set().union(rm.id_set()) == old(self).root.id_set()
                &&& final(self).root.id_set().disjoint(rm.id_set())
                &&& final(self).next_id == old(self).next_id
                &&& final(self).focused_id == (match old(self).focused_id {
                    Some(f) => if rm.id_set().contains(f) {
                        None
                    } else {
                        Some(f)
                    },
                    None => None,
                })
            },
    {
        match self.find_path(workspace_id) {
            None => Err(LayoutError::NotFound),
            Some(p) => {
                proof {
                    let p0 = path_of(old(self).root, workspace_id);
                    assert(valid_path(old(self).root, p0) && node_at(old(self).root, p0).id
                        == workspace_id);
                    lemma_path_unique(old(self).root, p@, p0);
                    assert(p@.skip(0) =~= p@);
                }
                match apply_at(
                    &mut self.root,
                    &p,
                    0,
                    TreeOp::RemoveNonTiling { child_id: window_id },
                ) {
                    Ok(Some(rm)) => {
                        let clear = match self.focused_id {
                            Some(f) => contains_id(&rm, f),
                            None => false,
                        };
                        if clear {
                            self.focused_id = None;
                        }
                        proof {
                            let no = node_at(old(self).root, p@);
                            crate::tree::lemma_node_at_wf(old(self).root, p@);
                            assert(no.non_tiling_children@[nt_index_of(no, window_id)].id
                                == window_id);
                            if p@.len() == 0 {
                                assert(node_at(old(self).root, p@) == old(self).root);
                                assert(node_at(self.root, p@) == self.root);
                            } else {
                                assert(p@.take(0) =~= Seq::<usize>::empty());
                                assert(node_at(old(self).root, p@.take(0)) == old(self).root);
                                assert(node_at(self.root, p@.take(0)) == self.root);
                            }
                            assert(self.root.kind == old(self).root.kind);
                            assert forall|x: u64| self.root.id_set().contains(x) implies old(
                                self,
                            ).root.id_set().contains(x) by {}
                            if self.focused_id is Some {
                                let f = self.focused_id->0;
                                assert(old(self).root.id_set().contains(f));
                                assert(!rm.id_set().contains(f));
                                assert(self.root.id_set().union(rm.id_set()).contains(f));
                            }
                        }
                        Ok(rm)
                    },
                    Ok(None) => {
                        proof {
                            assert(false);
                        }
                        Err(LayoutError::NotFound)
                    },
                    Err(e) => {
                        proof {
                            lemma_same_tree(old(self).root, self.root);
                        }
                        Err(e)
                    },
                }
            },
        }
    }

    /// Detaches the named container from its parent and hands the subtree
    /// back. Under a workspace or split the vacated share is redistributed
    /// proportionally; under the root or a monitor no shares are involved.
    /// If the focus pointed into the removed subtree it is cleared.
    #[verifier::rlimit(60)]
    #[verifier::spinoff_prover]
    pub fn remove_container(&mut self, container_id: u64) -> (res: Result<Container, LayoutError>)
        requires
            old(self).wf(),
        ensures
            final(self).wf(),
            res is Err ==> tree_unchanged(*old(self), *final(self)),
            !reaches(old(self).root, container_id) ==> res == Err::<Container, LayoutError>(
                LayoutError::NotFound,
            ),
            reaches(old(self).root, container_id) && path_of(old(self).root, container_id).len()
                == 0 ==> res == Err::<Container, LayoutError>(LayoutError::NotAChild),
            reaches(old(self).root, container_id) && path_of(old(self).root, container_id).len()
                > 0 ==> (res matches Ok(rm) && {
                let p = path_of(old(self).root, container_id);
                let pp = p.take(p.len() - 1);
                let po = node_at(old(self).root, pp);
                let pn = node_at(final(self).root, pp);
                &&& rm.id == container_id
                &&& (po.is_fraction_parent() ==> spec_remove_done(po, pn, rm, container_id))
                &&& (!po.is_fraction_parent() ==> {
                    let k = child_index_of(po, container_id);
                    &&& rm == po.children[k]
                    &&& pn.children@ == po.children@.remove(k)
                    &&& frame_same(po, pn)
                })
                &&& frames_along(old(self).root, final(self).root, pp)
                &&& final(self).root.id_set().union(rm.id_set()) == old(self).root.id_set()
                &&& final(self).root.id_set().disjoint(rm.id_set())
                &&& final(self).next_id == old(self).next_id
                &&& final(self).focused_id == (match old(self).focused_id {
                    Some(f) => if rm.id_set().contains(f) {
                        None
                    } else {
                        Some(f)
                    },
                    None => None,
                })
            }),
    {
        match self.find_path(container_id) {
            None => Err(LayoutError::NotFound),
            Some(p) => {
                proof {
                    let p0 = path_of(old(self).root, container_id);
                    assert(valid_path(old(self).root, p0) && node_at(old(self).root, p0).id
                        == container_id);
                    lemma_path_unique(old(self).root, p@, p0);
                }
                if p.len() == 0 {
                    return Err(LayoutError::NotAChild);
                }
                let ghost gp = p@;
                let mut pp = p;
                let last = match pp.pop() {
                    Some(v) => v,
                    None => 0,
                };
                proof {
                    lemma_path_decompose(old(self).root, gp);
                    assert(gp.drop_last() =~= gp.take(gp.len() - 1));
                    assert(pp@ =~= gp.take(gp.len() - 1));
                    assert(pp@.skip(0) =~= pp@);
                    let po = node_at(old(self).root, pp@);
                    assert(po.children[last as int].id == container_id);
                    assert(has_child_id(po, container_id));
                }
                let parent_t = node_ref(&self.root, &pp, 0).container_type();
                let use_fraction = parent_t == ContainerType::Workspace || parent_t
                    == ContainerType::Split;
                proof {
                    let po = node_at(old(self).root, pp@);
                    lemma_node_at_wf(old(self).root, pp@);
                    if !(parent_t is Workspace || parent_t is Split || parent_t is Root
                        || parent_t is Monitor) {
                        assert(child_kind_ok(
                            po.spec_container_type(),
                            po.children[last as int].spec_container_type(),
                        ));
                        assert(false);
                    }
                }
                let op = if use_fraction {
                    TreeOp::Remove { child_id: container_id }
                } else {
                    TreeOp::Detach { child_id: container_id }
                };
                match apply_at(&mut self.root, &pp, 0, op) {
                    Ok(Some(rm)) => {
                        let clear = match self.focused_id {
                            Some(f) => contains_id(&rm, f),
                            None => false,
                        };
                        if clear {
                            self.focused_id = None;
                        }
                        proof {
                            if pp@.len() == 0 {
                                assert(node_at(old(self).root, pp@) == old(self).root);
                                assert(node_at(self.root, pp@) == self.root);
                            } else {
                                assert(pp@.take(0) =~= Seq::<usize>::empty());
                                assert(node_at(old(self).root, pp@.take(0)) == old(self).root);
                                assert(node_at(self.root, pp@.take(0)) == self.root);
                            }
                            assert(self.root.kind == old(self).root.kind);
                            assert forall|x: u64| self.root.id_set().contains(x) implies old(
                                self,
                            ).root.id_set().contains(x) by {}
                            if self.focused_id is Some {
                                let f = self.focused_id->0;
                                assert(old(self).root.id_set().contains(f));
                                assert(!rm.id_set().contains(f));
                                assert(self.root.id_set().union(rm.id_set()).contains(f));
                            }
                        }
                        Ok(rm)
                    },
                    Ok(None) => {
                        proof {
                            assert(false);
                        }
                        Err(LayoutError::NotFound)
                    },
                    Err(e) => {
                        proof {
                            let po = node_at(old(self).root, pp@);
                            assert(spec_remove_err(po, container_id) is None || !(
                            po.is_fraction_parent()));
                            assert(false);
                        }
                        Err(e)
                    },
                }
            },
        }
    }

    /// Adjusts the named container's share by a signed amount, taking it
    /// from (or giving it to) the adjacent sibling along the parent's
    /// tiling axis.
    #[verifier::rlimit(60)]
    #[verifier::spinoff_prover]
    pub fn resize_container(&mut self, container_id: u64, delta_units: i32) -> (res: Result<
        (),
        LayoutError,
    >)
        requires
            old(self).wf(),
        ensures
            final(self).wf(),
            final(self).next_id == old(self).next_id,
            final(self).focused_id == old(self).focused_id,
            res is Err ==> tree_unchanged(*old(self), *final(self)),
            !reaches(old(self).root, container_id) ==> res == Err::<(), LayoutError>(
                LayoutError::NotFound,
            ),
            reaches(old(self).root, container_id) && path_of(old(self).root, container_id).len()
                == 0 ==> res == Err::<(), LayoutError>(LayoutError::NotAChild),
            reaches(old(self).root, container_id) && path_of(old(self).root, container_id).len()
                > 0 ==> {
                let p = path_of(old(self).root, container_id);
                let pp = p.take(p.len() - 1);
                let po = node_at(old(self).root, pp);
                let e0 = spec_resize_err(po, container_id, delta_units as int);
                &&& (e0 matches Some(e) ==> res == Err::<(), LayoutError>(e))
                &&& (e0 is None ==> res == Ok::<(), LayoutError>(()) && {
                    &&& spec_resize_done(
                        po,
                        node_at(final(self).root, pp),
                        container_id,
                        delta_units as int,
                    )
                    &&& frames_along(old(self).root, final(self).root, pp)
                    &&& final(self).root.id_set() == old(self).root.id_set()
                })
            },
    {
        match self.find_path(container_id) {
            None => Err(LayoutError::NotFound),
            Some(p) => {
                proof {
                    let p0 = path_of(old(self).root, container_id);
                    assert(valid_path(old(self).root, p0) && node_at(old(self).root, p0).id
                        == container_id);
                    lemma_path_unique(old(self).root, p@, p0);
                }
                if p.len() == 0 {
                    return Err(LayoutError::NotAChild);
                }
                let ghost gp = p@;
                let mut pp = p;
                let _last = pp.pop();
                proof {
                    lemma_path_decompose(old(self).root, gp);
                    assert(gp.drop_last() =~= gp.take(gp.len() - 1));
                    assert(pp@ =~= gp.take(gp.len() - 1));
                    assert(pp@.skip(0) =~= pp@);
                    assert(has_child_id(node_at(old(self).root, pp@), container_id));
                }
                match apply_at(
                    &mut self.root,
                    &pp,
                    0,
                    TreeOp::Resize { child_id: container_id, delta_units },
                ) {
                    Ok(_) => {
                        proof {
                            if pp@.len() == 0 {
                                assert(node_at(old(self).root, pp@) == old(self).root);
                                assert(false);
                            }
                            assert(pp@.take(0) =~= Seq::<usize>::empty());
                            assert(node_at(old(self).root, pp@.take(0)) == old(self).root);
                            assert(node_at(self.root, pp@.take(0)) == self.root);
                            assert(self.root.kind == old(self).root.kind);
                            assert(old(self).root.id_set().union(Set::<u64>::empty()) =~= old(
                                self,
                            ).root.id_set());
                        }
                        Ok(())
                    },
                    Err(e) => {
                        proof {
                            lemma_same_tree(old(self).root, self.root);
                        }
                        Err(e)
                    },
                }
            },
        }
    }

    /// Changes the tiling axis of the named workspace or split container;
    /// stored fraction values are untouched.
    pub fn set_tiling_direction(&mut self, container_id: u64, direction: TilingDirection) -> (res:
        Result<(), LayoutError>)
        requires
            old(self).wf(),
        ensures
            final(self).wf(),
            final(self).next_id == old(self).next_id,
            final(self).focused_id == old(self).focused_id,
            res is Err ==> tree_unchanged(*old(self), *final(self)),
            !reaches(old(self).root, container_id) ==> res == Err::<(), LayoutError>(
                LayoutError::NotFound,
            ),
            reaches(old(self).root, container_id) ==> {
                let p = path_of(old(self).root, container_id);
                let no = node_at(old(self).root, p);
                &&& (!no.is_fraction_parent() ==> res == Err::<(), LayoutError>(
                    LayoutError::NotTilingCapable,
                ))
                &&& (no.is_fraction_parent() ==> res == Ok::<(), LayoutError>(()) && {
                    &&& node_at(final(self).root, p) == with_direction(no, direction)
                    &&& frames_along(old(self).root, final(self).root, p)
                    &&& final(self).root.id_set() == old(self).root.id_set()
                })
            },
    {
        match self.find_path(container_id) {
            None => Err(LayoutError::NotFound),
            Some(p) => {
                proof {
                    let p0 = path_of(old(self).root, container_id);
                    assert(valid_path(old(self).root, p0) && node_at(old(self).root, p0).id
                        == container_id);
                    lemma_path_unique(old(self).root, p@, p0);
                    assert(p@.skip(0) =~= p@);
                }
                match apply_at(&mut self.root, &p, 0, TreeOp::SetDirection { direction }) {
                    Ok(_) => {
                        proof {
                            if p@.len() > 0 {
                                assert(p@.take(0) =~= Seq::<usize>::empty());
                                assert(node_at(old(self).root, p@.take(0)) == old(self).root);
                                assert(node_at(self.root, p@.take(0)) == self.root);
                            } else {
                                assert(node_at(old(self).root, p@) == old(self).root);
                                assert(false);
                            }
                            assert(old(self).root.id_set().union(Set::<u64>::empty()) =~= old(
                                self,
                            ).root.id_set());
                        }
                        Ok(())
                    },
                    Err(e) => {
                        proof {
                            lemma_same_tree(old(self).root, self.root);
                        }
                        Err(e)
                    },
                }
            },
        }
    }

    /// Replaces the named monitor's native rectangle, leaving everything
    /// else — workspaces, shares, identifiers — untouched. Geometry
    /// queries derive from the new rectangle immediately, since nothing
    /// is cached.
    #[verifier::rlimit(60)]
    #[verifier::spinoff_prover]
    pub fn update_working_area(&mut self, monitor_id: u64, rect: Rect) -> (res: Result<
        (),
        LayoutError,
    >)
        requires
            old(self).wf(),
        ensures
            final(self).wf(),
            final(self).next_id == old(self).next_id,
            final(self).focused_id == old(self).focused_id,
            res is Err ==> tree_unchanged(*old(self), *final(self)),
            !rect.wf() ==> res == Err::<(), LayoutError>(LayoutError::InvalidGeometry),
            rect.wf() && !has_child_id(old(self).root, monitor_id) ==> res == Err::<
                (),
                LayoutError,
            >(LayoutError::NotFound),
            rect.wf() && has_child_id(old(self).root, monitor_id) ==> res == Ok::<
                (),
                LayoutError,
            >(()) && ({
                let k = child_index_of(old(self).root, monitor_id);
                let mo = old(self).root.children@[k];
                &&& final(self).root.children@.len() == old(self).root.children@.len()
                &&& (forall|j: int|
                    0 <= j < old(self).root.children@.len() && j != k
                        ==> final(self).root.children@[j] == old(self).root.children@[j])
                &&& final(self).root.children@[k] == with_monitor_rect(mo, rect)
                &&& final(self).root.id == old(self).root.id
                &&& final(self).root.kind == old(self).root.kind
                &&& final(self).root.size_units == old(self).root.size_units
                &&& final(self).root.non_tiling_children == old(self).root.non_tiling_children
                &&& final(self).root.id_set() == old(self).root.id_set()
            }),
    {
        if !rect.check_wf() {
            return Err(LayoutError::InvalidGeometry);
        }
        match find_index_by_id(&self.root.children, monitor_id) {
            None => Err(LayoutError::NotFound),
            Some(i) => {
                proof {
                    lemma_child_ids_distinct(old(self).root);
                    assert(has_child_id(old(self).root, monitor_id));
                    let k0 = child_index_of(old(self).root, monitor_id);
                    assert(old(self).root.children@[k0].id == monitor_id);
                    assert(k0 == i as int);
                    assert(child_kind_ok(
                        old(self).root.spec_container_type(),
                        old(self).root.children@[i as int].spec_container_type(),
                    ));
                }
                let mut c = self.root.children.remove(i);
                let mut kk = ContainerKind::Root;
                core::mem::swap(&mut c.kind, &mut kk);
                match kk {
                    ContainerKind::Monitor(m) => {
                        c.kind = ContainerKind::Monitor(
                            MonitorInfo { device_name: m.device_name, rect },
                        );
                    },
                    other => {
                        c.kind = other;
                    },
                }
                self.root.children.insert(i, c);
                proof {
                    let co = old(self).root;
                    let cn = self.root;
                    let oc = co.children@[i as int];
                    let fc = cn.children@[i as int];
                    assert(cn.children@ =~= co.children@.update(i as int, fc));
                    assert(fc == with_monitor_rect(oc, rect));
                    assert(fc.id_set() =~= oc.id_set());
                    assert(fc.id_set() =~= oc.id_set().union(Set::<u64>::empty()));
                    assert(oc.wf());
                    assert(fc.wf());
                    assert(fc.id_set().subset_of(oc.id_set().union(Set::<u64>::empty())));
                    assert(Set::<u64>::empty().disjoint(co.id_set()));
                    lemma_replace_child_wf(co, cn, i as int, Set::<u64>::empty());
                    lemma_replace_child_ids_add(co, cn, i as int, Set::<u64>::empty());
                    assert(co.id_set().union(Set::<u64>::empty()) =~= co.id_set());
                }
                Ok(())
            },
        }
    }

    /// Moves the focus to the named container.
    pub fn set_focus(&mut self, container_id: u64) -> (res: Result<(), LayoutError>)
        requires
            old(self).wf(),
        ensures
            final(self).wf(),
            final(self).root == old(self).root,
            final(self).next_id == old(self).next_id,
            old(self).root.id_set().contains(container_id) ==> res == Ok::<(), LayoutError>(())
                && final(self).focused_id == Some(container_id),
            !old(self).root.id_set().contains(container_id) ==> res == Err::<(), LayoutError>(
                LayoutError::NotFound,
            ) && final(self).focused_id == old(self).focused_id,
    {
        if contains_id(&self.root, container_id) {
            self.focused_id = Some(container_id);
            Ok(())
        } else {
            Err(LayoutError::NotFound)
        }
    }

    /// A snapshot of the named container: a value copy of the whole
    /// subtree, not a live view — later mutation is never reflected in it.
    pub fn get_container(&self, container_id: u64) -> (res: Result<Container, LayoutError>)
        requires
            self.wf(),
        ensures
            !reaches(self.root, container_id) && !nt_reaches(self.root, container_id) ==> res
                == Err::<Container, LayoutError>(LayoutError::NotFound),
            !reaches(self.root, container_id) && nt_reaches(self.root, container_id) ==> (
            res matches Ok(c) && same_tree(nt_window_of(self.root, container_id), c)),
            reaches(self.root, container_id) ==> (res matches Ok(c) && same_tree(
                node_at(self.root, path_of(self.root, container_id)),
                c,
            )),
    {
        match self.find_path(container_id) {
            None => match find_nt_in(&self.root, container_id) {
                None => Err(LayoutError::NotFound),
                Some((p, k)) => {
                    proof {
                        lemma_nt_found(*self, container_id, p@, k as int);
                        assert(p@.skip(0) =~= p@);
                    }
                    let n = node_ref(&self.root, &p, 0);
                    Ok(clone_subtree(&n.non_tiling_children[k]))
                },
            },
            Some(p) => {
                proof {
                    let p0 = path_of(self.root, container_id);
                    assert(valid_path(self.root, p0) && node_at(self.root, p0).id == container_id);
                    lemma_path_unique(self.root, p@, p0);
                    assert(p@.skip(0) =~= p@);
                }
                Ok(clone_subtree(node_ref(&self.root, &p, 0)))
            },
        }
    }

    /// The parent relation as a snapshot: a value copy of the parent
    /// container, or `None` for the root.
    pub fn parent(&self, container_id: u64) -> (res: Result<Option<Container>, LayoutError>)
        requires
            self.wf(),
        ensures
            !reaches(self.root, container_id) && !nt_reaches(self.root, container_id) ==> res
                == Err::<Option<Container>, LayoutError>(LayoutError::NotFound),
            !reaches(self.root, container_id) && nt_reaches(self.root, container_id) ==> (
            res matches Ok(o) && o matches Some(c) && same_tree(
                node_at(self.root, nt_loc_of(self.root, container_id).0),
                c,
            )),
            reaches(self.root, container_id) && path_of(self.root, container_id).len() == 0
                ==> res == Ok::<Option<Container>, LayoutError>(None),
            reaches(self.root, container_id) && path_of(self.root, container_id).len() > 0 ==> (
            res matches Ok(o) && o matches Some(c) && {
                let p = path_of(self.root, container_id);
                same_tree(node_at(self.root, p.take(p.len() - 1)), c)
            }),
    {
        match self.find_path(container_id) {
            None => match find_nt_in(&self.root, container_id) {
                None => Err(LayoutError::NotFound),
                Some((p, k)) => {
                    proof {
                        lemma_nt_found(*self, container_id, p@, k as int);
                        assert(p@.skip(0) =~= p@);
                    }
                    let n = node_ref(&self.root, &p, 0);
                    Ok(Some(clone_subtree(n)))
                },
            },
            Some(p) => {
                proof {
                    let p0 = path_of(self.root, container_id);
                    assert(valid_path(self.root, p0) && node_at(self.root, p0).id == container_id);
                    lemma_path_unique(self.root, p@, p0);
                }
                if p.len() == 0 {
                    return Ok(None);
                }
                let ghost gp = p@;
                let mut pp = p;
                let _last = pp.pop();
                proof {
                    lemma_path_decompose(self.root, gp);
                    assert(gp.drop_last() =~= gp.take(gp.len() - 1));
                    assert(pp@ =~= gp.take(gp.len() - 1));
                    assert(pp@.skip(0) =~= pp@);
                }
                Ok(Some(clone_subtree(node_ref(&self.root, &pp, 0))))
            },
        }
    }

    /// The identifier of the named container's parent, `None` for the
    /// root.
    pub fn parent_id(&self, container_id: u64) -> (res: Result<Option<u64>, LayoutError>)
        requires
            self.wf(),
        ensures
            !reaches(self.root, container_id) && !nt_reaches(self.root, container_id) ==> res
                == Err::<Option<u64>, LayoutError>(LayoutError::NotFound),
            !reaches(self.root, container_id) && nt_reaches(self.root, container_id) ==> res
                == Ok::<Option<u64>, LayoutError>(
                Some(node_at(self.root, nt_loc_of(self.root, container_id).0).id),
            ),
            reaches(self.root, container_id) && path_of(self.root, container_id).len() == 0
                ==> res == Ok::<Option<u64>, LayoutError>(None),
            reaches(self.root, container_id) && path_of(self.root, container_id).len() > 0 ==> ({
                let p = path_of(self.root, container_id);
                res == Ok::<Option<u64>, LayoutError>(
                    Some(node_at(self.root, p.take(p.len() - 1)).id),
                )
            }),
    {
        match self.parent(container_id) {
            Ok(Some(c)) => {
                proof {
                    if reaches(self.root, container_id) {
                        let p = path_of(self.root, container_id);
                        lemma_same_tree(node_at(self.root, p.take(p.len() - 1)), c);
                    } else {
                        lemma_same_tree(
                            node_at(self.root, nt_loc_of(self.root, container_id).0),
                            c,
                        );
                    }
                }
                Ok(Some(c.id))
            },
            Ok(None) => Ok(None),
            Err(e) => Err(e),
        }
    }

    /// Snapshots of the named container's direct tiling children, in
    /// child order: value copies, not live views.
    pub fn children_of(&self, container_id: u64) -> (res: Result<Vec<Container>, LayoutError>)
        requires
            self.wf(),
        ensures
            !reaches(self.root, container_id) && !nt_reaches(self.root, container_id) ==> res
                == Err::<Vec<Container>, LayoutError>(LayoutError::NotFound),
            !reaches(self.root, container_id) && nt_reaches(self.root, container_id) ==> (
            res matches Ok(v) && v@.len() == 0),
            reaches(self.root, container_id) ==> (res matches Ok(v) && {
                let n = node_at(self.root, path_of(self.root, container_id));
                v@.len() == n.children@.len() && forall|j: int|
                    0 <= j < v@.len() ==> same_tree(n.children@[j], #[trigger] v@[j])
            }),
    {
        match self.find_path(container_id) {
            None => match find_nt_in(&self.root, container_id) {
                None => Err(LayoutError::NotFound),
                Some((p, k)) => {
                    proof {
                        lemma_nt_found(*self, container_id, p@, k as int);
                    }
                    let v: Vec<Container> = Vec::new();
                    Ok(v)
                },
            },
            Some(p) => {
                proof {
                    let p0 = path_of(self.root, container_id);
                    assert(valid_path(self.root, p0) && node_at(self.root, p0).id == container_id);
                    lemma_path_unique(self.root, p@, p0);
                    assert(p@.skip(0) =~= p@);
                }
                let n = node_ref(&self.root, &p, 0);
                let mut out: Vec<Container> = Vec::new();
                let mut i: usize = 0;
                while i < n.children.len()
                    invariant
                        0 <= i <= n.children@.len(),
                        out@.len() == i,
                        forall|j: int| 0 <= j < i ==> same_tree(
                            n.children@[j],
                            #[trigger] out@[j],
                        ),
                    decreases n.children@.len() - i,
                {
                    let ch = clone_subtree(&n.children[i]);
                    out.push(ch);
                    i = i + 1;
                }
                Ok(out)
            },
        }
    }

    /// The kind tag of the named container.
    pub fn container_type_of(&self, container_id: u64) -> (res: Result<ContainerType, LayoutError>)
        requires
            self.wf(),
        ensures
            !reaches(self.root, container_id) && !nt_reaches(self.root, container_id) ==> res
                == Err::<ContainerType, LayoutError>(LayoutError::NotFound),
            !reaches(self.root, container_id) && nt_reaches(self.root, container_id) ==> res
                == Ok::<ContainerType, LayoutError>(
                nt_window_of(self.root, container_id).spec_container_type(),
            ),
            reaches(self.root, container_id) ==> res == Ok::<ContainerType, LayoutError>(
                node_at(self.root, path_of(self.root, container_id)).spec_container_type(),
            ),
    {
        match self.find_path(container_id) {
            None => match find_nt_in(&self.root, container_id) {
                None => Err(LayoutError::NotFound),
                Some((p, k)) => {
                    proof {
                        lemma_nt_found(*self, container_id, p@, k as int);
                        assert(p@.skip(0) =~= p@);
                    }
                    let n = node_ref(&self.root, &p, 0);
                    Ok(n.non_tiling_children[k].container_type())
                },
            },
            Some(p) => {
                proof {
                    let p0 = path_of(self.root, container_id);
                    assert(valid_path(self.root, p0) && node_at(self.root, p0).id == container_id);
                    lemma_path_unique(self.root, p@, p0);
                    assert(p@.skip(0) =~= p@);
                }
                Ok(node_ref(&self.root, &p, 0).container_type())
            },
        }
    }
}

} // verus!
