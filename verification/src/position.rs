//! Derived pixel geometry: the absolute rectangle of any container,
//! computed on demand from the ancestor chain and never cached.
//!
//! A monitor reports its native rectangle. A workspace reports the
//! monitor's rectangle shrunk by its outer gaps (clamped at zero extent
//! when the gaps exceed the monitor). A tiling child occupies the span of
//! its parent between two share boundaries: pixel boundary `k` of a parent
//! of extent `E` lies at `E * k / TOTAL_UNITS`, where `k` is the running
//! sum of the preceding siblings' shares, so siblings tile the parent
//! exactly, each within a pixel of its nominal share.

use vstd::prelude::*;
use crate::container::{Container, ContainerKind, sizes_of};
use crate::errors::LayoutError;
use crate::fractions::{sum_units, lemma_sum_take_bounds};
use crate::geometry::{Rect, RectDelta, TilingDirection, MAX_PIXELS, TOTAL_UNITS};
use crate::tree::{
    Tree, valid_path, node_at, reaches, path_of, lemma_path_unique, node_ref, find_nt_in,
    lemma_nt_found, lemma_node_at_wf, nt_reaches, nt_window_of,
};

verus! {

/// The tiling axis a container arranges its children along.
pub open spec fn spec_direction_of(c: Container) -> TilingDirection {
    match c.kind {
        ContainerKind::Workspace(w) => w.config.tiling_direction,
        ContainerKind::Split(s) => s.tiling_direction,
        _ => TilingDirection::Horizontal,
    }
}

/// Pixel boundary `units` of a span of `extent` pixels.
pub open spec fn boundary(extent: int, units: int) -> int {
    extent * units / (TOTAL_UNITS as int)
}

/// A workspace's rectangle: the monitor's, shrunk by the resolved outer
/// gaps, extents clamped at zero.
pub open spec fn workspace_rect(mon: Rect, gaps: RectDelta) -> Rect {
    let l = gaps.left.spec_to_pixels(mon.width as int);
    let r = gaps.right.spec_to_pixels(mon.width as int);
    let t = gaps.top.spec_to_pixels(mon.height as int);
    let b = gaps.bottom.spec_to_pixels(mon.height as int);
    Rect {
        x: (mon.x + l) as i32,
        y: (mon.y + t) as i32,
        width: (if mon.width - l - r >= 0 {
            mon.width - l - r
        } else {
            0
        }) as i32,
        height: (if mon.height - t - b >= 0 {
            mon.height - t - b
        } else {
            0
        }) as i32,
    }
}

/// The rectangle of the tiling child whose preceding siblings' shares sum
/// to `prefix` and whose own share is `units`, inside `parent` along `dir`.
pub open spec fn tiling_child_rect(parent: Rect, dir: TilingDirection, prefix: int, units: int) -> Rect {
    match dir {
        TilingDirection::Horizontal => (Rect {
            x: (parent.x + boundary(parent.width as int, prefix)) as i32,
            y: parent.y,
            width: (boundary(parent.width as int, prefix + units) - boundary(
                parent.width as int,
                prefix,
            )) as i32,
            height: parent.height,
        }),
        TilingDirection::Vertical => (Rect {
            x: parent.x,
            y: (parent.y + boundary(parent.height as int, prefix)) as i32,
            width: parent.width,
            height: (boundary(parent.height as int, prefix + units) - boundary(
                parent.height as int,
                prefix,
            )) as i32,
        }),
    }
}

/// The rectangle of child `i` of `parent`, whose own rectangle is
/// `parent_rect` (unused for monitors, which carry their native one).
pub open spec fn child_rect(parent: Container, parent_rect: Rect, i: int) -> Rect {
    let ch = parent.children[i];
    match ch.kind {
        ContainerKind::Monitor(m) => m.rect,
        ContainerKind::Workspace(w) => workspace_rect(parent_rect, w.outer_gaps),
        ContainerKind::NonTilingWindow(w) => w.stored_rect,
        _ => tiling_child_rect(
            parent_rect,
            spec_direction_of(parent),
            sum_units(sizes_of(parent.children@.take(i))),
            ch.size_units as int,
        ),
    }
}

/// The rectangle reached by folding `child_rect` down a path.
pub open spec fn rect_along(c: Container, r: Rect, p: Seq<usize>) -> Rect
    decreases p.len(),
{
    if p.len() == 0 {
        r
    } else {
        rect_along(c.children[p[0] as int], child_rect(c, r, p[0] as int), p.drop_first())
    }
}

/// The derived rectangle of the node at a non-empty path under the root.
/// (The fold's seed is irrelevant: the first step lands on a monitor.)
pub open spec fn spec_geometry(root: Container, p: Seq<usize>) -> Rect {
    rect_along(root, Rect { x: 0, y: 0, width: 0, height: 0 }, p)
}

/// Bounds every intermediate rectangle of the fold obeys.
pub open spec fn geo_bounded(r: Rect) -> bool {
    &&& -2 * MAX_PIXELS <= r.x <= 3 * MAX_PIXELS
    &&& -2 * MAX_PIXELS <= r.y <= 3 * MAX_PIXELS
    &&& 0 <= r.width <= MAX_PIXELS
    &&& 0 <= r.height <= MAX_PIXELS
    &&& -2 * MAX_PIXELS <= r.x + r.width <= 3 * MAX_PIXELS
    &&& -2 * MAX_PIXELS <= r.y + r.height <= 3 * MAX_PIXELS
}

/// What the fold's running rectangle must satisfy at node `c`.
pub open spec fn cur_ok(c: Container, r: Rect) -> bool {
    match c.kind {
        ContainerKind::Root => true,
        ContainerKind::Monitor(m) => r == m.rect,
        _ => geo_bounded(r),
    }
}

/// A boundary lies between zero and the extent, and grows with the units.
proof fn lemma_boundary(extent: int, u1: int, u2: int)
    requires
        0 <= extent <= MAX_PIXELS,
        0 <= u1 <= u2 <= TOTAL_UNITS,
    ensures
        0 <= boundary(extent, u1) <= boundary(extent, u2) <= extent,
{
    assert(0 <= extent * u1) by (nonlinear_arith)
        requires 0 <= extent, 0 <= u1;
    assert(extent * u1 <= extent * u2) by (nonlinear_arith)
        requires 0 <= extent, u1 <= u2;
    assert(extent * u2 <= extent * (TOTAL_UNITS as int)) by (nonlinear_arith)
        requires 0 <= extent, u2 <= TOTAL_UNITS;
    vstd::arithmetic::div_mod::lemma_div_pos_is_pos(extent * u1, TOTAL_UNITS as int);
    vstd::arithmetic::div_mod::lemma_div_is_ordered(extent * u1, extent * u2, TOTAL_UNITS as int);
    vstd::arithmetic::div_mod::lemma_div_is_ordered(
        extent * u2,
        extent * (TOTAL_UNITS as int),
        TOTAL_UNITS as int,
    );
    vstd::arithmetic::div_mod::lemma_div_multiples_vanish(extent, TOTAL_UNITS as int);
}

/// Computes one boundary in pixels.
fn boundary_px(extent: i32, units: u32) -> (r: i32)
    requires
        0 <= extent <= MAX_PIXELS,
        units <= TOTAL_UNITS,
    ensures
        r as int == boundary(extent as int, units as int),
        0 <= r <= extent,
{
    proof {
        lemma_boundary(extent as int, units as int, units as int);
    }
    ((extent as u64) * (units as u64) / (TOTAL_UNITS as u64)) as i32
}

/// The running sum of the first `i` children's shares.
fn prefix_units(c: &Container, i: usize) -> (r: u32)
    requires
        c.wf(),
        c.is_fraction_parent(),
        i <= c.children.len(),
        c.children.len() > 0,
    ensures
        r == sum_units(sizes_of(c.children@).take(i as int)),
        r <= TOTAL_UNITS,
{
    proof {
        assert(forall|j: int|
            0 <= j < c.children@.len() ==> (#[trigger] c.children@[j]).wf());
        assert(forall|j: int|
            0 <= j < sizes_of(c.children@).len() ==> #[trigger] sizes_of(c.children@)[j]
                == c.children@[j].size_units);
    }
    let mut acc: u32 = 0;
    let mut j: usize = 0;
    while j < i
        invariant
            0 <= j <= i <= c.children@.len(),
            c.wf(),
            c.is_fraction_parent(),
            c.children@.len() > 0,
            acc == sum_units(sizes_of(c.children@).take(j as int)),
            acc <= TOTAL_UNITS,
        decreases i - j,
    {
        proof {
            let sz = sizes_of(c.children@);
            assert(sz.take(j + 1) =~= sz.take(j as int).push(sz[j as int]));
            crate::fractions::lemma_sum_push(sz.take(j as int), sz[j as int]);
            lemma_sum_take_bounds(sz, j + 1);
            assert(sz[j as int] == c.children@[j as int].size_units);
        }
        acc = acc + c.children[j].size_units;
        j = j + 1;
    }
    acc
}

/// Folds `child_rect` down the remaining path.
#[verifier::rlimit(60)]
#[verifier::spinoff_prover]
fn geometry_rec(c: &Container, cur: Rect, path: &Vec<usize>, d: usize) -> (r: Rect)
    requires
        c.wf(),
        cur_ok(*c, cur),
        d <= path@.len(),
        valid_path(*c, path@.skip(d as int)),
    ensures
        r == rect_along(*c, cur, path@.skip(d as int)),
    decreases path@.len() - d,
{
    if d == path.len() {
        proof {
            assert(path@.skip(d as int) =~= Seq::<usize>::empty());
        }
        cur
    } else {
        let i = path[d];
        proof {
            let sp = path@.skip(d as int);
            assert(sp[0] == path@[d as int]);
            assert(sp.drop_first() =~= path@.skip(d as int + 1));
            assert(c.children@[i as int].wf());
        }
        let ch_t = c.children[i].container_type();
        let next: Rect = if ch_t == crate::container::ContainerType::Monitor {
            let m = match &c.children[i].kind {
                ContainerKind::Monitor(m) => m.rect,
                _ => cur,
            };
            m
        } else if ch_t == crate::container::ContainerType::Workspace {
            let gaps = match &c.children[i].kind {
                ContainerKind::Workspace(w) => w.outer_gaps,
                _ => RectDelta::zero(),
            };
            let l = gaps.left.to_pixels(cur.width);
            let rr = gaps.right.to_pixels(cur.width);
            let t = gaps.top.to_pixels(cur.height);
            let b = gaps.bottom.to_pixels(cur.height);
            let w0: i32 = cur.width - l - rr;
            let h0: i32 = cur.height - t - b;
            Rect {
                x: cur.x + l,
                y: cur.y + t,
                width: if w0 >= 0 {
                    w0
                } else {
                    0
                },
                height: if h0 >= 0 {
                    h0
                } else {
                    0
                },
            }
        } else {
            let dir = match &c.kind {
                ContainerKind::Workspace(w) => w.config.tiling_direction,
                ContainerKind::Split(s) => s.tiling_direction,
                _ => TilingDirection::Horizontal,
            };
            proof {
                let sz = sizes_of(c.children@);
                assert(sz.take(c.children@.len() as int) =~= sz);
                lemma_sum_take_bounds(sz, i as int);
                lemma_sum_take_bounds(sz, i + 1);
                assert(sz.take(i + 1) =~= sz.take(i as int).push(sz[i as int]));
                crate::fractions::lemma_sum_push(sz.take(i as int), sz[i as int]);
                assert(sz[i as int] == c.children@[i as int].size_units);
                assert(sizes_of(c.children@.take(i as int)) =~= sz.take(i as int));
            }
            let prefix = prefix_units(c, i);
            let units = c.children[i].size_units;
            match dir {
                TilingDirection::Horizontal => {
                    let b0 = boundary_px(cur.width, prefix);
                    let b1 = boundary_px(cur.width, prefix + units);
                    proof {
                        lemma_boundary(cur.width as int, prefix as int, prefix as int + units);
                    }
                    Rect { x: cur.x + b0, y: cur.y, width: b1 - b0, height: cur.height }
                },
                TilingDirection::Vertical => {
                    let b0 = boundary_px(cur.height, prefix);
                    let b1 = boundary_px(cur.height, prefix + units);
                    proof {
                        lemma_boundary(cur.height as int, prefix as int, prefix as int + units);
                    }
                    Rect { x: cur.x, y: cur.y + b0, width: cur.width, height: b1 - b0 }
                },
            }
        };
        proof {
            assert(next == child_rect(*c, cur, i as int));
            assert(cur_ok(c.children@[i as int], next));
        }
        geometry_rec(&c.children[i], next, path, d + 1)
    }
}

/// The absolute geometry a window reports on its own: its stored
/// rectangle (a monitor's native one stands in for monitors).
pub open spec fn spec_stored_rect(c: Container) -> Rect {
    match c.kind {
        ContainerKind::NonTilingWindow(w) => w.stored_rect,
        ContainerKind::TilingWindow(w) => w.stored_rect,
        ContainerKind::Monitor(m) => m.rect,
        _ => (Rect { x: 0, y: 0, width: 0, height: 0 }),
    }
}

impl Tree {
    /// The absolute pixel rectangle of the named container, derived on
    /// demand from its ancestor chain. The root has none. A non-tiling
    /// window ignores the fraction-based derivation entirely and reports
    /// its own stored absolute geometry.
    pub fn geometry(&self, id: u64) -> (res: Result<Rect, LayoutError>)
        requires
            self.wf(),
        ensures
            !reaches(self.root, id) && !nt_reaches(self.root, id) ==> res == Err::<
                Rect,
                LayoutError,
            >(LayoutError::NotFound),
            !reaches(self.root, id) && nt_reaches(self.root, id) ==> res == Ok::<
                Rect,
                LayoutError,
            >(spec_stored_rect(nt_window_of(self.root, id))),
            reaches(self.root, id) && path_of(self.root, id).len() == 0 ==> res == Err::<
                Rect,
                LayoutError,
            >(LayoutError::RootHasNoGeometry),
            reaches(self.root, id) && path_of(self.root, id).len() > 0 ==> res == Ok::<
                Rect,
                LayoutError,
            >(spec_geometry(self.root, path_of(self.root, id))),
    {
        match self.find_path(id) {
            None => match find_nt_in(&self.root, id) {
                None => Err(LayoutError::NotFound),
                Some((p, k)) => {
                    proof {
                        lemma_nt_found(*self, id, p@, k as int);
                        lemma_node_at_wf(self.root, p@);
                        assert(p@.skip(0) =~= p@);
                    }
                    let n = node_ref(&self.root, &p, 0);
                    match &n.non_tiling_children[k].kind {
                        ContainerKind::NonTilingWindow(w) => Ok(w.stored_rect),
                        _ => Err(LayoutError::NotFound),
                    }
                },
            },
            Some(p) => {
                proof {
                    let p0 = path_of(self.root, id);
                    assert(valid_path(self.root, p0) && node_at(self.root, p0).id == id);
                    lemma_path_unique(self.root, p@, p0);
                    assert(p@.skip(0) =~= p@);
                }
                if p.len() == 0 {
                    return Err(LayoutError::RootHasNoGeometry);
                }
                let seed = Rect { x: 0, y: 0, width: 0, height: 0 };
                let r = geometry_rec(&self.root, seed, &p, 0);
                Ok(r)
            },
        }
    }
}

} // verus!
