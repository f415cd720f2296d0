//! Traversal producers over the container tree: ancestors, self-and-
//! ancestors, siblings, tiling siblings, descendants and self-and-
//! descendants.
//!
//! Each producer captures a snapshot of identifiers at construction and
//! then hands them out lazily; a fresh call starts a fresh traversal, and
//! later tree mutation is never reflected in an already-built producer.

use vstd::prelude::*;
use crate::container::{
    Container, lemma_id_in_own_set, lemma_seq_id_sets_elem, lemma_seq_id_sets_member, seq_id_sets,
};
use crate::errors::LayoutError;
use crate::tree::{
    Tree, valid_path, node_at, reaches, path_of, lemma_path_unique, lemma_node_at_wf,
    lemma_path_decompose, node_ref, find_nt_in, lemma_nt_found, nt_reaches, nt_loc_of,
};

verus! {

/// The identifiers of a child sequence, in order.
pub open spec fn child_ids(s: Seq<Container>) -> Seq<u64> {
    s.map_values(|c: Container| c.id)
}

/// The pre-order identifier sequence of a subtree: the node itself, then
/// each child's subtree in child order.
pub open spec fn preorder_ids(c: Container) -> Seq<u64>
    decreases c,
{
    seq![c.id] + seq_preorder(c.children@)
}

/// Pre-order identifiers of a forest, left to right.
pub open spec fn seq_preorder(s: Seq<Container>) -> Seq<u64>
    decreases s,
{
    if s.len() == 0 {
        Seq::empty()
    } else {
        preorder_ids(s[0]) + seq_preorder(s.drop_first())
    }
}

/// Appending one tree to a forest appends its pre-order block.
pub proof fn lemma_seq_preorder_push(s: Seq<Container>, x: Container)
    ensures
        seq_preorder(s.push(x)) == seq_preorder(s) + preorder_ids(x),
    decreases s.len(),
{
    let t = s.push(x);
    assert(seq_preorder(t) == preorder_ids(t[0]) + seq_preorder(t.drop_first()));
    if s.len() == 0 {
        assert(t[0] == x);
        assert(t.drop_first() =~= Seq::<Container>::empty());
        assert(seq_preorder(Seq::<Container>::empty()) == Seq::<u64>::empty());
        assert(seq_preorder(t) =~= seq_preorder(s) + preorder_ids(x));
    } else {
        assert(t[0] == s[0]);
        assert(t.drop_first() =~= s.drop_first().push(x));
        lemma_seq_preorder_push(s.drop_first(), x);
        assert(seq_preorder(s) == preorder_ids(s[0]) + seq_preorder(s.drop_first()));
        assert(seq_preorder(t) =~= seq_preorder(s) + preorder_ids(x));
    }
}

/// The identifiers of the nodes along a path, root end first, target last.
pub open spec fn path_ids(c: Container, p: Seq<usize>) -> Seq<u64>
    decreases p.len(),
{
    if p.len() == 0 {
        seq![c.id]
    } else {
        seq![c.id] + path_ids(c.children[p[0] as int], p.drop_first())
    }
}

pub proof fn lemma_path_ids_len(c: Container, p: Seq<usize>)
    ensures
        path_ids(c, p).len() == p.len() + 1,
    decreases p.len(),
{
    if p.len() > 0 {
        lemma_path_ids_len(c.children[p[0] as int], p.drop_first());
    }
}

/// Each entry of `path_ids` is the identifier of the node at that prefix.
pub proof fn lemma_path_ids_index(c: Container, p: Seq<usize>, k: int)
    requires
        valid_path(c, p),
        0 <= k <= p.len(),
    ensures
        path_ids(c, p).len() == p.len() + 1,
        path_ids(c, p)[k] == node_at(c, p.take(k)).id,
    decreases p.len(),
{
    lemma_path_ids_len(c, p);
    if k == 0 {
        assert(p.take(0) =~= Seq::<usize>::empty());
    } else {
        lemma_path_ids_index(c.children[p[0] as int], p.drop_first(), k - 1);
        assert(p.take(k)[0] == p[0]);
        assert(p.take(k).drop_first() =~= p.drop_first().take(k - 1));
        lemma_path_ids_len(c.children[p[0] as int], p.drop_first());
    }
}

/// The strict ancestors of the node at `p`, nearest first, without the
/// root itself.
pub open spec fn ancestors_ids(c: Container, p: Seq<usize>) -> Seq<u64> {
    if p.len() == 0 {
        Seq::empty()
    } else {
        Seq::new((p.len() - 1) as nat, |k: int| path_ids(c, p)[p.len() - 1 - k])
    }
}

/// The node itself first, then exactly the elements of `ancestors_ids`
/// in the same order: its strict ancestors, nearest first, ending before
/// the root. (The root's own sequence is just the root itself.)
pub open spec fn self_and_ancestors_ids(c: Container, p: Seq<usize>) -> Seq<u64> {
    if p.len() == 0 {
        seq![c.id]
    } else {
        Seq::new(p.len() as nat, |k: int| path_ids(c, p)[p.len() - k])
    }
}

/// The strict ancestors of a non-tiling window held by the workspace at
/// `p`: the workspace first, then its ancestors, without the root.
pub open spec fn nt_ancestors_ids(c: Container, p: Seq<usize>) -> Seq<u64> {
    Seq::new(p.len() as nat, |k: int| path_ids(c, p)[p.len() - k])
}

/// A non-tiling window itself, then exactly its ancestors: the owning
/// workspace first, then the chain above it, ending before the root.
pub open spec fn nt_self_and_ancestors_ids(c: Container, p: Seq<usize>, id: u64) -> Seq<u64> {
    Seq::new(
        (p.len() + 1) as nat,
        |k: int|
            if k == 0 {
                id
            } else {
                path_ids(c, p)[p.len() + 1 - k]
            },
    )
}

/// The identifiers of the node's siblings, in child order, the node
/// itself excluded; empty for the root.
pub open spec fn siblings_ids(c: Container, p: Seq<usize>) -> Seq<u64> {
    if p.len() == 0 {
        Seq::empty()
    } else {
        child_ids(node_at(c, p.take(p.len() - 1)).children@).remove(p.last() as int)
    }
}

/// The identifiers of the tiling-capable members of a child sequence.
pub open spec fn tiling_ids(s: Seq<Container>) -> Seq<u64>
    decreases s.len(),
{
    if s.len() == 0 {
        Seq::empty()
    } else {
        (if s[0].is_tiling_kind() {
            seq![s[0].id]
        } else {
            Seq::empty()
        }) + tiling_ids(s.drop_first())
    }
}

pub proof fn lemma_tiling_ids_push(s: Seq<Container>, x: Container)
    ensures
        tiling_ids(s.push(x)) == tiling_ids(s) + (if x.is_tiling_kind() {
            seq![x.id]
        } else {
            Seq::empty()
        }),
    decreases s.len(),
{
    let t = s.push(x);
    assert(tiling_ids(t) == (if t[0].is_tiling_kind() {
        seq![t[0].id]
    } else {
        Seq::empty()
    }) + tiling_ids(t.drop_first()));
    if s.len() == 0 {
        assert(t[0] == x);
        assert(t.drop_first() =~= Seq::<Container>::empty());
        assert(tiling_ids(Seq::<Container>::empty()) == Seq::<u64>::empty());
        assert(tiling_ids(t) =~= tiling_ids(s) + (if x.is_tiling_kind() {
            seq![x.id]
        } else {
            Seq::empty()
        }));
    } else {
        assert(t[0] == s[0]);
        assert(t.drop_first() =~= s.drop_first().push(x));
        lemma_tiling_ids_push(s.drop_first(), x);
        assert(tiling_ids(s) == (if s[0].is_tiling_kind() {
            seq![s[0].id]
        } else {
            Seq::empty()
        }) + tiling_ids(s.drop_first()));
        assert(tiling_ids(t) =~= tiling_ids(s) + (if x.is_tiling_kind() {
            seq![x.id]
        } else {
            Seq::empty()
        }));
    }
}

/// Collects the pre-order identifiers of a subtree onto `out`.
fn collect_preorder(c: &Container, out: &mut Vec<u64>)
    ensures
        final(out)@ == old(out)@ + preorder_ids(*c),
    decreases *c,
{
    out.push(c.id);
    let ghost base = out@;
    let mut i: usize = 0;
    while i < c.children.len()
        invariant
            0 <= i <= c.children.len(),
            out@ == base + seq_preorder(c.children@.take(i as int)),
        decreases c.children.len() - i,
    {
        collect_preorder(&c.children[i], out);
        proof {
            assert(c.children@.take(i + 1) =~= c.children@.take(i as int).push(
                c.children@[i as int],
            ));
            lemma_seq_preorder_push(c.children@.take(i as int), c.children@[i as int]);
            assert(base + seq_preorder(c.children@.take(i as int)) + preorder_ids(
                c.children@[i as int],
            ) =~= base + seq_preorder(c.children@.take(i + 1)));
        }
        i = i + 1;
    }
    proof {
        assert(c.children@.take(c.children@.len() as int) =~= c.children@);
        assert(old(out)@ + seq![c.id] + seq_preorder(c.children@) =~= old(out)@ + preorder_ids(
            *c,
        ));
    }
}

/// An iterator over identifiers of ancestors of a given container.
pub struct Ancestors {
    pub items: Vec<u64>,
    pub pos: usize,
}

/// An iterator over identifiers of itself and ancestors of a given
/// container: the node first, then exactly what `Ancestors` yields.
pub struct SelfAndAncestors {
    pub items: Vec<u64>,
    pub pos: usize,
}

/// An iterator over identifiers of siblings of a given container.
pub struct Siblings {
    pub items: Vec<u64>,
    pub pos: usize,
}

/// An iterator over identifiers of descendants of a given container.
pub struct Descendants {
    pub items: Vec<u64>,
    pub pos: usize,
}

impl Ancestors {
    /// What is still to be yielded.
    pub open spec fn remaining(self) -> Seq<u64> {
        self.items@.skip(self.pos as int)
    }

    /// The next identifier, nearest ancestor first.
    pub fn next(&mut self) -> (r: Option<u64>)
        requires
            old(self).pos <= old(self).items@.len(),
        ensures
            final(self).items == old(self).items,
            old(self).remaining().len() == 0 ==> r is None && final(self).pos == old(self).pos,
            old(self).remaining().len() > 0 ==> r == Some(old(self).remaining()[0])
                && final(self).pos == old(self).pos + 1
                && final(self).remaining() == old(self).remaining().drop_first(),
    {
        if self.pos < self.items.len() {
            let v = self.items[self.pos];
            self.pos = self.pos + 1;
            proof {
                assert(final(self).remaining() =~= old(self).remaining().drop_first());
            }
            Some(v)
        } else {
            None
        }
    }
}

impl SelfAndAncestors {
    /// What is still to be yielded.
    pub open spec fn remaining(self) -> Seq<u64> {
        self.items@.skip(self.pos as int)
    }

    /// The next identifier, the node itself first, then its strict
    /// ancestors nearest first.
    pub fn next(&mut self) -> (r: Option<u64>)
        requires
            old(self).pos <= old(self).items@.len(),
        ensures
            final(self).items == old(self).items,
            old(self).remaining().len() == 0 ==> r is None && final(self).pos == old(self).pos,
            old(self).remaining().len() > 0 ==> r == Some(old(self).remaining()[0])
                && final(self).pos == old(self).pos + 1
                && final(self).remaining() == old(self).remaining().drop_first(),
    {
        if self.pos < self.items.len() {
            let v = self.items[self.pos];
            self.pos = self.pos + 1;
            proof {
                assert(final(self).remaining() =~= old(self).remaining().drop_first());
            }
            Some(v)
        } else {
            None
        }
    }
}

impl Siblings {
    /// What is still to be yielded.
    pub open spec fn remaining(self) -> Seq<u64> {
        self.items@.skip(self.pos as int)
    }

    /// The next sibling identifier, in child order.
    pub fn next(&mut self) -> (r: Option<u64>)
        requires
            old(self).pos <= old(self).items@.len(),
        ensures
            final(self).items == old(self).items,
            old(self).remaining().len() == 0 ==> r is None && final(self).pos == old(self).pos,
            old(self).remaining().len() > 0 ==> r == Some(old(self).remaining()[0])
                && final(self).pos == old(self).pos + 1
                && final(self).remaining() == old(self).remaining().drop_first(),
    {
        if self.pos < self.items.len() {
            let v = self.items[self.pos];
            self.pos = self.pos + 1;
            proof {
                assert(final(self).remaining() =~= old(self).remaining().drop_first());
            }
            Some(v)
        } else {
            None
        }
    }
}

impl Descendants {
    /// What is still to be yielded.
    pub open spec fn remaining(self) -> Seq<u64> {
        self.items@.skip(self.pos as int)
    }

    /// The next identifier, in pre-order.
    pub fn next(&mut self) -> (r: Option<u64>)
        requires
            old(self).pos <= old(self).items@.len(),
        ensures
            final(self).items == old(self).items,
            old(self).remaining().len() == 0 ==> r is None && final(self).pos == old(self).pos,
            old(self).remaining().len() > 0 ==> r == Some(old(self).remaining()[0])
                && final(self).pos == old(self).pos + 1
                && final(self).remaining() == old(self).remaining().drop_first(),
    {
        if self.pos < self.items.len() {
            let v = self.items[self.pos];
            self.pos = self.pos + 1;
            proof {
                assert(final(self).remaining() =~= old(self).remaining().drop_first());
            }
            Some(v)
        } else {
            None
        }
    }
}

/// Collects the identifiers of the nodes along a path suffix, this node
/// first.
fn collect_path_rec(c: &Container, path: &Vec<usize>, d: usize, out: &mut Vec<u64>)
    requires
        d <= path@.len(),
        valid_path(*c, path@.skip(d as int)),
    ensures
        final(out)@ == old(out)@ + path_ids(*c, path@.skip(d as int)),
    decreases path@.len() - d,
{
    out.push(c.id);
    if d < path.len() {
        let i = path[d];
        proof {
            let sp = path@.skip(d as int);
            assert(sp[0] == path@[d as int]);
            assert(sp.drop_first() =~= path@.skip(d as int + 1));
        }
        collect_path_rec(&c.children[i], path, d + 1, out);
        proof {
            let sp = path@.skip(d as int);
            assert(old(out)@ + seq![c.id] + path_ids(c.children@[i as int], sp.drop_first())
                =~= old(out)@ + path_ids(*c, sp));
        }
    } else {
        proof {
            assert(path@.skip(d as int) =~= Seq::<usize>::empty());
            assert(old(out)@ + seq![c.id] =~= old(out)@ + path_ids(*c, path@.skip(d as int)));
        }
    }
}

impl Tree {
    /// Collects the node identifiers along the path from the root to the
    /// named node, root first.
    fn collect_path_ids(&self, path: &Vec<usize>) -> (r: Vec<u64>)
        requires
            valid_path(self.root, path@),
        ensures
            r@ == path_ids(self.root, path@),
            r@.len() == path@.len() + 1,
    {
        let mut r: Vec<u64> = Vec::new();
        proof {
            assert(path@.skip(0) =~= path@);
            lemma_path_ids_len(self.root, path@);
        }
        collect_path_rec(&self.root, path, 0, &mut r);
        r
    }

    /// A fresh traversal over the named node's strict ancestors, nearest
    /// first, ending before the root.
    pub fn ancestors(&self, id: u64) -> (res: Result<Ancestors, LayoutError>)
        requires
            self.wf(),
        ensures
            !reaches(self.root, id) && !nt_reaches(self.root, id) ==> res is Err,
            !reaches(self.root, id) && nt_reaches(self.root, id) ==> (res matches Ok(a) && a.pos
                == 0 && a.items@ == nt_ancestors_ids(self.root, nt_loc_of(self.root, id).0)),
            reaches(self.root, id) ==> (res matches Ok(a) && a.pos == 0 && a.items@
                == ancestors_ids(self.root, path_of(self.root, id)) && a.remaining() == a.items@),
    {
        match self.find_path(id) {
            None => match find_nt_in(&self.root, id) {
                None => Err(LayoutError::NotFound),
                Some((p, k)) => {
                    proof {
                        lemma_nt_found(*self, id, p@, k as int);
                    }
                    let ids = self.collect_path_ids(&p);
                    let mut items: Vec<u64> = Vec::new();
                    let mut kk: usize = ids.len();
                    while kk > 1
                        invariant
                            1 <= kk <= ids@.len(),
                            ids@.len() == p@.len() + 1,
                            items@.len() == ids@.len() - kk,
                            forall|j: int| 0 <= j < items@.len() ==> items@[j] == ids@[ids@.len()
                                - 1 - j],
                        decreases kk,
                    {
                        items.push(ids[kk - 1]);
                        kk = kk - 1;
                    }
                    proof {
                        assert(items@ =~= nt_ancestors_ids(self.root, p@));
                    }
                    return Ok(Ancestors { items, pos: 0 });
                },
            },
            Some(p) => {
                proof {
                    self.lemma_found_path(id, p@);
                }
                let ids = self.collect_path_ids(&p);
                let mut items: Vec<u64> = Vec::new();
                if p.len() > 0 {
                    let mut k: usize = ids.len() - 1;
                    while k > 1
                        invariant
                            1 <= k <= ids@.len() - 1,
                            ids@.len() == p@.len() + 1,
                            p@.len() > 0,
                            items@.len() == ids@.len() - 1 - k,
                            forall|j: int| 0 <= j < items@.len() ==> items@[j] == ids@[ids@.len()
                                - 2 - j],
                        decreases k,
                    {
                        items.push(ids[k - 1]);
                        k = k - 1;
                    }
                }
                proof {
                    assert(items@ =~= ancestors_ids(self.root, p@));
                }
                Ok(Ancestors { items, pos: 0 })
            },
        }
    }

    /// A fresh traversal over the named node itself followed by exactly
    /// its strict ancestors in `ancestors()` order — one element more
    /// than the node's ancestor count, and never the root (the root's
    /// own traversal is just the root itself).
    pub fn self_and_ancestors(&self, id: u64) -> (res: Result<SelfAndAncestors, LayoutError>)
        requires
            self.wf(),
        ensures
            !reaches(self.root, id) && !nt_reaches(self.root, id) ==> res is Err,
            !reaches(self.root, id) && nt_reaches(self.root, id) ==> (res matches Ok(a) && a.pos
                == 0 && a.items@ == nt_self_and_ancestors_ids(
                self.root,
                nt_loc_of(self.root, id).0,
                id,
            )),
            reaches(self.root, id) ==> (res matches Ok(a) && a.pos == 0 && a.items@
                == self_and_ancestors_ids(self.root, path_of(self.root, id))),
    {
        match self.find_path(id) {
            None => match find_nt_in(&self.root, id) {
                None => Err(LayoutError::NotFound),
                Some((p, k)) => {
                    proof {
                        lemma_nt_found(*self, id, p@, k as int);
                        assert(node_at(self.root, p@).non_tiling_children[k as int].id == id);
                    }
                    let ids = self.collect_path_ids(&p);
                    let mut items: Vec<u64> = Vec::new();
                    items.push(id);
                    let mut kk: usize = ids.len();
                    while kk > 1
                        invariant
                            1 <= kk <= ids@.len(),
                            ids@.len() == p@.len() + 1,
                            items@.len() == 1 + ids@.len() - kk,
                            items@[0] == id,
                            forall|j: int| 1 <= j < items@.len() ==> items@[j] == ids@[ids@.len()
                                - j],
                        decreases kk,
                    {
                        items.push(ids[kk - 1]);
                        kk = kk - 1;
                    }
                    proof {
                        assert(items@ =~= nt_self_and_ancestors_ids(self.root, p@, id));
                    }
                    return Ok(SelfAndAncestors { items, pos: 0 });
                },
            },
            Some(p) => {
                proof {
                    self.lemma_found_path(id, p@);
                }
                let ids = self.collect_path_ids(&p);
                let mut items: Vec<u64> = Vec::new();
                if ids.len() == 1 {
                    items.push(ids[0]);
                } else {
                    let mut k: usize = ids.len();
                    while k > 1
                        invariant
                            1 <= k <= ids@.len(),
                            items@.len() == ids@.len() - k,
                            forall|j: int| 0 <= j < items@.len() ==> items@[j] == ids@[ids@.len()
                                - 1 - j],
                        decreases k,
                    {
                        items.push(ids[k - 1]);
                        k = k - 1;
                    }
                }
                proof {
                    assert(items@ =~= self_and_ancestors_ids(self.root, p@));
                }
                Ok(SelfAndAncestors { items, pos: 0 })
            },
        }
    }

    /// A fresh traversal over the named node's siblings, in child order,
    /// the node itself excluded.
    pub fn siblings(&self, id: u64) -> (res: Result<Siblings, LayoutError>)
        requires
            self.wf(),
        ensures
            !reaches(self.root, id) && !nt_reaches(self.root, id) ==> res is Err,
            !reaches(self.root, id) && nt_reaches(self.root, id) ==> (res matches Ok(a) && a.pos
                == 0 && a.items@ == child_ids(
                node_at(self.root, nt_loc_of(self.root, id).0).children@,
            )),
            reaches(self.root, id) ==> (res matches Ok(a) && a.pos == 0 && a.items@
                == siblings_ids(self.root, path_of(self.root, id))),
    {
        match self.find_path(id) {
            None => match find_nt_in(&self.root, id) {
                None => Err(LayoutError::NotFound),
                Some((p, k)) => {
                    proof {
                        lemma_nt_found(*self, id, p@, k as int);
                        assert(p@.skip(0) =~= p@);
                    }
                    let n = node_ref(&self.root, &p, 0);
                    let mut items: Vec<u64> = Vec::new();
                    let mut j: usize = 0;
                    while j < n.children.len()
                        invariant
                            0 <= j <= n.children@.len(),
                            items@ == child_ids(n.children@).take(j as int),
                        decreases n.children@.len() - j,
                    {
                        proof {
                            let ci = child_ids(n.children@);
                            assert(ci.take(j + 1) =~= ci.take(j as int).push(ci[j as int]));
                        }
                        items.push(n.children[j].id);
                        j = j + 1;
                    }
                    proof {
                        assert(child_ids(n.children@).take(n.children@.len() as int)
                            =~= child_ids(n.children@));
                    }
                    return Ok(Siblings { items, pos: 0 });
                },
            },
            Some(p) => {
                proof {
                    self.lemma_found_path(id, p@);
                }
                if p.len() == 0 {
                    let items: Vec<u64> = Vec::new();
                    proof {
                        assert(items@ =~= siblings_ids(self.root, p@));
                    }
                    return Ok(Siblings { items, pos: 0 });
                }
                let ghost gp = p@;
                let mut pp = p;
                let last = match pp.pop() {
                    Some(v) => v,
                    None => 0,
                };
                proof {
                    lemma_path_decompose(self.root, gp);
                    assert(gp.drop_last() =~= gp.take(gp.len() - 1));
                    assert(pp@ =~= gp.take(gp.len() - 1));
                    assert(pp@.skip(0) =~= pp@);
                }
                let parent = node_ref(&self.root, &pp, 0);
                let mut items: Vec<u64> = Vec::new();
                let mut j: usize = 0;
                while j < parent.children.len()
                    invariant
                        0 <= j <= parent.children@.len(),
                        last < parent.children@.len(),
                        j <= last ==> items@ == child_ids(parent.children@).take(j as int),
                        j > last ==> items@ == child_ids(parent.children@).take(j as int).remove(
                            last as int,
                        ),
                    decreases parent.children@.len() - j,
                {
                    proof {
                        let ci = child_ids(parent.children@);
                        if j < last {
                            assert(ci.take(j + 1) =~= ci.take(j as int).push(ci[j as int]));
                        } else if j == last {
                            assert(ci.take(j + 1).remove(last as int) =~= ci.take(j as int));
                        } else {
                            assert(ci.take(j + 1).remove(last as int) =~= ci.take(
                                j as int,
                            ).remove(last as int).push(ci[j as int]));
                        }
                    }
                    if j != last {
                        items.push(parent.children[j].id);
                    }
                    j = j + 1;
                }
                proof {
                    assert(child_ids(parent.children@).take(parent.children@.len() as int)
                        =~= child_ids(parent.children@));
                    assert(items@ =~= siblings_ids(self.root, gp));
                }
                Ok(Siblings { items, pos: 0 })
            },
        }
    }

    /// The identifiers of the named node's tiling-capable siblings, in
    /// child order, the node itself excluded.
    pub fn tiling_siblings(&self, id: u64) -> (res: Result<Vec<u64>, LayoutError>)
        requires
            self.wf(),
        ensures
            !reaches(self.root, id) && !nt_reaches(self.root, id) ==> res is Err,
            !reaches(self.root, id) && nt_reaches(self.root, id) ==> (res matches Ok(v) && v@
                == tiling_ids(node_at(self.root, nt_loc_of(self.root, id).0).children@)),
            reaches(self.root, id) ==> (res matches Ok(v) && {
                let p = path_of(self.root, id);
                v@ == (if p.len() == 0 {
                    Seq::<u64>::empty()
                } else {
                    tiling_ids(
                        node_at(self.root, p.take(p.len() - 1)).children@.remove(
                            p.last() as int,
                        ),
                    )
                })
            }),
    {
        match self.find_path(id) {
            None => match find_nt_in(&self.root, id) {
                None => Err(LayoutError::NotFound),
                Some((p, k)) => {
                    proof {
                        lemma_nt_found(*self, id, p@, k as int);
                        assert(p@.skip(0) =~= p@);
                    }
                    let n = node_ref(&self.root, &p, 0);
                    let mut items: Vec<u64> = Vec::new();
                    let mut j: usize = 0;
                    while j < n.children.len()
                        invariant
                            0 <= j <= n.children@.len(),
                            items@ == tiling_ids(n.children@.take(j as int)),
                        decreases n.children@.len() - j,
                    {
                        let is_t = {
                            let t = n.children[j].container_type();
                            t == crate::container::ContainerType::Workspace || t
                                == crate::container::ContainerType::Split || t
                                == crate::container::ContainerType::TilingWindow
                        };
                        proof {
                            assert(n.children@.take(j + 1) =~= n.children@.take(j as int).push(
                                n.children@[j as int],
                            ));
                            lemma_tiling_ids_push(n.children@.take(j as int), n.children@[j as int]);
                        }
                        if is_t {
                            items.push(n.children[j].id);
                        }
                        j = j + 1;
                    }
                    proof {
                        assert(n.children@.take(n.children@.len() as int) =~= n.children@);
                    }
                    return Ok(items);
                },
            },
            Some(p) => {
                proof {
                    self.lemma_found_path(id, p@);
                }
                if p.len() == 0 {
                    let items: Vec<u64> = Vec::new();
                    return Ok(items);
                }
                let ghost gp = p@;
                let mut pp = p;
                let last = match pp.pop() {
                    Some(v) => v,
                    None => 0,
                };
                proof {
                    lemma_path_decompose(self.root, gp);
                    assert(gp.drop_last() =~= gp.take(gp.len() - 1));
                    assert(pp@ =~= gp.take(gp.len() - 1));
                    assert(pp@.skip(0) =~= pp@);
                }
                let parent = node_ref(&self.root, &pp, 0);
                let ghost rest = parent.children@.remove(last as int);
                let mut items: Vec<u64> = Vec::new();
                let mut j: usize = 0;
                while j < parent.children.len()
                    invariant
                        0 <= j <= parent.children@.len(),
                        last < parent.children@.len(),
                        rest == parent.children@.remove(last as int),
                        j <= last ==> items@ == tiling_ids(rest.take(j as int)),
                        j > last ==> items@ == tiling_ids(rest.take(j - 1)),
                    decreases parent.children@.len() - j,
                {
                    let is_t = {
                        let t = parent.children[j].container_type();
                        t == crate::container::ContainerType::Workspace || t
                            == crate::container::ContainerType::Split || t
                            == crate::container::ContainerType::TilingWindow
                    };
                    proof {
                        if j < last {
                            assert(rest.take(j + 1) =~= rest.take(j as int).push(
                                parent.children@[j as int],
                            ));
                            lemma_tiling_ids_push(rest.take(j as int), parent.children@[j as int]);
                        } else if j > last {
                            assert(rest.take(j as int) =~= rest.take(j - 1).push(
                                parent.children@[j as int],
                            ));
                            lemma_tiling_ids_push(rest.take(j - 1), parent.children@[j as int]);
                        }
                    }
                    if j != last {
                        if is_t {
                            items.push(parent.children[j].id);
                        }
                    }
                    j = j + 1;
                }
                proof {
                    assert(rest.take(rest.len() as int) =~= rest);
                }
                Ok(items)
            },
        }
    }

    /// A fresh pre-order traversal over the named node's descendants.
    pub fn descendants(&self, id: u64) -> (res: Result<Descendants, LayoutError>)
        requires
            self.wf(),
        ensures
            !reaches(self.root, id) && !nt_reaches(self.root, id) ==> res is Err,
            !reaches(self.root, id) && nt_reaches(self.root, id) ==> (res matches Ok(a) && a.pos
                == 0 && a.items@.len() == 0),
            reaches(self.root, id) ==> (res matches Ok(a) && a.pos == 0 && a.items@
                == seq_preorder(node_at(self.root, path_of(self.root, id)).children@)),
    {
        match self.find_path(id) {
            None => match find_nt_in(&self.root, id) {
                None => Err(LayoutError::NotFound),
                Some((p, k)) => {
                    proof {
                        lemma_nt_found(*self, id, p@, k as int);
                    }
                    let items: Vec<u64> = Vec::new();
                    return Ok(Descendants { items, pos: 0 });
                },
            },
            Some(p) => {
                proof {
                    self.lemma_found_path(id, p@);
                    assert(p@.skip(0) =~= p@);
                }
                let n = node_ref(&self.root, &p, 0);
                let mut items: Vec<u64> = Vec::new();
                let mut i: usize = 0;
                while i < n.children.len()
                    invariant
                        0 <= i <= n.children@.len(),
                        items@ == seq_preorder(n.children@.take(i as int)),
                    decreases n.children@.len() - i,
                {
                    collect_preorder(&n.children[i], &mut items);
                    proof {
                        assert(n.children@.take(i + 1) =~= n.children@.take(i as int).push(
                            n.children@[i as int],
                        ));
                        lemma_seq_preorder_push(n.children@.take(i as int), n.children@[i as int]);
                    }
                    i = i + 1;
                }
                proof {
                    assert(n.children@.take(n.children@.len() as int) =~= n.children@);
                }
                Ok(Descendants { items, pos: 0 })
            },
        }
    }

    /// A fresh pre-order traversal over the named node itself and its
    /// descendants.
    pub fn self_and_descendants(&self, id: u64) -> (res: Result<Descendants, LayoutError>)
        requires
            self.wf(),
        ensures
            !reaches(self.root, id) && !nt_reaches(self.root, id) ==> res is Err,
            !reaches(self.root, id) && nt_reaches(self.root, id) ==> (res matches Ok(a) && a.pos
                == 0 && a.items@ == seq![id]),
            reaches(self.root, id) ==> (res matches Ok(a) && a.pos == 0 && a.items@
                == preorder_ids(node_at(self.root, path_of(self.root, id)))),
    {
        match self.find_path(id) {
            None => match find_nt_in(&self.root, id) {
                None => Err(LayoutError::NotFound),
                Some((p, k)) => {
                    proof {
                        lemma_nt_found(*self, id, p@, k as int);
                        assert(node_at(self.root, p@).non_tiling_children[k as int].id == id);
                    }
                    let mut items: Vec<u64> = Vec::new();
                    items.push(id);
                    proof {
                        assert(items@ =~= seq![id]);
                    }
                    return Ok(Descendants { items, pos: 0 });
                },
            },
            Some(p) => {
                proof {
                    self.lemma_found_path(id, p@);
                    assert(p@.skip(0) =~= p@);
                }
                let n = node_ref(&self.root, &p, 0);
                let mut items: Vec<u64> = Vec::new();
                collect_preorder(n, &mut items);
                proof {
                    assert(items@ =~= preorder_ids(node_at(self.root, p@)));
                }
                Ok(Descendants { items, pos: 0 })
            },
        }
    }

    /// The found path is the unique path the contracts speak of.
    proof fn lemma_found_path(self, id: u64, p: Seq<usize>)
        requires
            self.wf(),
            valid_path(self.root, p),
            node_at(self.root, p).id == id,
        ensures
            p == path_of(self.root, id),
    {
        let p0 = path_of(self.root, id);
        assert(valid_path(self.root, p0) && node_at(self.root, p0).id == id);
        lemma_path_unique(self.root, p, p0);
    }
}

/// The ancestors law: the root has no ancestors; a node reached by a path
/// of L steps has exactly L - 1 of them, pairwise distinct, never the
/// node itself and never the root — the traversal is terminal and
/// non-repeating.
pub proof fn lemma_ancestors_law(t: Tree, id: u64)
    requires
        t.wf(),
        reaches(t.root, id),
    ensures
        ({
            let p = path_of(t.root, id);
            let a = ancestors_ids(t.root, p);
            &&& (id == t.root.id ==> a.len() == 0)
            &&& (p.len() > 0 ==> a.len() == p.len() - 1)
            &&& (forall|k: int| 0 <= k < a.len() ==> a[k] != t.root.id && a[k] != id)
            &&& (forall|k1: int, k2: int| 0 <= k1 < k2 < a.len() ==> a[k1] != a[k2])
        }),
{
    let p = path_of(t.root, id);
    assert(valid_path(t.root, p) && node_at(t.root, p).id == id);
    if id == t.root.id {
        let e = Seq::<usize>::empty();
        assert(valid_path(t.root, e) && node_at(t.root, e).id == id);
        lemma_path_unique(t.root, p, e);
    }
    let a = ancestors_ids(t.root, p);
    assert forall|k: int| 0 <= k < a.len() implies a[k] != t.root.id && a[k] != id by {
        let m = p.len() - 1 - k;
        lemma_valid_prefix(t.root, p, m);
        lemma_path_ids_index(t.root, p, m);
        assert(a[k] == node_at(t.root, p.take(m)).id);
        let e = Seq::<usize>::empty();
        assert(valid_path(t.root, e) && node_at(t.root, e) == t.root);
        if a[k] == t.root.id {
            lemma_path_unique(t.root, p.take(m), e);
            assert(p.take(m).len() == 0);
        }
        if a[k] == id {
            lemma_path_unique(t.root, p.take(m), p);
            assert(p.take(m).len() == p.len());
        }
    }
    assert forall|k1: int, k2: int| 0 <= k1 < k2 < a.len() implies a[k1] != a[k2] by {
        let m1 = p.len() - 1 - k1;
        let m2 = p.len() - 1 - k2;
        lemma_valid_prefix(t.root, p, m1);
        lemma_valid_prefix(t.root, p, m2);
        lemma_path_ids_index(t.root, p, m1);
        lemma_path_ids_index(t.root, p, m2);
        if a[k1] == a[k2] {
            lemma_path_unique(t.root, p.take(m1), p.take(m2));
            assert(p.take(m1).len() == p.take(m2).len());
        }
    }
}

/// In a well-formed subtree, the pre-order identifier sequence repeats
/// nothing and stays within the subtree's identifiers.
pub proof fn lemma_preorder_distinct(c: Container)
    requires
        c.wf(),
    ensures
        preorder_ids(c).no_duplicates(),
        forall|x: u64| preorder_ids(c).contains(x) ==> c.id_set().contains(x),
    decreases c,
{
    lemma_seq_preorder_distinct(c.children@);
    let a = seq![c.id];
    let b = seq_preorder(c.children@);
    assert forall|x: u64| preorder_ids(c).contains(x) implies c.id_set().contains(x) by {
        let k = choose|k: int| 0 <= k < preorder_ids(c).len() && preorder_ids(c)[k] == x;
        if k == 0 {
            lemma_id_in_own_set(c);
        } else {
            assert(b[k - 1] == x);
            assert(b.contains(x));
        }
    }
    assert forall|k1: int, k2: int|
        0 <= k1 < preorder_ids(c).len() && 0 <= k2 < preorder_ids(c).len() && k1
            != k2 implies preorder_ids(c)[k1] != preorder_ids(c)[k2] by {
        if k1 != 0 && k2 != 0 {
            assert(b[k1 - 1] == preorder_ids(c)[k1]);
            assert(b[k2 - 1] == preorder_ids(c)[k2]);
        } else {
            let kk = if k1 == 0 {
                k2
            } else {
                k1
            };
            assert(b[kk - 1] == preorder_ids(c)[kk]);
            assert(b.contains(b[kk - 1]));
            if preorder_ids(c)[kk] == c.id {
                assert(seq_id_sets(c.children@).contains(c.id));
                lemma_seq_id_sets_member(c.children@, c.id);
            }
        }
    }
}

/// In a forest of well-formed trees with disjoint identifier sets, the
/// pre-order sequence repeats nothing.
pub proof fn lemma_seq_preorder_distinct(s: Seq<Container>)
    requires
        forall|i: int| 0 <= i < s.len() ==> (#[trigger] s[i]).wf(),
        forall|i: int, j: int|
            0 <= i < s.len() && 0 <= j < s.len() && i != j ==> (#[trigger] s[i]).id_set().disjoint(
                (#[trigger] s[j]).id_set(),
            ),
    ensures
        seq_preorder(s).no_duplicates(),
        forall|x: u64| seq_preorder(s).contains(x) ==> seq_id_sets(s).contains(x),
    decreases s,
{
    if s.len() == 0 {
    } else {
        lemma_preorder_distinct(s[0]);
        lemma_seq_preorder_distinct(s.drop_first());
        let a = preorder_ids(s[0]);
        let b = seq_preorder(s.drop_first());
        assert forall|x: u64| seq_preorder(s).contains(x) implies seq_id_sets(s).contains(x) by {
            let k = choose|k: int| 0 <= k < seq_preorder(s).len() && seq_preorder(s)[k] == x;
            if k < a.len() {
                assert(a[k] == x);
                assert(a.contains(x));
                lemma_seq_id_sets_elem(s, 0);
            } else {
                assert(b[k - a.len()] == x);
                assert(b.contains(x));
                assert(seq_id_sets(s.drop_first()).contains(x));
                assert forall|y: u64|
                    seq_id_sets(s.drop_first()).contains(y) implies seq_id_sets(s).contains(y) by {
                    lemma_seq_id_sets_member(s.drop_first(), y);
                    let j = choose|j: int|
                        0 <= j < s.drop_first().len() && (
                        #[trigger] s.drop_first()[j]).id_set().contains(y);
                    lemma_seq_id_sets_elem(s, j + 1);
                }
            }
        }
        assert forall|k1: int, k2: int|
            0 <= k1 < seq_preorder(s).len() && 0 <= k2 < seq_preorder(s).len() && k1
                != k2 implies seq_preorder(s)[k1] != seq_preorder(s)[k2] by {
            if k1 < a.len() && k2 < a.len() {
                assert(a[k1] == seq_preorder(s)[k1]);
                assert(a[k2] == seq_preorder(s)[k2]);
            } else if k1 >= a.len() && k2 >= a.len() {
                assert(b[k1 - a.len()] == seq_preorder(s)[k1]);
                assert(b[k2 - a.len()] == seq_preorder(s)[k2]);
            } else {
                let ka = if k1 < a.len() {
                    k1
                } else {
                    k2
                };
                let kb = if k1 < a.len() {
                    k2
                } else {
                    k1
                };
                assert(a[ka] == seq_preorder(s)[ka]);
                assert(b[kb - a.len()] == seq_preorder(s)[kb]);
                assert(a.contains(a[ka]));
                assert(b.contains(b[kb - a.len()]));
                if seq_preorder(s)[ka] == seq_preorder(s)[kb] {
                    let x = a[ka];
                    assert(s[0].id_set().contains(x));
                    assert(seq_id_sets(s.drop_first()).contains(x));
                    lemma_seq_id_sets_member(s.drop_first(), x);
                    let j = choose|j: int|
                        0 <= j < s.drop_first().len() && (
                        #[trigger] s.drop_first()[j]).id_set().contains(x);
                    assert(s[j + 1].id_set().contains(x));
                    assert(s[0].id_set().disjoint(s[j + 1].id_set()));
                }
            }
        }
    }
}

/// The self-and-ancestors law: the traversal yields the node itself
/// first, followed by exactly the elements of the ancestors traversal in
/// the same order — one element more than the node's strict ancestor
/// count — and repeats nothing.
pub proof fn lemma_self_and_ancestors_law(t: Tree, id: u64)
    requires
        t.wf(),
        reaches(t.root, id),
    ensures
        ({
            let p = path_of(t.root, id);
            let sa = self_and_ancestors_ids(t.root, p);
            let a = ancestors_ids(t.root, p);
            &&& sa == seq![id] + a
            &&& sa.len() == a.len() + 1
            &&& (forall|k1: int, k2: int| 0 <= k1 < k2 < sa.len() ==> sa[k1] != sa[k2])
        }),
{
    let p = path_of(t.root, id);
    assert(valid_path(t.root, p) && node_at(t.root, p).id == id);
    let sa = self_and_ancestors_ids(t.root, p);
    let a = ancestors_ids(t.root, p);
    lemma_path_ids_index(t.root, p, p.len() as int);
    assert(p.take(p.len() as int) =~= p);
    assert(path_ids(t.root, p)[p.len() as int] == id);
    assert(sa =~= seq![id] + a);
    lemma_ancestors_law(t, id);
    assert forall|k1: int, k2: int| 0 <= k1 < k2 < sa.len() implies sa[k1] != sa[k2] by {
        if k1 == 0 {
            assert(sa[k2] == a[k2 - 1]);
        } else {
            assert(sa[k1] == a[k1 - 1]);
            assert(sa[k2] == a[k2 - 1]);
        }
    }
}

/// The descendants law: a pre-order traversal of a well-formed subtree
/// yields every descendant exactly once.
pub proof fn lemma_descendants_law(t: Tree, id: u64)
    requires
        t.wf(),
        reaches(t.root, id),
    ensures
        seq_preorder(node_at(t.root, path_of(t.root, id)).children@).no_duplicates(),
{
    let p = path_of(t.root, id);
    assert(valid_path(t.root, p) && node_at(t.root, p).id == id);
    lemma_node_at_wf(t.root, p);
    lemma_seq_preorder_distinct(node_at(t.root, p).children@);
}

/// The siblings law: the sibling traversal never yields the originating
/// node itself.
pub proof fn lemma_siblings_law(t: Tree, id: u64)
    requires
        t.wf(),
        reaches(t.root, id),
    ensures
        ({
            let sib = siblings_ids(t.root, path_of(t.root, id));
            forall|k: int| 0 <= k < sib.len() ==> sib[k] != id
        }),
{
    let p = path_of(t.root, id);
    assert(valid_path(t.root, p) && node_at(t.root, p).id == id);
    if p.len() > 0 {
        lemma_path_decompose(t.root, p);
        let parent = node_at(t.root, p.take(p.len() - 1));
        lemma_valid_prefix(t.root, p, p.len() - 1);
        lemma_node_at_wf(t.root, p.take(p.len() - 1));
        crate::container::lemma_child_ids_distinct(parent);
        let sib = siblings_ids(t.root, p);
        assert forall|k: int| 0 <= k < sib.len() implies sib[k] != id by {
            let last = p.last() as int;
            let src = if k < last {
                k
            } else {
                k + 1
            };
            assert(sib[k] == child_ids(parent.children@)[src]);
            assert(child_ids(parent.children@)[src] == parent.children@[src].id);
            assert(parent.children@[last].id == id);
        }
    }
}

/// A prefix of a valid path is valid.
pub proof fn lemma_valid_prefix(c: Container, p: Seq<usize>, k: int)
    requires
        valid_path(c, p),
        0 <= k <= p.len(),
    ensures
        valid_path(c, p.take(k)),
    decreases p.len(),
{
    if k > 0 {
        lemma_valid_prefix(c.children[p[0] as int], p.drop_first(), k - 1);
        assert(p.take(k)[0] == p[0]);
        assert(p.take(k).drop_first() =~= p.drop_first().take(k - 1));
    } else {
        assert(p.take(0) =~= Seq::<usize>::empty());
    }
}

} // verus!
