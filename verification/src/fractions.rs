//! Size-fraction bookkeeping for tiling children.
//!
//! A tiling container's children each hold a share of the parent's extent,
//! expressed in fixed-point units of `1 / TOTAL_UNITS`. The invariant kept
//! by every operation here: whenever a container has at least one tiling
//! child, the children's shares sum to exactly `TOTAL_UNITS`.
//!
//! Policy choices, documented and tested:
//! - An insertion without an explicit share gives the new child an equal
//!   share (`TOTAL_UNITS / (n + 1)`) and shrinks the existing children
//!   proportionally; rounding remainders go to the last existing child.
//! - A removal redistributes the vacated share proportionally (each
//!   remaining share becomes `old * TOTAL_UNITS / (TOTAL_UNITS - removed)`,
//!   rounded down, remainder to the last sibling). If the remaining
//!   siblings' shares sum to zero, the whole is split equally among them.
//! - A resize that would push either affected share below zero or above one
//!   whole is rejected with `InsufficientSpace`; nothing is changed.
//! - A sole tiling child always holds the whole (`TOTAL_UNITS`), whatever
//!   share an insertion requested.

use vstd::prelude::*;
use vstd::arithmetic::div_mod::{
    lemma_div_is_ordered, lemma_div_multiples_vanish, lemma_div_pos_is_pos,
    lemma_fundamental_div_mod, lemma_mod_bound, lemma_div_of0,
};
use crate::geometry::TOTAL_UNITS;
use crate::errors::LayoutError;

verus! {

/// Upper bound on the number of direct children a container accepts, so
/// that share arithmetic stays far from integer limits.
pub const MAX_CHILDREN: usize = 10000;

/// The sum of a sequence of shares, as a mathematical integer.
pub open spec fn sum_units(s: Seq<u32>) -> int
    decreases s.len(),
{
    if s.len() == 0 {
        0
    } else {
        sum_units(s.drop_last()) + s.last()
    }
}

pub proof fn lemma_sum_nonneg(s: Seq<u32>)
    ensures
        0 <= sum_units(s),
    decreases s.len(),
{
    if s.len() > 0 {
        lemma_sum_nonneg(s.drop_last());
    }
}

pub proof fn lemma_sum_push(s: Seq<u32>, v: u32)
    ensures
        sum_units(s.push(v)) == sum_units(s) + v,
{
    assert(s.push(v).drop_last() =~= s);
}

/// The sum splits at any cut point.
pub proof fn lemma_sum_split(s: Seq<u32>, i: int)
    requires
        0 <= i <= s.len(),
    ensures
        sum_units(s) == sum_units(s.take(i)) + sum_units(s.skip(i)),
    decreases s.len(),
{
    if i == s.len() {
        assert(s.take(i) =~= s);
        assert(s.skip(i) =~= Seq::<u32>::empty());
    } else {
        let dl = s.drop_last();
        lemma_sum_split(dl, i);
        assert(s.take(i) =~= dl.take(i));
        assert(s.skip(i) =~= dl.skip(i).push(s.last()));
        lemma_sum_push(dl.skip(i), s.last());
    }
}

/// A prefix sum lies between zero and the whole sum.
pub proof fn lemma_sum_take_bounds(s: Seq<u32>, k: int)
    requires
        0 <= k <= s.len(),
    ensures
        0 <= sum_units(s.take(k)) <= sum_units(s),
{
    lemma_sum_split(s, k);
    lemma_sum_nonneg(s.take(k));
    lemma_sum_nonneg(s.skip(k));
}

pub proof fn lemma_sum_first(s: Seq<u32>)
    requires
        s.len() > 0,
    ensures
        sum_units(s) == s[0] + sum_units(s.drop_first()),
    decreases s.len(),
{
    if s.len() == 1 {
        assert(s.drop_first() =~= Seq::<u32>::empty());
        assert(s.drop_last() =~= Seq::<u32>::empty());
    } else {
        let dl = s.drop_last();
        lemma_sum_first(dl);
        assert(s.drop_first().drop_last() =~= dl.drop_first());
        assert(s.drop_first().last() == s.last());
    }
}

/// Decomposition around one index: everything before, the element, everything after.
pub proof fn lemma_sum_around(s: Seq<u32>, i: int)
    requires
        0 <= i < s.len(),
    ensures
        sum_units(s) == sum_units(s.take(i)) + s[i] + sum_units(s.skip(i + 1)),
{
    lemma_sum_split(s, i);
    lemma_sum_first(s.skip(i));
    assert(s.skip(i).drop_first() =~= s.skip(i + 1));
}

pub proof fn lemma_sum_elem_le(s: Seq<u32>, i: int)
    requires
        0 <= i < s.len(),
    ensures
        s[i] <= sum_units(s),
{
    lemma_sum_around(s, i);
    lemma_sum_nonneg(s.take(i));
    lemma_sum_nonneg(s.skip(i + 1));
}

pub proof fn lemma_sum_update(s: Seq<u32>, i: int, v: u32)
    requires
        0 <= i < s.len(),
    ensures
        sum_units(s.update(i, v)) == sum_units(s) - s[i] + v,
{
    let t = s.update(i, v);
    lemma_sum_around(s, i);
    lemma_sum_around(t, i);
    assert(t.take(i) =~= s.take(i));
    assert(t.skip(i + 1) =~= s.skip(i + 1));
}

pub proof fn lemma_sum_insert(s: Seq<u32>, i: int, v: u32)
    requires
        0 <= i <= s.len(),
    ensures
        sum_units(s.insert(i, v)) == sum_units(s) + v,
{
    let t = s.insert(i, v);
    lemma_sum_around(t, i);
    lemma_sum_split(s, i);
    assert(t.take(i) =~= s.take(i));
    assert(t.skip(i + 1) =~= s.skip(i));
}

pub proof fn lemma_sum_remove(s: Seq<u32>, i: int)
    requires
        0 <= i < s.len(),
    ensures
        sum_units(s.remove(i)) == sum_units(s) - s[i],
{
    let t = s.remove(i);
    lemma_sum_split(t, i);
    lemma_sum_around(s, i);
    assert(t.take(i) =~= s.take(i));
    assert(t.skip(i) =~= s.skip(i + 1));
}

/// Integer division is superadditive over a common denominator.
proof fn lemma_div_superadd(a: int, b: int, d: int)
    requires
        0 <= a,
        0 <= b,
        0 < d,
    ensures
        a / d + b / d <= (a + b) / d,
{
    lemma_fundamental_div_mod(a, d);
    lemma_fundamental_div_mod(b, d);
    lemma_mod_bound(a, d);
    lemma_mod_bound(b, d);
    assert(a + b >= d * (a / d + b / d)) by (nonlinear_arith)
        requires
            a == d * (a / d) + a % d,
            b == d * (b / d) + b % d,
            a % d >= 0,
            b % d >= 0;
    lemma_div_is_ordered(d * (a / d + b / d), a + b, d);
    lemma_div_multiples_vanish(a / d + b / d, d);
}

/// A value no larger than the denominator scales to no more than the target.
proof fn lemma_scaled_le(v: int, t: int, d: int)
    requires
        0 <= v <= d,
        0 <= t,
        0 < d,
    ensures
        0 <= v * t / d <= t,
{
    assert(v * t <= d * t) by (nonlinear_arith)
        requires 0 <= v <= d, 0 <= t;
    assert(0 <= v * t) by (nonlinear_arith)
        requires 0 <= v, 0 <= t;
    lemma_div_is_ordered(v * t, d * t, d);
    lemma_div_multiples_vanish(t, d);
    lemma_div_pos_is_pos(v * t, d);
}

/// Summing the pointwise-scaled shares never exceeds the scaled sum.
proof fn lemma_sum_scaled_le(s: Seq<u32>, r: Seq<u32>, t: int, d: int)
    requires
        r.len() == s.len(),
        0 < d,
        0 <= t,
        forall|i: int| 0 <= i < s.len() ==> r[i] == s[i] * t / d,
    ensures
        sum_units(r) <= sum_units(s) * t / d,
    decreases s.len(),
{
    if s.len() == 0 {
        lemma_div_of0(d);
        assert(sum_units(s) * t == 0) by (nonlinear_arith)
            requires sum_units(s) == 0;
    } else {
        lemma_sum_scaled_le(s.drop_last(), r.drop_last(), t, d);
        lemma_sum_nonneg(s.drop_last());
        assert(r.last() == s.last() * t / d);
        lemma_div_superadd(sum_units(s.drop_last()) * t, s.last() * t, d);
        assert(0 <= sum_units(s.drop_last()) * t) by (nonlinear_arith)
            requires 0 <= sum_units(s.drop_last()), 0 <= t;
        assert(0 <= s.last() * t) by (nonlinear_arith)
            requires 0 <= t;
        assert(sum_units(s.drop_last()) * t + s.last() * t == sum_units(s) * t) by (nonlinear_arith)
            requires sum_units(s.drop_last()) + s.last() == sum_units(s);
    }
}

/// The exact sum of a share vector.
pub fn sum_vec(sizes: &Vec<u32>) -> (s: u32)
    requires
        sizes.len() <= MAX_CHILDREN,
        forall|i: int| 0 <= i < sizes.len() ==> sizes[i] <= TOTAL_UNITS,
    ensures
        s == sum_units(sizes@),
        s <= sizes.len() * TOTAL_UNITS,
{
    let mut acc: u32 = 0;
    let mut i: usize = 0;
    while i < sizes.len()
        invariant
            0 <= i <= sizes.len(),
            sizes.len() <= MAX_CHILDREN,
            forall|j: int| 0 <= j < sizes.len() ==> sizes[j] <= TOTAL_UNITS,
            acc == sum_units(sizes@.take(i as int)),
            acc <= i * TOTAL_UNITS,
        decreases sizes.len() - i,
    {
        proof {
            assert(sizes@.take(i + 1) =~= sizes@.take(i as int).push(sizes@[i as int]));
            lemma_sum_push(sizes@.take(i as int), sizes@[i as int]);
        }
        acc = acc + sizes[i];
        i = i + 1;
    }
    proof {
        assert(sizes@.take(sizes@.len() as int) =~= sizes@);
    }
    acc
}

/// Redistributes `target` units over the same number of shares,
/// proportionally to the old shares (rounding remainders to the last
/// share), or equally when the old shares sum to zero.
pub fn rebalanced(sizes: &Vec<u32>, target: u32) -> (r: Vec<u32>)
    requires
        1 <= sizes.len() <= MAX_CHILDREN,
        target <= TOTAL_UNITS,
        forall|i: int| 0 <= i < sizes.len() ==> sizes[i] <= TOTAL_UNITS,
    ensures
        r.len() == sizes.len(),
        sum_units(r@) == target,
        forall|i: int| 0 <= i < r.len() ==> r[i] <= target,
        sum_units(sizes@) > 0 ==> forall|i: int|
            0 <= i < r.len() - 1 ==> r[i] == sizes[i] * target / sum_units(sizes@),
        sum_units(sizes@) == 0 ==> forall|i: int|
            0 <= i < r.len() - 1 ==> r[i] == target as int / sizes.len() as int,
{
    let n = sizes.len();
    let s_total = sum_vec(sizes);
    let mut r: Vec<u32> = Vec::new();
    let mut acc: u32 = 0;
    let ghost gs = sizes@;
    if s_total == 0 {
        let base: u32 = target / (n as u32);
        proof {
            lemma_fundamental_div_mod(target as int, n as int);
            lemma_mod_bound(target as int, n as int);
        }
        let mut i: usize = 0;
        while i < n - 1
            invariant
                0 <= i <= n - 1,
                1 <= n <= MAX_CHILDREN,
                base == target as int / n as int,
                base * n <= target <= TOTAL_UNITS,
                r.len() == i,
                forall|j: int| 0 <= j < i ==> r[j] == base,
                acc == sum_units(r@),
                acc == i * base,
            decreases n - 1 - i,
        {
            proof {
                lemma_sum_push(r@, base);
                assert((i + 1) * base == i * base + base) by (nonlinear_arith);
                assert(acc + base <= target) by (nonlinear_arith)
                    requires
                        acc == i * base,
                        base * n <= target,
                        0 <= base,
                        0 <= i,
                        i + 1 <= n;
            }
            r.push(base);
            acc = acc + base;
            i = i + 1;
        }
        proof {
            assert((n - 1) * base <= n * base) by (nonlinear_arith)
                requires 0 <= base, 1 <= n;
            lemma_sum_push(r@, (target - acc) as u32);
        }
        r.push(target - acc);
        r
    } else {
        let mut i: usize = 0;
        while i < n - 1
            invariant
                0 <= i <= n - 1,
                1 <= n <= MAX_CHILDREN,
                sizes@ == gs,
                n == gs.len(),
                target <= TOTAL_UNITS,
                forall|j: int| 0 <= j < n ==> gs[j] <= TOTAL_UNITS,
                0 < s_total == sum_units(gs) <= n * TOTAL_UNITS,
                r.len() == i,
                forall|j: int| 0 <= j < i ==> r[j] == gs[j] * target / s_total as int,
                forall|j: int| 0 <= j < i ==> r[j] <= target,
                acc == sum_units(r@),
                acc <= i * TOTAL_UNITS,
            decreases n - 1 - i,
        {
            proof {
                assert((gs[i as int] as int) * (target as int) <= 10000 * 10000)
                    by (nonlinear_arith)
                    requires
                        0 <= gs[i as int] <= 10000,
                        0 <= target <= 10000;
            }
            let v64: u64 = (sizes[i] as u64) * (target as u64) / (s_total as u64);
            proof {
                lemma_sum_elem_le(gs, i as int);
                lemma_scaled_le(gs[i as int] as int, target as int, s_total as int);
                lemma_sum_push(r@, (gs[i as int] * target / s_total as int) as u32);
                assert((i + 1) * TOTAL_UNITS == i * TOTAL_UNITS + TOTAL_UNITS) by (nonlinear_arith);
            }
            let v: u32 = v64 as u32;
            r.push(v);
            acc = acc + v;
            i = i + 1;
        }
        proof {
            lemma_sum_scaled_le(gs.take(n - 1), r@, target as int, s_total as int);
            lemma_sum_split(gs, n - 1);
            lemma_sum_nonneg(gs.skip(n - 1));
            assert(sum_units(gs.take(n - 1)) * target <= sum_units(gs) * target) by (nonlinear_arith)
                requires
                    sum_units(gs.take(n - 1)) <= sum_units(gs),
                    0 <= target;
            lemma_sum_nonneg(gs.take(n - 1));
            assert(0 <= sum_units(gs.take(n - 1)) * target) by (nonlinear_arith)
                requires 0 <= sum_units(gs.take(n - 1)), 0 <= target;
            lemma_div_is_ordered(
                sum_units(gs.take(n - 1)) * target,
                sum_units(gs) * target,
                sum_units(gs),
            );
            lemma_div_multiples_vanish(target as int, sum_units(gs));
            assert(sum_units(gs) * target == target * sum_units(gs)) by (nonlinear_arith);
            assert(acc <= target);
            lemma_sum_push(r@, (target - acc) as u32);
        }
        r.push(target - acc);
        r
    }
}

/// A copy of `sizes` with the element at `index` gone.
pub fn copy_without(sizes: &Vec<u32>, index: usize) -> (r: Vec<u32>)
    requires
        index < sizes.len(),
    ensures
        r@ == sizes@.remove(index as int),
{
    let mut r: Vec<u32> = Vec::new();
    let mut j: usize = 0;
    while j < sizes.len()
        invariant
            0 <= j <= sizes.len(),
            index < sizes.len(),
            j <= index ==> r@ == sizes@.take(j as int),
            j > index ==> r@ == sizes@.take(j as int).remove(index as int),
        decreases sizes.len() - j,
    {
        if j != index {
            r.push(sizes[j]);
        }
        proof {
            if j < index {
                assert(sizes@.take(j + 1) =~= sizes@.take(j as int).push(sizes@[j as int]));
            } else if j == index {
                assert(sizes@.take(j + 1).remove(index as int) =~= sizes@.take(j as int));
            } else {
                assert(sizes@.take(j + 1).remove(index as int)
                    =~= sizes@.take(j as int).remove(index as int).push(sizes@[j as int]));
            }
        }
        j = j + 1;
    }
    proof {
        assert(sizes@.take(sizes@.len() as int) =~= sizes@);
    }
    r
}

/// The shares after inserting a child at `index`. On success, returns the
/// new share vector and the share the inserted child received.
///
/// With no explicit share requested, the new child receives an equal share
/// and the existing children shrink proportionally. A sole child always
/// receives the whole. An explicit share larger than one whole is refused.
pub fn units_after_insert(sizes: &Vec<u32>, index: usize, requested: Option<u32>) -> (res: Result<
    (Vec<u32>, u32),
    LayoutError,
>)
    requires
        sizes.len() < MAX_CHILDREN,
        forall|i: int| 0 <= i < sizes.len() ==> sizes[i] <= TOTAL_UNITS,
        sizes.len() >= 1 ==> sum_units(sizes@) == TOTAL_UNITS,
    ensures
        res is Err <==> (index > sizes.len() || (index <= sizes.len() && requested is Some
            && requested->0 > TOTAL_UNITS)),
        index > sizes.len() ==> res == Err::<(Vec<u32>, u32), LayoutError>(
            LayoutError::InvalidIndex,
        ),
        (index <= sizes.len() && requested is Some && requested->0 > TOTAL_UNITS) ==> res
            == Err::<(Vec<u32>, u32), LayoutError>(LayoutError::InvalidFraction),
        res matches Ok((r, share)) ==> {
            &&& r@.len() == sizes.len() + 1
            &&& sum_units(r@) == TOTAL_UNITS
            &&& forall|i: int| 0 <= i < r@.len() ==> r@[i] <= TOTAL_UNITS
            &&& r@[index as int] == share
            &&& share == (if sizes.len() == 0 {
                TOTAL_UNITS as int
            } else if requested is Some {
                requested->0 as int
            } else {
                TOTAL_UNITS as int / (sizes.len() + 1) as int
            })
            &&& sizes.len() >= 1 ==> forall|j: int|
                0 <= j < sizes.len() - 1 ==> r@[if j < index { j } else { j + 1 }] == sizes[j] * (
                TOTAL_UNITS - share) / TOTAL_UNITS as int
        },
{
    if index > sizes.len() {
        return Err(LayoutError::InvalidIndex);
    }
    let share: u32 = match requested {
        Some(s) => {
            if s > TOTAL_UNITS {
                return Err(LayoutError::InvalidFraction);
            }
            s
        },
        None => TOTAL_UNITS / (sizes.len() as u32 + 1),
    };
    if sizes.len() == 0 {
        let mut r: Vec<u32> = Vec::new();
        r.push(TOTAL_UNITS);
        proof {
            lemma_sum_push(Seq::<u32>::empty(), TOTAL_UNITS);
        }
        Ok((r, TOTAL_UNITS))
    } else {
        proof {
            if requested is None {
                lemma_fundamental_div_mod(TOTAL_UNITS as int, (sizes.len() + 1) as int);
                lemma_mod_bound(TOTAL_UNITS as int, (sizes.len() + 1) as int);
                lemma_div_pos_is_pos(TOTAL_UNITS as int, (sizes.len() + 1) as int);
                assert((sizes.len() + 1) * (TOTAL_UNITS as int / (sizes.len() + 1) as int)
                    <= TOTAL_UNITS);
                assert(TOTAL_UNITS as int / (sizes.len() + 1) as int <= TOTAL_UNITS)
                    by (nonlinear_arith)
                    requires
                        (sizes.len() + 1) * (TOTAL_UNITS as int / (sizes.len() + 1) as int)
                            <= TOTAL_UNITS,
                        0 <= TOTAL_UNITS as int / (sizes.len() + 1) as int,
                        sizes.len() >= 1;
            }
        }
        let mut r = rebalanced(sizes, TOTAL_UNITS - share);
        let ghost g0 = r@;
        r.insert(index, share);
        proof {
            lemma_sum_insert(g0, index as int, share);
            assert(forall|j: int| 0 <= j < index ==> r@[j] == g0[j]);
            assert(forall|j: int| index < j < r@.len() ==> r@[j] == g0[j - 1]);
        }
        Ok((r, share))
    }
}

/// The shares after removing the child at `index`: the vacated share is
/// redistributed proportionally over the remaining siblings.
pub fn units_after_remove(sizes: &Vec<u32>, index: usize) -> (r: Vec<u32>)
    requires
        index < sizes.len(),
        sizes.len() <= MAX_CHILDREN,
        forall|i: int| 0 <= i < sizes.len() ==> sizes[i] <= TOTAL_UNITS,
        sum_units(sizes@) == TOTAL_UNITS,
    ensures
        r@.len() == sizes.len() - 1,
        r@.len() >= 1 ==> sum_units(r@) == TOTAL_UNITS,
        forall|i: int| 0 <= i < r@.len() ==> r@[i] <= TOTAL_UNITS,
        sum_units(sizes@.remove(index as int)) > 0 ==> forall|j: int|
            0 <= j < r@.len() - 1 ==> r@[j] == sizes@.remove(index as int)[j] * TOTAL_UNITS / (
            TOTAL_UNITS - sizes[index as int]),
{
    let rest = copy_without(sizes, index);
    proof {
        lemma_sum_remove(sizes@, index as int);
        lemma_sum_elem_le(sizes@, index as int);
        assert(forall|i: int| 0 <= i < rest@.len() ==> rest@[i] <= TOTAL_UNITS);
    }
    if rest.len() == 0 {
        rest
    } else {
        let r = rebalanced(&rest, TOTAL_UNITS);
        r
    }
}

/// The shares after resizing the child at `index` by `delta_units` (signed,
/// in units of `1 / TOTAL_UNITS`): the delta is taken from or given to the
/// adjacent sibling (the next one, or the previous one for the last child).
/// Rejected outright when a sole child is resized or when either affected
/// share would leave the range `0 ..= TOTAL_UNITS`.
pub fn units_after_resize(sizes: &Vec<u32>, index: usize, delta_units: i32) -> (res: Result<
    Vec<u32>,
    LayoutError,
>)
    requires
        index < sizes.len(),
        forall|i: int| 0 <= i < sizes.len() ==> sizes[i] <= TOTAL_UNITS,
        sum_units(sizes@) == TOTAL_UNITS,
    ensures
        sizes.len() == 1 ==> res == Err::<Vec<u32>, LayoutError>(LayoutError::InsufficientSpace),
        sizes.len() > 1 ==> {
            let adj: int = if index + 1 < sizes.len() { index + 1 } else { index as int - 1 };
            &&& (res is Ok <==> (0 <= sizes[index as int] + delta_units <= TOTAL_UNITS && 0 <= sizes[adj]
                - delta_units <= TOTAL_UNITS))
            &&& (res is Err ==> res == Err::<Vec<u32>, LayoutError>(LayoutError::InsufficientSpace))
            &&& (res matches Ok(r) ==> {
                &&& r@ == sizes@.update(index as int, (sizes[index as int] + delta_units) as u32).update(
                    adj,
                    (sizes[adj] - delta_units) as u32,
                )
                &&& sum_units(r@) == TOTAL_UNITS
                &&& forall|i: int| 0 <= i < r@.len() ==> r@[i] <= TOTAL_UNITS
            })
        },
{
    if sizes.len() == 1 {
        return Err(LayoutError::InsufficientSpace);
    }
    let adj: usize = if index + 1 < sizes.len() {
        index + 1
    } else {
        index - 1
    };
    let a: i64 = sizes[index] as i64 + delta_units as i64;
    let b: i64 = sizes[adj] as i64 - delta_units as i64;
    if a < 0 || a > TOTAL_UNITS as i64 || b < 0 || b > TOTAL_UNITS as i64 {
        return Err(LayoutError::InsufficientSpace);
    }
    let mut r = copy_all(sizes);
    r[index] = a as u32;
    r[adj] = b as u32;
    proof {
        lemma_sum_update(sizes@, index as int, a as u32);
        lemma_sum_update(sizes@.update(index as int, a as u32), adj as int, b as u32);
    }
    Ok(r)
}

/// A plain element-wise copy of a share vector.
pub fn copy_all(sizes: &Vec<u32>) -> (r: Vec<u32>)
    ensures
        r@ == sizes@,
{
    let mut r: Vec<u32> = Vec::new();
    let mut j: usize = 0;
    while j < sizes.len()
        invariant
            0 <= j <= sizes.len(),
            r@ == sizes@.take(j as int),
        decreases sizes.len() - j,
    {
        proof {
            assert(sizes@.take(j + 1) =~= sizes@.take(j as int).push(sizes@[j as int]));
        }
        r.push(sizes[j]);
        j = j + 1;
    }
    proof {
        assert(sizes@.take(sizes@.len() as int) =~= sizes@);
    }
    r
}

} // verus!
