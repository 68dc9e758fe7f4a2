use vstd::prelude::*;

use crate::geometry::{Rect, RectModel};
use crate::node::{
    bag, lemma_bag_concat, lemma_bag_empty, lemma_bag_push, lemma_bag_remove, lemma_child_mbr, node_ok, objects_of,
    DirectoryNodeData, RTreeNode,
};
use crate::object::SpatialObject;
use crate::options::RTreeOptions;

verus! {

/// For one top-level insertion: which depths already had a forced
/// reinsertion.
pub struct InsertionState {
    pub reinsertions: Vec<bool>,
}

/// Number of depths that may still get a forced reinsertion.
pub open spec fn open_levels(s: Seq<bool>) -> nat
    decreases s.len(),
{
    if s.len() == 0 {
        0
    } else {
        open_levels(s.drop_last()) + if s.last() {
            0nat
        } else {
            1nat
        }
    }
}

pub proof fn lemma_open_levels_bound(s: Seq<bool>)
    ensures
        open_levels(s) <= s.len(),
    decreases s.len(),
{
    if s.len() > 0 {
        lemma_open_levels_bound(s.drop_last());
    }
}

proof fn lemma_open_levels_mark(s: Seq<bool>, i: int)
    requires
        0 <= i < s.len(),
        !s[i],
    ensures
        open_levels(s.update(i, true)) + 1 == open_levels(s),
    decreases s.len(),
{
    if i < s.len() - 1 {
        assert(s.update(i, true).drop_last() =~= s.drop_last().update(i, true));
        lemma_open_levels_mark(s.drop_last(), i);
    } else {
        assert(s.update(i, true).drop_last() =~= s.drop_last());
    }
}

impl InsertionState {
    /// No depth below `max_depth` has had a reinsertion yet.
    pub fn new(max_depth: usize) -> (r: InsertionState)
        ensures
            r.reinsertions@ == Seq::new(max_depth as nat, |i: int| false),
    {
        let mut reinsertions: Vec<bool> = Vec::with_capacity(max_depth);
        let mut i: usize = 0;
        while i < max_depth
            invariant
                i <= max_depth,
                reinsertions@ == Seq::new(i as nat, |j: int| false),
            decreases max_depth - i,
        {
            reinsertions.push(false);
            i += 1;
            assert(reinsertions@ =~= Seq::new(i as nat, |j: int| false));
        }
        InsertionState { reinsertions }
    }

    /// Whether `depth` may not get a forced reinsertion any more: it already
    /// had one, or it lies above the depths this state was made for (a level
    /// that a root split added during the same insertion).
    pub fn did_reinsert(&self, depth: usize) -> (r: bool)
        ensures
            r == (depth >= self.reinsertions@.len() || self.reinsertions@[depth as int]),
    {
        if depth < self.reinsertions.len() {
            self.reinsertions[depth]
        } else {
            true
        }
    }

    pub fn mark_reinsertion(&mut self, depth: usize)
        requires
            depth < old(self).reinsertions@.len(),
        ensures
            final(self).reinsertions@ == old(self).reinsertions@.update(depth as int, true),
    {
        self.reinsertions.set(depth, true);
    }
}

/// What an insertion into a directory hands back to its caller.
pub enum InsertionResult<T> {
    /// The subtree was placed.
    Complete,
    /// The directory split; this is its new sibling at the same depth.
    Split(RTreeNode<T>),
    /// These subtrees were ejected and must be inserted again.
    Reinsert(Vec<RTreeNode<T>>),
}

/// A subtree that can be handed to an insertion: a leaf, or a nonempty
/// well-formed directory.
pub open spec fn subtree_ok<T: SpatialObject>(t: RTreeNode<T>, opts: RTreeOptions) -> bool {
    match t {
        RTreeNode::Leaf(_) => true,
        RTreeNode::DirectoryNode(d) => d.children.len() > 0 && d.wf(opts),
    }
}

/// The children fit below a directory of this depth, except perhaps for the
/// count and the cached rectangle.
pub open spec fn all_ok<T: SpatialObject>(depth: usize, opts: RTreeOptions, cs: Seq<RTreeNode<T>>) -> bool {
    forall|i: int| 0 <= i < cs.len() ==> node_ok(depth, opts, #[trigger] cs[i])
}

/// Sum of the side lengths of `r` over its first `m` axes.
pub open spec fn side_sum(r: RectModel, m: nat) -> int
    decreases m,
{
    if m == 0 {
        0
    } else {
        side_sum(r, (m - 1) as nat) + (r.upper[m - 1] - r.lower[m - 1])
    }
}

/// Half the perimeter of `r`: the sum of its side lengths.
pub open spec fn half_margin_spec(r: RectModel) -> int {
    side_sum(r, r.dim())
}

/// The union of the rectangles of `cs[lo..hi]` (`lo < hi`).
pub open spec fn union_of<T: SpatialObject>(cs: Seq<RTreeNode<T>>, lo: int, hi: int) -> RectModel
    decreases hi - lo,
{
    if hi <= lo + 1 {
        cs[lo].mbr_spec()
    } else {
        union_of(cs, lo, hi - 1).union_spec(cs[hi - 1].mbr_spec())
    }
}

/// Sum of the half margins of the two halves when `cs` is cut before `k`.
pub open spec fn cut_margin<T: SpatialObject>(cs: Seq<RTreeNode<T>>, k: int) -> int {
    half_margin_spec(union_of(cs, 0, k)) + half_margin_spec(union_of(cs, k, cs.len() as int))
}

/// Least `cut_margin` over the cuts `lo..=k`.
pub open spec fn best_cut_margin<T: SpatialObject>(cs: Seq<RTreeNode<T>>, lo: int, k: int) -> int
    decreases k - lo,
{
    if k <= lo {
        cut_margin(cs, lo)
    } else {
        let a = best_cut_margin(cs, lo, k - 1);
        let b = cut_margin(cs, k);
        if b < a {
            b
        } else {
            a
        }
    }
}

/// The score of cutting `cs` before `k`: the area where the two halves
/// overlap, then their total area (capped at `u128::MAX`).
pub open spec fn split_score<T: SpatialObject>(cs: Seq<RTreeNode<T>>, k: int) -> (int, int) {
    let a = union_of(cs, 0, k);
    let b = union_of(cs, k, cs.len() as int);
    (overlap_spec(a, b), sat_add(area_spec(a), area_spec(b)))
}

/// `a < b` in lexicographic order.
pub open spec fn lt2(a: (int, int), b: (int, int)) -> bool {
    a.0 < b.0 || (a.0 == b.0 && a.1 < b.1)
}

/// The first cut among `lo..=k` with the least `split_score`.
pub open spec fn first_best_cut<T: SpatialObject>(cs: Seq<RTreeNode<T>>, lo: int, k: int) -> int
    decreases k - lo,
{
    if k <= lo {
        lo
    } else {
        let b = first_best_cut(cs, lo, k - 1);
        if lt2(split_score(cs, k), split_score(cs, b)) {
            k
        } else {
            b
        }
    }
}

/// Where a split cuts `cs`: the first legal cut (`min <= k <= len - min`)
/// with the least `split_score`; `min` when there is no legal cut.
pub open spec fn split_cut<T: SpatialObject>(cs: Seq<RTreeNode<T>>, min: int) -> int {
    if min <= cs.len() - min {
        first_best_cut(cs, min, cs.len() - min)
    } else {
        min
    }
}

/// The best sum of half margins over the legal cuts of `cs`
/// (`min <= k <= len - min`); `None` when there is no legal cut.
pub open spec fn axis_margin<T: SpatialObject>(cs: Seq<RTreeNode<T>>, min: int) -> Option<int> {
    if min <= cs.len() - min {
        Some(best_cut_margin(cs, min, cs.len() - min))
    } else {
        None
    }
}

/// The first of the first `m` axes with the least value, and that value;
/// axes without a value are passed over, and axis 0 is the answer when none
/// has one.
pub open spec fn best_axis(vals: Seq<Option<int>>, m: nat) -> (int, Option<int>)
    decreases m,
{
    if m == 0 {
        (0, None)
    } else {
        let prev = best_axis(vals, (m - 1) as nat);
        match vals[m - 1] {
            None => prev,
            Some(x) => if prev.1 is None || x < prev.1->0 {
                ((m - 1) as int, Some(x))
            } else {
                prev
            },
        }
    }
}

/// The best legal-cut margin of each of the orders in `sorted`.
pub open spec fn axis_margins<T: SpatialObject>(sorted: Seq<Seq<RTreeNode<T>>>, min: int) -> Seq<Option<int>> {
    Seq::new(sorted.len(), |a: int| axis_margin(sorted[a], min))
}

proof fn lemma_best_axis_prefix(v1: Seq<Option<int>>, v2: Seq<Option<int>>, m: nat)
    requires
        m <= v1.len(),
        m <= v2.len(),
        forall|i: int| 0 <= i < m ==> v1[i] == v2[i],
    ensures
        best_axis(v1, m) == best_axis(v2, m),
    decreases m,
{
    if m > 0 {
        lemma_best_axis_prefix(v1, v2, (m - 1) as nat);
    }
}

/// The children's rectangles ordered by their lower corner on axis `a`.
pub open spec fn sorted_on_axis<T: SpatialObject>(cs: Seq<RTreeNode<T>>, a: int) -> bool {
    forall|i: int, j: int|
        0 <= i <= j < cs.len() ==> (#[trigger] cs[i]).mbr_spec().lower[a] <= (#[trigger] cs[j]).mbr_spec().lower[a]
}

/// Sort key of a child along axis `a`: its lower corner, shifted to be
/// nonnegative.
pub open spec fn lower_key<T: SpatialObject>(c: RTreeNode<T>, a: int) -> int {
    c.mbr_spec().lower[a] + 0x8000_0000
}

/// `x` capped at `u128::MAX`.
pub open spec fn sat(x: int) -> int {
    if x > u128::MAX {
        u128::MAX as int
    } else {
        x
    }
}

/// Squared distance over the first `m` axes between the doubled centre of
/// `b` and the doubled centre `c2`, saturating at `u128::MAX` as it adds up.
pub open spec fn center_dist_prefix(b: RectModel, c2: Seq<i64>, m: nat) -> int
    decreases m,
{
    if m == 0 {
        0
    } else {
        let d = b.lower[m - 1] + b.upper[m - 1] - c2[m - 1];
        sat(center_dist_prefix(b, c2, (m - 1) as nat) + d * d)
    }
}

/// The centre of `b` in doubled coordinates (`lower + upper` on each axis).
pub open spec fn doubled_center(b: RectModel) -> Seq<i64> {
    Seq::new(b.dim(), |k: int| (b.lower[k] + b.upper[k]) as i64)
}

/// Sort key of a child for forced reinsertion: the squared distance from
/// its centre to the centre `c2 / 2`, in doubled coordinates.
pub open spec fn center_key<T: SpatialObject>(c: RTreeNode<T>, c2: Seq<i64>) -> int {
    center_dist_prefix(c.mbr_spec(), c2, c2.len())
}

/// `a * b` capped at `u128::MAX`.
pub open spec fn sat_mul(a: int, b: int) -> int {
    if a * b > u128::MAX {
        u128::MAX as int
    } else {
        a * b
    }
}

/// `a + b` capped at `u128::MAX`.
pub open spec fn sat_add(a: int, b: int) -> int {
    sat(a + b)
}

/// `a - b`, or zero when that is negative.
pub open spec fn sat_sub(a: int, b: int) -> int {
    if a - b < 0 {
        0
    } else {
        a - b
    }
}

/// Product of the side lengths of `r` over its first `m` axes, capped at
/// `u128::MAX` as it multiplies up.
pub open spec fn area_prefix(r: RectModel, m: nat) -> int
    decreases m,
{
    if m == 0 {
        1
    } else {
        sat_mul(area_prefix(r, (m - 1) as nat), r.upper[m - 1] - r.lower[m - 1])
    }
}

/// The area (volume) of `r`, capped at `u128::MAX`.
pub open spec fn area_spec(r: RectModel) -> int {
    area_prefix(r, r.dim())
}

/// Length of the common part of `a` and `b` on axis `k`; negative when
/// they do not meet there.
pub open spec fn overlap_side(a: RectModel, b: RectModel, k: int) -> int {
    (if a.upper[k] <= b.upper[k] {
        a.upper[k]
    } else {
        b.upper[k]
    }) - (if a.lower[k] >= b.lower[k] {
        a.lower[k]
    } else {
        b.lower[k]
    })
}

pub open spec fn overlap_prefix(a: RectModel, b: RectModel, m: nat) -> int
    decreases m,
{
    if m == 0 {
        1
    } else {
        sat_mul(overlap_prefix(a, b, (m - 1) as nat), overlap_side(a, b, m - 1))
    }
}

/// The area of the intersection of `a` and `b` (zero when they do not
/// meet), capped at `u128::MAX`.
pub open spec fn overlap_spec(a: RectModel, b: RectModel) -> int {
    if exists|k: int| 0 <= k < a.dim() && overlap_side(a, b, k) < 0 {
        0
    } else {
        overlap_prefix(a, b, a.dim())
    }
}

/// Sum over the first `m` children but child `i` of their overlap with `x`,
/// capped at `u128::MAX` as it adds up.
pub open spec fn overlap_sum<T: SpatialObject>(cs: Seq<RTreeNode<T>>, x: RectModel, i: int, m: nat) -> int
    decreases m,
{
    if m == 0 {
        0
    } else if m - 1 == i {
        overlap_sum(cs, x, i, (m - 1) as nat)
    } else {
        sat_add(overlap_sum(cs, x, i, (m - 1) as nat), overlap_spec(x, cs[m - 1].mbr_spec()))
    }
}

/// The score of child `i` for a subtree with rectangle `ins` when no child
/// contains it: (overlap increase, area increase, area) of the child's
/// rectangle enlarged to cover `ins`. The overlap increase is counted only
/// when `leaves` holds and is zero otherwise.
pub open spec fn subtree_score<T: SpatialObject>(cs: Seq<RTreeNode<T>>, ins: RectModel, i: int, leaves: bool) -> (int, int, int) {
    let m = cs[i].mbr_spec();
    let e = m.union_spec(ins);
    let a = area_spec(e);
    (
        if leaves {
            sat_sub(overlap_sum(cs, e, i, cs.len()), overlap_sum(cs, m, i, cs.len()))
        } else {
            0
        },
        sat_sub(a, area_spec(m)),
        a,
    )
}

/// Whether choosing a subtree below a directory of this depth counts
/// overlap: only when the children's children are leaves.
pub open spec fn counts_overlap(depth: usize) -> bool {
    depth <= 2
}

/// `a < b` in lexicographic order.
pub open spec fn lex_lt(a: (int, int, int), b: (int, int, int)) -> bool {
    a.0 < b.0 || (a.0 == b.0 && (a.1 < b.1 || (a.1 == b.1 && a.2 < b.2)))
}

/// Length of the side of `r` on axis `k`.
fn side(r: &Rect, k: usize) -> (s: u128)
    requires
        r@.wf(r@.dim()),
        k < r@.dim(),
    ensures
        s == r@.upper[k as int] - r@.lower[k as int],
        s < 0x1_0000_0000,
{
    (r.upper[k] as i64 - r.lower[k] as i64) as u128
}


/// Product of the sides of `r`, saturating at `u128::MAX`.
fn area(r: &Rect) -> (a: u128)
    requires
        r@.wf(r@.dim()),
    ensures
        a == area_spec(r@),
{
    let mut a: u128 = 1;
    let mut k: usize = 0;
    while k < r.lower.len()
        invariant
            r@.wf(r@.dim()),
            k <= r@.dim(),
            a == area_prefix(r@, k as nat),
        decreases r@.dim() - k,
    {
        let s = side(r, k);
        a = match a.checked_mul(s) {
            Some(v) => v,
            None => u128::MAX,
        };
        k += 1;
    }
    a
}

/// Sum of the sides of `r`.
fn half_margin(r: &Rect) -> (m: u128)
    requires
        r@.wf(r@.dim()),
    ensures
        m == half_margin_spec(r@),
        m <= 0x1_0000_0000_0000_0000_0000_0000,
{
    let mut m: u128 = 0;
    let mut k: usize = 0;
    while k < r.lower.len()
        invariant
            r@.wf(r@.dim()),
            k <= r@.dim(),
            m == side_sum(r@, k as nat),
            m <= k * 0x1_0000_0000,
        decreases r@.dim() - k,
    {
        let s = side(r, k);
        assert(m + s <= (k + 1) * 0x1_0000_0000);
        assert((k + 1) * 0x1_0000_0000 <= 0x1_0000_0000_0000_0000_0000_0000) by (nonlinear_arith)
            requires
                k < usize::MAX,
        ;
        m = m + s;
        k += 1;
    }
    m
}

/// Area of the intersection of `a` and `b`; zero where they do not overlap.
fn overlap_area(a: &Rect, b: &Rect) -> (r: u128)
    requires
        a@.wf(a@.dim()),
        b@.wf(a@.dim()),
    ensures
        r == overlap_spec(a@, b@),
{
    let mut v: u128 = 1;
    let mut k: usize = 0;
    while k < a.lower.len()
        invariant
            a@.wf(a@.dim()),
            b@.wf(a@.dim()),
            k <= a@.dim(),
            v == overlap_prefix(a@, b@, k as nat),
            forall|j: int| 0 <= j < k ==> overlap_side(a@, b@, j) >= 0,
        decreases a@.dim() - k,
    {
        let lo = if a.lower[k] >= b.lower[k] {
            a.lower[k]
        } else {
            b.lower[k]
        };
        let hi = if a.upper[k] <= b.upper[k] {
            a.upper[k]
        } else {
            b.upper[k]
        };
        if hi < lo {
            assert(overlap_side(a@, b@, k as int) < 0);
            return 0;
        }
        let s: u128 = (hi as i64 - lo as i64) as u128;
        v = match v.checked_mul(s) {
            Some(x) => x,
            None => u128::MAX,
        };
        k += 1;
    }
    assert(!exists|j: int| 0 <= j < a@.dim() && overlap_side(a@, b@, j) < 0);
    v
}

/// The union of the rectangles of `cs[lo..hi]`.
fn mbr_of_range<T: SpatialObject>(cs: &Vec<RTreeNode<T>>, lo: usize, hi: usize, Ghost(depth): Ghost<usize>, Ghost(opts): Ghost<RTreeOptions>) -> (r: Rect)
    requires
        lo < hi <= cs@.len(),
        all_ok(depth, opts, cs@),
    ensures
        r@.wf(T::dim_spec()),
        r@ == union_of(cs@, lo as int, hi as int),
{
    proof {
        lemma_child_mbr(depth, opts, cs@[lo as int]);
    }
    let mut b = cs[lo].mbr();
    let mut i: usize = lo + 1;
    while i < hi
        invariant
            lo < i <= hi <= cs@.len(),
            all_ok(depth, opts, cs@),
            b@.wf(T::dim_spec()),
            b@ == union_of(cs@, lo as int, i as int),
        decreases hi - i,
    {
        proof {
            lemma_child_mbr(depth, opts, cs@[i as int]);
        }
        let c = cs[i].mbr();
        b.add_rect(&c);
        i += 1;
    }
    b
}

/// Reorders `cs` by ascending key (selection of the smallest remaining key,
/// earliest first among equal keys).
fn sort_by_keys<T: SpatialObject>(cs: Vec<RTreeNode<T>>, keys: Vec<u128>, Ghost(depth): Ghost<usize>, Ghost(opts): Ghost<RTreeOptions>, Ghost(key): Ghost<spec_fn(RTreeNode<T>) -> int>) -> (r: Vec<RTreeNode<T>>)
    requires
        cs@.len() == keys@.len(),
        all_ok(depth, opts, cs@),
        forall|i: int| 0 <= i < cs@.len() ==> keys@[i] == key(#[trigger] cs@[i]),
    ensures
        r@.len() == cs@.len(),
        all_ok(depth, opts, r@),
        bag(objects_of(r@)) == bag(objects_of(cs@)),
        r@.to_multiset() == cs@.to_multiset(),
        forall|a: int, b: int| 0 <= a <= b < r@.len() ==> key(#[trigger] r@[a]) <= key(#[trigger] r@[b]),
{
    let mut rest = cs;
    let mut ks = keys;
    let mut out: Vec<RTreeNode<T>> = Vec::new();
    proof {
        lemma_bag_empty::<T>();
        assert(out@ =~= Seq::<RTreeNode<T>>::empty());
        assert(bag(objects_of(out@)).add(bag(objects_of(rest@))) =~= bag(objects_of(cs@)));
        broadcast use vstd::seq_lib::group_to_multiset_ensures;
        broadcast use vstd::multiset::group_multiset_axioms;

        assert(out@.to_multiset().add(rest@.to_multiset()) =~= cs@.to_multiset());
    }
    while rest.len() > 0
        invariant
            out@.to_multiset().add(rest@.to_multiset()) == cs@.to_multiset(),
            rest@.len() == ks@.len(),
            out@.len() + rest@.len() == cs@.len(),
            all_ok(depth, opts, rest@),
            all_ok(depth, opts, out@),
            bag(objects_of(out@)).add(bag(objects_of(rest@))) == bag(objects_of(cs@)),
            forall|i: int| 0 <= i < rest@.len() ==> ks@[i] == key(#[trigger] rest@[i]),
            forall|a: int, b: int| 0 <= a <= b < out@.len() ==> key(#[trigger] out@[a]) <= key(#[trigger] out@[b]),
            forall|a: int, b: int|
                0 <= a < out@.len() && 0 <= b < rest@.len() ==> key(#[trigger] out@[a]) <= key(#[trigger] rest@[b]),
        decreases rest@.len(),
    {
        let mut m: usize = 0;
        let mut j: usize = 1;
        while j < ks.len()
            invariant
                rest@.len() == ks@.len(),
                0 <= m < j <= ks@.len(),
                forall|q: int| 0 <= q < j ==> ks@[m as int] <= #[trigger] ks@[q],
            decreases ks@.len() - j,
        {
            if ks[j] < ks[m] {
                m = j;
            }
            j += 1;
        }
        let ghost old_rest = rest@;
        let ghost old_out = out@;
        let ghost old_ks = ks@;
        let c = rest.remove(m);
        ks.remove(m);
        out.push(c);
        proof {
            lemma_bag_remove(old_rest, m as int);
            {
                broadcast use vstd::multiset::group_multiset_axioms;

                vstd::seq_lib::to_multiset_remove(old_rest, m as int);
                vstd::seq_lib::to_multiset_build(old_out, c);
                assert(old_rest.to_multiset().count(c) > 0) by {
                    broadcast use vstd::seq_lib::group_to_multiset_ensures;

                    assert(old_rest.contains(c));
                }
                assert(out@.to_multiset().add(rest@.to_multiset()) =~= cs@.to_multiset());
            }
            lemma_bag_push(old_out, c);
            assert(all_ok(depth, opts, rest@)) by {
                assert forall|i: int| 0 <= i < rest@.len() implies node_ok(depth, opts, #[trigger] rest@[i]) by {
                    if i < m {
                        assert(rest@[i] == old_rest[i]);
                    } else {
                        assert(rest@[i] == old_rest[i + 1]);
                    }
                }
            }
            assert(all_ok(depth, opts, out@)) by {
                assert forall|i: int| 0 <= i < out@.len() implies node_ok(depth, opts, #[trigger] out@[i]) by {
                    if i < old_out.len() {
                        assert(out@[i] == old_out[i]);
                    }
                }
            }
            assert(bag(objects_of(out@)).add(bag(objects_of(rest@))) =~= bag(objects_of(cs@)));
            assert forall|i: int| 0 <= i < rest@.len() implies ks@[i] == key(#[trigger] rest@[i]) by {
                if i < m {
                    assert(rest@[i] == old_rest[i]);
                } else {
                    assert(rest@[i] == old_rest[i + 1]);
                }
            }
            assert forall|a: int, b: int| 0 <= a <= b < out@.len() implies key(#[trigger] out@[a]) <= key(
                #[trigger] out@[b],
            ) by {
                if b == old_out.len() {
                    if a < b {
                        assert(out@[a] == old_out[a]);
                    }
                } else {
                    assert(out@[a] == old_out[a]);
                    assert(out@[b] == old_out[b]);
                }
            }
            assert forall|a: int, b: int|
                0 <= a < out@.len() && 0 <= b < rest@.len() implies key(#[trigger] out@[a]) <= key(
                #[trigger] rest@[b],
            ) by {
                let ob = if b < m { b } else { b + 1 };
                assert(rest@[b] == old_rest[ob]);
                if a < old_out.len() {
                    assert(out@[a] == old_out[a]);
                }
            }
        }
    }
    proof {
        assert(rest@ =~= Seq::<RTreeNode<T>>::empty());
        lemma_bag_empty::<T>();
        assert(bag(objects_of(out@)) =~= bag(objects_of(cs@)));
        broadcast use vstd::seq_lib::group_to_multiset_ensures;
        broadcast use vstd::multiset::group_multiset_axioms;

        assert(rest@.to_multiset() =~= vstd::multiset::Multiset::<RTreeNode<T>>::empty());
        assert(out@.to_multiset() =~= cs@.to_multiset());
    }
    out
}

/// Lower corner of each child's rectangle on `axis`, shifted to be
/// nonnegative so that it orders as the coordinate does.
fn lower_keys<T: SpatialObject>(cs: &Vec<RTreeNode<T>>, axis: usize, Ghost(depth): Ghost<usize>, Ghost(opts): Ghost<RTreeOptions>) -> (r: Vec<u128>)
    requires
        all_ok(depth, opts, cs@),
        axis < T::dim_spec(),
    ensures
        r@.len() == cs@.len(),
        forall|i: int| 0 <= i < cs@.len() ==> r@[i] == lower_key(#[trigger] cs@[i], axis as int),
{
    let mut keys: Vec<u128> = Vec::new();
    let mut i: usize = 0;
    while i < cs.len()
        invariant
            all_ok(depth, opts, cs@),
            axis < T::dim_spec(),
            i <= cs@.len(),
            keys@.len() == i,
            forall|q: int| 0 <= q < i ==> keys@[q] == lower_key(#[trigger] cs@[q], axis as int),
        decreases cs@.len() - i,
    {
        proof {
            lemma_child_mbr(depth, opts, cs@[i as int]);
        }
        let b = cs[i].mbr();
        keys.push((b.lower[axis] as i64 + 0x8000_0000i64) as u128);
        i += 1;
    }
    keys
}

/// Squared distance between the doubled centres of each child's rectangle
/// and of `center2` (a doubled centre), saturating at `u128::MAX`.
fn center_keys<T: SpatialObject>(cs: &Vec<RTreeNode<T>>, center2: &Vec<i64>, Ghost(depth): Ghost<usize>, Ghost(opts): Ghost<RTreeOptions>) -> (r: Vec<u128>)
    requires
        all_ok(depth, opts, cs@),
        center2@.len() == T::dim_spec(),
        forall|k: int| 0 <= k < center2@.len() ==> -0x1_0000_0000 <= #[trigger] center2@[k] <= 0x1_0000_0000,
    ensures
        r@.len() == cs@.len(),
        forall|i: int| 0 <= i < cs@.len() ==> r@[i] == center_key(#[trigger] cs@[i], center2@),
{
    let mut keys: Vec<u128> = Vec::new();
    let mut i: usize = 0;
    while i < cs.len()
        invariant
            all_ok(depth, opts, cs@),
            center2@.len() == T::dim_spec(),
            forall|k: int| 0 <= k < center2@.len() ==> -0x1_0000_0000 <= #[trigger] center2@[k] <= 0x1_0000_0000,
            i <= cs@.len(),
            keys@.len() == i,
            forall|q: int| 0 <= q < i ==> keys@[q] == center_key(#[trigger] cs@[q], center2@),
        decreases cs@.len() - i,
    {
        proof {
            lemma_child_mbr(depth, opts, cs@[i as int]);
        }
        let b = cs[i].mbr();
        let mut d: u128 = 0;
        let mut k: usize = 0;
        while k < center2.len()
            invariant
                b@.wf(T::dim_spec()),
                center2@.len() == T::dim_spec(),
                forall|k: int| 0 <= k < center2@.len() ==> -0x1_0000_0000 <= #[trigger] center2@[k] <= 0x1_0000_0000,
                k <= center2@.len(),
                b@ == cs@[i as int].mbr_spec(),
                d == center_dist_prefix(b@, center2@, k as nat),
            decreases center2@.len() - k,
        {
            let c: i64 = b.lower[k] as i64 + b.upper[k] as i64;
            let diff: i64 = c - center2[k];
            let a: u128 = if diff < 0 {
                (-diff) as u128
            } else {
                diff as u128
            };
            assert(a * a <= 0x4_0000_0000 * 0x4_0000_0000) by (nonlinear_arith)
                requires
                    0 <= a <= 0x4_0000_0000,
            ;
            assert(a * a == diff * diff) by (nonlinear_arith)
                requires
                    a == diff || a == -diff,
            ;
            d = d.saturating_add(a * a);
            k += 1;
        }
        keys.push(d);
        i += 1;
    }
    keys
}

impl<T: SpatialObject> DirectoryNodeData<T> {
    /// Sorts the children along every axis in turn (by the lower corner of
    /// their rectangles) and returns the first axis whose best legal cut
    /// gives the smallest sum of half margins, with the sorted orders.
    fn get_split_axis(&mut self) -> (r: (usize, Ghost<Seq<Seq<RTreeNode<T>>>>))
        requires
            old(self).options.valid(),
            old(self).children@.len() == old(self).options.max_size + 1,
            all_ok(old(self).depth, old(self).options, old(self).children@),
        ensures
            r.0 < T::dim_spec() || T::dim_spec() == 0,
            final(self).depth == old(self).depth,
            final(self).options == old(self).options,
            final(self).bounding_box == old(self).bounding_box,
            final(self).children@.len() == old(self).children@.len(),
            all_ok(final(self).depth, final(self).options, final(self).children@),
            bag(objects_of(final(self).children@)) == bag(objects_of(old(self).children@)),
            final(self).children@.to_multiset() == old(self).children@.to_multiset(),
            r.1@.len() == T::dim_spec(),
            forall|a: int|
                0 <= a < T::dim_spec() ==> {
                    &&& (#[trigger] r.1@[a]).len() == old(self).children@.len()
                    &&& r.1@[a].to_multiset() == old(self).children@.to_multiset()
                    &&& all_ok(old(self).depth, old(self).options, r.1@[a])
                    &&& bag(objects_of(r.1@[a])) == bag(objects_of(old(self).children@))
                    &&& sorted_on_axis(r.1@[a], a)
                },
            r.0 == best_axis(axis_margins(r.1@, old(self).options.min_size as int), T::dim_spec()).0,
    {
        let ghost depth = self.depth;
        let ghost opts = self.options;
        let ghost orig = bag(objects_of(self.children@));
        let ghost n = self.children@.len();
        let ghost min_i = opts.min_size as int;
        let dims = T::dimensions();
        let mut best: Option<u128> = None;
        let mut best_axis_found: usize = 0;
        let ghost mut sorted: Seq<Seq<RTreeNode<T>>> = Seq::empty();
        let mut axis: usize = 0;
        while axis < dims
            invariant
                dims == T::dim_spec(),
                axis <= dims,
                best_axis_found < dims || dims == 0,
                self.depth == depth,
                self.options == opts,
                opts.valid(),
                min_i == opts.min_size,
                self.bounding_box == old(self).bounding_box,
                self.children@.len() == n,
                n == opts.max_size + 1,
                all_ok(depth, opts, self.children@),
                bag(objects_of(self.children@)) == orig,
                orig == bag(objects_of(old(self).children@)),
                self.children@.to_multiset() == old(self).children@.to_multiset(),
                n == old(self).children@.len(),
                depth == old(self).depth,
                opts == old(self).options,
                sorted.len() == axis,
                forall|a: int|
                    0 <= a < axis ==> {
                        &&& (#[trigger] sorted[a]).len() == n
                        &&& sorted[a].to_multiset() == old(self).children@.to_multiset()
                        &&& all_ok(depth, opts, sorted[a])
                        &&& bag(objects_of(sorted[a])) == orig
                        &&& sorted_on_axis(sorted[a], a)
                    },
                best_axis_found == best_axis(axis_margins(sorted, min_i), axis as nat).0,
                best is None <==> best_axis(axis_margins(sorted, min_i), axis as nat).1 is None,
                best is Some ==> best->0 == best_axis(axis_margins(sorted, min_i), axis as nat).1->0,
            decreases dims - axis,
        {
            let keys = lower_keys(&self.children, axis, Ghost(depth), Ghost(opts));
            let mut cs: Vec<RTreeNode<T>> = Vec::new();
            core::mem::swap(&mut cs, &mut self.children);
            self.children = sort_by_keys(cs, keys, Ghost(depth), Ghost(opts), Ghost(|c: RTreeNode<T>| lower_key(c, axis as int)));
            let ghost cur = self.children@;
            let ghost old_sorted = sorted;
            proof {
                sorted = sorted.push(cur);
                assert forall|i: int, j: int| 0 <= i <= j < cur.len() implies (#[trigger] cur[i]).mbr_spec().lower[axis as int]
                    <= (#[trigger] cur[j]).mbr_spec().lower[axis as int] by {
                    assert(lower_key(cur[i], axis as int) <= lower_key(cur[j], axis as int));
                }
                assert forall|a: int| 0 <= a < axis implies sorted[a] == old_sorted[a] by {}
                lemma_best_axis_prefix(axis_margins(old_sorted, min_i), axis_margins(sorted, min_i), axis as nat);
                assert(axis_margins(sorted, min_i)[axis as int] == axis_margin(cur, min_i));
            }
            let len = self.children.len();
            let min = self.options.min_size;
            if min <= len - min {
                let mut ax_best: u128 = 0;
                let mut k: usize = min;
                while k <= len - min
                    invariant
                        dims == T::dim_spec(),
                        axis < dims,
                        self.depth == depth,
                        self.options == opts,
                        opts.valid(),
                        min == opts.min_size,
                        len == self.children@.len(),
                        len == opts.max_size + 1,
                        cur == self.children@,
                        min <= k <= len - min + 1,
                        min <= len - min,
                        all_ok(depth, opts, self.children@),
                        k > min ==> ax_best == best_cut_margin(cur, min as int, k - 1),
                    decreases len - k + 1,
                {
                    let first_mbr = mbr_of_range(&self.children, 0, k, Ghost(depth), Ghost(opts));
                    let second_mbr = mbr_of_range(&self.children, k, len, Ghost(depth), Ghost(opts));
                    let margin_value = half_margin(&first_mbr) + half_margin(&second_mbr);
                    if k == min || margin_value < ax_best {
                        ax_best = margin_value;
                    }
                    k += 1;
                }
                if best.is_none() || ax_best < best.unwrap() {
                    best = Some(ax_best);
                    best_axis_found = axis;
                }
            }
            axis += 1;
        }
        (best_axis_found, Ghost(sorted))
    }

    /// The legal cut of the children, in their current order, where the two
    /// halves overlap least, then where their total area is least; the
    /// first such cut among equals.
    fn split_index(&self, Ghost(depth): Ghost<usize>) -> (r: usize)
        requires
            self.options.valid(),
            self.children@.len() == self.options.max_size + 1,
            all_ok(depth, self.options, self.children@),
        ensures
            self.options.min_size <= r <= self.options.max_size,
            self.children@.len() - r <= self.options.max_size,
            2 * self.options.min_size <= self.children@.len() ==> self.children@.len() - r >= self.options.min_size,
            r == split_cut(self.children@, self.options.min_size as int),
    {
        let ghost opts = self.options;
        let len = self.children.len();
        let min = self.options.min_size;
        let mut best_overlap: u128 = 0;
        let mut best_area: u128 = 0;
        let mut best_index: usize = min;
        let mut k: usize = min;
        while k <= len - min
            invariant
                self.options == opts,
                opts.valid(),
                min == opts.min_size,
                len == self.children@.len(),
                len == opts.max_size + 1,
                min <= k,
                min <= best_index,
                best_index <= opts.max_size,
                best_index == min || best_index <= len - min,
                all_ok(depth, opts, self.children@),
                k == min || k <= len - min + 1,
                k == min ==> best_index == min,
                k > min ==> best_index == first_best_cut(self.children@, min as int, k - 1)
                    && (best_overlap as int, best_area as int) == split_score(self.children@, best_index as int),
            decreases len - k + 1,
        {
            let first_mbr = mbr_of_range(&self.children, 0, k, Ghost(depth), Ghost(opts));
            let second_mbr = mbr_of_range(&self.children, k, len, Ghost(depth), Ghost(opts));
            let overlap_value = overlap_area(&first_mbr, &second_mbr);
            let area_value = area(&first_mbr).saturating_add(area(&second_mbr));
            if overlap_value < best_overlap || (overlap_value == best_overlap && area_value
                < best_area) || k == min {
                best_overlap = overlap_value;
                best_area = area_value;
                best_index = k;
            }
            k += 1;
        }
        best_index
    }

    /// Splits an overfull directory: cuts its children, sorted along the
    /// chosen axis, where the two halves overlap least (then where their
    /// total area is least), keeps the left half and returns the right half
    /// as a new directory of the same depth.
    /// The result also carries, as ghost values, the chosen axis, the orders
    /// along every axis that chose it, and the sorted children before the
    /// cut.
    #[verifier::rlimit(100)]
    fn split(&mut self) -> (r: (RTreeNode<T>, Ghost<(usize, Seq<Seq<RTreeNode<T>>>, Seq<RTreeNode<T>>)>))
        requires
            old(self).options.valid(),
            1 <= old(self).depth < usize::MAX,
            old(self).children@.len() == old(self).options.max_size + 1,
            all_ok(old(self).depth, old(self).options, old(self).children@),
        ensures
            final(self).wf(old(self).options),
            final(self).depth == old(self).depth,
            final(self).children@.len() > 0,
            node_ok((old(self).depth + 1) as usize, old(self).options, r.0),
            bag(objects_of(final(self).children@)).add(bag(r.0.objects())) == bag(objects_of(old(self).children@)),
            final(self).children@.len() >= old(self).options.min_size,
            2 * old(self).options.min_size <= old(self).options.max_size + 1 ==> r.0->DirectoryNode_0.children@.len()
                >= old(self).options.min_size,
            // the axis is the one `get_split_axis` chooses
            r.1@.1.len() == T::dim_spec(),
            forall|a: int|
                0 <= a < T::dim_spec() ==> {
                    &&& (#[trigger] r.1@.1[a]).to_multiset() == old(self).children@.to_multiset()
                    &&& sorted_on_axis(r.1@.1[a], a)
                },
            r.1@.0 == best_axis(axis_margins(r.1@.1, old(self).options.min_size as int), T::dim_spec()).0,
            // the children are sorted along that axis and cut where `split_cut` says
            r.1@.2.to_multiset() == old(self).children@.to_multiset(),
            T::dim_spec() > 0 ==> sorted_on_axis(r.1@.2, r.1@.0 as int),
            final(self).children@ + r.0->DirectoryNode_0.children@ == r.1@.2,
            final(self).children@.len() == split_cut(r.1@.2, old(self).options.min_size as int),
    {
        let ghost depth = self.depth;
        let ghost opts = self.options;
        let (axis, orders) = self.get_split_axis();
        if axis < T::dimensions() {
            let keys = lower_keys(&self.children, axis, Ghost(depth), Ghost(opts));
            let mut cs: Vec<RTreeNode<T>> = Vec::new();
            core::mem::swap(&mut cs, &mut self.children);
            self.children = sort_by_keys(cs, keys, Ghost(depth), Ghost(opts), Ghost(|c: RTreeNode<T>| lower_key(c, axis as int)));
            proof {
                let cur = self.children@;
                assert forall|i: int, j: int| 0 <= i <= j < cur.len() implies (#[trigger] cur[i]).mbr_spec().lower[axis as int]
                    <= (#[trigger] cur[j]).mbr_spec().lower[axis as int] by {
                    assert(lower_key(cur[i], axis as int) <= lower_key(cur[j], axis as int));
                }
            }
        }
        let ghost sorted = self.children@;
        let best_index = self.split_index(Ghost(depth));
        let len = self.children.len();
        let ghost whole = self.children@;
        let offsplit = self.children.split_off(best_index);
        proof {
            assert(whole =~= self.children@ + offsplit@);
            lemma_bag_concat(self.children@, offsplit@);
            assert(all_ok(depth, opts, self.children@)) by {
                assert forall|i: int| 0 <= i < self.children@.len() implies node_ok(depth, opts, #[trigger] self.children@[i]) by {
                    assert(self.children@[i] == whole[i]);
                }
            }
            assert(all_ok(depth, opts, offsplit@)) by {
                assert forall|i: int| 0 <= i < offsplit@.len() implies node_ok(depth, opts, #[trigger] offsplit@[i]) by {
                    assert(offsplit@[i] == whole[i + best_index]);
                }
            }
        }
        assert(offsplit@.len() == len - best_index);
        let sibling = DirectoryNodeData::new_parent(offsplit, self.depth, self.options);
        self.update_mbr();
        assert(sibling.children@.len() > 0);
        assert(self.children@ + sibling.children@ =~= sorted);
        (RTreeNode::DirectoryNode(sibling), Ghost((axis, orders@, sorted)))
    }

    /// A directory of the given depth holding `children`, with its rectangle
    /// computed from them.
    pub(crate) fn new_parent(children: Vec<RTreeNode<T>>, depth: usize, options: RTreeOptions) -> (r: DirectoryNodeData<T>)
        requires
            depth >= 1,
            children@.len() <= options.max_size,
            all_ok(depth, options, children@),
        ensures
            r.wf(options),
            r.depth == depth,
            r.children@ == children@,
    {
        let mut result = DirectoryNodeData { bounding_box: None, children, depth, options };
        result.update_mbr();
        result
    }

    /// Ejects the `reinsertion_count` children whose centres lie furthest
    /// from the centre of this directory.
    fn reinsert(&mut self) -> (r: Vec<RTreeNode<T>>)
        requires
            old(self).options.valid(),
            old(self).depth >= 1,
            old(self).children@.len() == old(self).options.max_size + 1,
            old(self).mbr_exact(),
            all_ok(old(self).depth, old(self).options, old(self).children@),
        ensures
            final(self).wf(old(self).options),
            final(self).depth == old(self).depth,
            final(self).children@.len() > 0,
            r@.len() == old(self).options.reinsertion_count,
            all_ok(old(self).depth, old(self).options, r@),
            bag(objects_of(final(self).children@)).add(bag(objects_of(r@))) == bag(objects_of(old(self).children@)),
            forall|i: int, j: int|
                0 <= i < final(self).children@.len() && 0 <= j < r@.len() ==> center_key(
                    #[trigger] final(self).children@[i],
                    doubled_center(old(self).bounding_box->0@),
                ) <= center_key(#[trigger] r@[j], doubled_center(old(self).bounding_box->0@)),
    {
        let ghost depth = self.depth;
        let ghost opts = self.options;
        let bb = self.bounding_box.as_ref().unwrap();
        let mut center2: Vec<i64> = Vec::new();
        let mut k: usize = 0;
        while k < bb.lower.len()
            invariant
                bb@.wf(T::dim_spec()),
                k <= bb@.dim(),
                center2@.len() == k,
                forall|j: int| 0 <= j < center2@.len() ==> -0x1_0000_0000 <= #[trigger] center2@[j] <= 0x1_0000_0000,
                forall|j: int| 0 <= j < k ==> #[trigger] center2@[j] == bb@.lower[j] + bb@.upper[j],
            decreases bb@.dim() - k,
        {
            center2.push(bb.lower[k] as i64 + bb.upper[k] as i64);
            k += 1;
        }
        assert(center2@ =~= doubled_center(bb@));
        let keys = center_keys(&self.children, &center2, Ghost(depth), Ghost(opts));
        let mut cs: Vec<RTreeNode<T>> = Vec::new();
        core::mem::swap(&mut cs, &mut self.children);
        self.children = sort_by_keys(cs, keys, Ghost(depth), Ghost(opts), Ghost(|c: RTreeNode<T>| center_key(c, center2@)));
        let num_children = self.children.len();
        let ghost whole = self.children@;
        let result = self.children.split_off(num_children - self.options.reinsertion_count);
        proof {
            assert(whole =~= self.children@ + result@);
            lemma_bag_concat(self.children@, result@);
            assert(all_ok(depth, opts, self.children@)) by {
                assert forall|i: int| 0 <= i < self.children@.len() implies node_ok(depth, opts, #[trigger] self.children@[i]) by {
                    assert(self.children@[i] == whole[i]);
                }
            }
            assert(all_ok(depth, opts, result@)) by {
                assert forall|i: int| 0 <= i < result@.len() implies node_ok(depth, opts, #[trigger] result@[i]) by {
                    assert(result@[i] == whole[i + self.children@.len()]);
                }
            }
            assert forall|i: int, j: int|
                0 <= i < self.children@.len() && 0 <= j < result@.len() implies center_key(
                    #[trigger] self.children@[i],
                    center2@,
                ) <= center_key(#[trigger] result@[j], center2@) by {
                assert(self.children@[i] == whole[i]);
                assert(result@[j] == whole[j + self.children@.len()]);
            }
        }
        self.update_mbr();
        result
    }
}

/// `(a0, a1, a2) < (b0, b1, b2)` in lexicographic order.
fn lex_less(a0: u128, a1: u128, a2: u128, b0: u128, b1: u128, b2: u128) -> (r: bool)
    ensures
        r == lex_lt((a0 as int, a1 as int, a2 as int), (b0 as int, b1 as int, b2 as int)),
{
    a0 < b0 || (a0 == b0 && (a1 < b1 || (a1 == b1 && a2 < b2)))
}

impl<T: SpatialObject> DirectoryNodeData<T> {
    /// The child to descend into with a subtree whose rectangle is
    /// `insertion_mbr`: among the children already containing it, the one of
    /// least area; otherwise the least by (overlap increase, area increase,
    /// area), where the overlap increase is only computed when the children
    /// hold leaves and is zero otherwise. The first of equals wins.
    fn choose_subtree(&self, insertion_mbr: &Rect) -> (r: usize)
        requires
            self.depth >= 2,
            self.children@.len() > 0,
            all_ok(self.depth, self.options, self.children@),
            insertion_mbr@.wf(T::dim_spec()),
        ensures
            r < self.children@.len(),
            (exists|i: int|
                0 <= i < self.children@.len() && (#[trigger] self.children@[i]).mbr_spec().contains_rect_spec(
                    insertion_mbr@,
                )) ==> {
                &&& self.children@[r as int].mbr_spec().contains_rect_spec(insertion_mbr@)
                &&& forall|i: int|
                    0 <= i < self.children@.len() && (#[trigger] self.children@[i]).mbr_spec().contains_rect_spec(
                        insertion_mbr@,
                    ) ==> area_spec(self.children@[r as int].mbr_spec()) <= area_spec(self.children@[i].mbr_spec())
                        && (i < r ==> area_spec(self.children@[r as int].mbr_spec()) < area_spec(
                        self.children@[i].mbr_spec(),
                    ))
            },
            (forall|i: int|
                0 <= i < self.children@.len() ==> !(#[trigger] self.children@[i]).mbr_spec().contains_rect_spec(
                    insertion_mbr@,
                )) ==> forall|i: int|
                0 <= i < self.children@.len() ==> !lex_lt(
                    #[trigger] subtree_score(self.children@, insertion_mbr@, i, counts_overlap(self.depth)),
                    subtree_score(self.children@, insertion_mbr@, r as int, counts_overlap(self.depth)),
                ) && (i < r ==> lex_lt(
                    subtree_score(self.children@, insertion_mbr@, r as int, counts_overlap(self.depth)),
                    subtree_score(self.children@, insertion_mbr@, i, counts_overlap(self.depth)),
                )),
    {
        let ghost depth = self.depth;
        let ghost opts = self.options;
        let n = self.children.len();
        let mut inclusion_count: usize = 0;
        let mut min_area: u128 = 0;
        let mut min_index: usize = 0;
        let mut first = true;
        let mut index: usize = 0;
        while index < n
            invariant
                n == self.children@.len(),
                all_ok(depth, opts, self.children@),
                depth == self.depth,
                opts == self.options,
                insertion_mbr@.wf(T::dim_spec()),
                index <= n,
                min_index < n,
                inclusion_count <= index,
                inclusion_count > 0 ==> self.children@[min_index as int].mbr_spec().contains_rect_spec(
                    insertion_mbr@,
                ) && min_index < index && min_area == area_spec(self.children@[min_index as int].mbr_spec()),
                inclusion_count > 0 ==> forall|i: int|
                    0 <= i < index && (#[trigger] self.children@[i]).mbr_spec().contains_rect_spec(insertion_mbr@)
                        ==> min_area <= area_spec(self.children@[i].mbr_spec()) && (i < min_index ==> min_area
                        < area_spec(self.children@[i].mbr_spec())),
                inclusion_count == 0 ==> forall|i: int|
                    0 <= i < index ==> !(#[trigger] self.children@[i]).mbr_spec().contains_rect_spec(
                        insertion_mbr@,
                    ),
                first <==> inclusion_count == 0,
            decreases n - index,
        {
            proof {
                lemma_child_mbr(depth, opts, self.children@[index as int]);
            }
            let mbr = self.children[index].mbr();
            if mbr.contains_rect(insertion_mbr) {
                inclusion_count += 1;
                let a = area(&mbr);
                if a < min_area || first {
                    min_area = a;
                    min_index = index;
                    first = false;
                }
            }
            index += 1;
        }
        if inclusion_count == 0 {
            let all_leaves = self.depth <= 2;
            let mut min0: u128 = 0;
            let mut min1: u128 = 0;
            let mut min2: u128 = 0;
            let mut index: usize = 0;
            while index < n
                invariant
                    n == self.children@.len(),
                    all_ok(depth, opts, self.children@),
                    depth == self.depth,
                    opts == self.options,
                    insertion_mbr@.wf(T::dim_spec()),
                    index <= n,
                    min_index < n,
                    forall|i: int|
                        0 <= i < n ==> !(#[trigger] self.children@[i]).mbr_spec().contains_rect_spec(
                            insertion_mbr@,
                        ),
                    all_leaves == counts_overlap(depth),
                    index > 0 ==> min_index < index && (min0 as int, min1 as int, min2 as int) == subtree_score(
                        self.children@,
                        insertion_mbr@,
                        min_index as int,
                        all_leaves,
                    ),
                    forall|i: int|
                        0 <= i < index ==> !lex_lt(
                            #[trigger] subtree_score(self.children@, insertion_mbr@, i, all_leaves),
                            subtree_score(self.children@, insertion_mbr@, min_index as int, all_leaves),
                        ) && (i < min_index ==> lex_lt(
                            subtree_score(self.children@, insertion_mbr@, min_index as int, all_leaves),
                            subtree_score(self.children@, insertion_mbr@, i, all_leaves),
                        )),
                decreases n - index,
            {
                proof {
                    lemma_child_mbr(depth, opts, self.children@[index as int]);
                }
                let mbr = self.children[index].mbr();
                let mut new_mbr = mbr.copy();
                new_mbr.add_rect(insertion_mbr);
                let overlap_increase: u128 = if all_leaves {
                    let mut overlap: u128 = 0;
                    let mut new_overlap: u128 = 0;
                    let mut j: usize = 0;
                    while j < n
                        invariant
                            n == self.children@.len(),
                            all_ok(depth, opts, self.children@),
                            mbr@.wf(T::dim_spec()),
                            new_mbr@.wf(T::dim_spec()),
                            j <= n,
                            index < n,
                            overlap == overlap_sum(self.children@, mbr@, index as int, j as nat),
                            new_overlap == overlap_sum(self.children@, new_mbr@, index as int, j as nat),
                        decreases n - j,
                    {
                        if j != index {
                            proof {
                                lemma_child_mbr(depth, opts, self.children@[j as int]);
                            }
                            let child_mbr = self.children[j].mbr();
                            overlap = overlap.saturating_add(overlap_area(&mbr, &child_mbr));
                            new_overlap = new_overlap.saturating_add(overlap_area(&new_mbr, &child_mbr));
                        }
                        j += 1;
                    }
                    new_overlap.saturating_sub(overlap)
                } else {
                    0
                };
                let a = area(&new_mbr);
                let area_increase = a.saturating_sub(area(&mbr));
                if lex_less(overlap_increase, area_increase, a, min0, min1, min2) || index == 0 {
                    min0 = overlap_increase;
                    min1 = area_increase;
                    min2 = a;
                    min_index = index;
                }
                index += 1;
            }
        }
        min_index
    }

    /// Resolves an overflow after a child was added: nothing to do within
    /// `max_size`; otherwise a split if this depth already had its forced
    /// reinsertion, else a forced reinsertion, which marks the depth.
    fn resolve_overflow(&mut self, state: &mut InsertionState) -> (r: InsertionResult<T>)
        requires
            old(self).options.valid(),
            1 <= old(self).depth < usize::MAX,
            old(self).children@.len() <= old(self).options.max_size + 1,
            old(self).mbr_exact(),
            all_ok(old(self).depth, old(self).options, old(self).children@),
        ensures
            final(self).wf(old(self).options),
            final(self).depth == old(self).depth,
            final(self).children@.len() > 0 || old(self).children@.len() == 0,
            final(state).reinsertions@.len() == old(state).reinsertions@.len(),
            r is Complete <==> old(self).children@.len() <= old(self).options.max_size,
            r is Complete ==> *final(self) == *old(self) && *final(state) == *old(state),
            r is Split <==> old(self).children@.len() > old(self).options.max_size && (old(self).depth
                >= old(state).reinsertions@.len() || old(state).reinsertions@[old(self).depth as int]),
            r is Split ==> *final(state) == *old(state),
            r is Reinsert ==> final(state).reinsertions@ == old(state).reinsertions@.update(old(self).depth as int, true),
            match r {
                InsertionResult::Complete => bag(objects_of(final(self).children@)) == bag(
                    objects_of(old(self).children@),
                ) && open_levels(final(state).reinsertions@) == open_levels(
                    old(state).reinsertions@,
                ),
                InsertionResult::Split(s) => node_ok((old(self).depth + 1) as usize, old(self).options, s)
                    && bag(objects_of(final(self).children@)).add(bag(s.objects())) == bag(
                    objects_of(old(self).children@),
                ) && open_levels(final(state).reinsertions@) == open_levels(
                    old(state).reinsertions@,
                ),
                InsertionResult::Reinsert(v) => all_ok(old(self).depth, old(self).options, v@)
                    && v@.len() == old(self).options.reinsertion_count && bag(objects_of(final(self).children@)).add(bag(objects_of(v@))) == bag(
                    objects_of(old(self).children@),
                ) && open_levels(final(state).reinsertions@) < open_levels(
                    old(state).reinsertions@,
                ),
            },
    {
        if self.children.len() > self.options.max_size {
            if state.did_reinsert(self.depth) {
                let (offsplit, _) = self.split();
                InsertionResult::Split(offsplit)
            } else {
                proof {
                    lemma_open_levels_mark(state.reinsertions@, self.depth as int);
                }
                state.mark_reinsertion(self.depth);
                let reinsertion_nodes = self.reinsert();
                InsertionResult::Reinsert(reinsertion_nodes)
            }
        } else {
            InsertionResult::Complete
        }
    }
}

impl<T: SpatialObject> DirectoryNodeData<T> {
    /// Inserts a subtree of smaller depth below this directory: directly
    /// when it is one level down, else into the child that `choose_subtree`
    /// picks. The cached rectangle is then the exact union of the children's
    /// again, and any overflow is resolved here or handed to the caller.
    pub fn insert(&mut self, t: RTreeNode<T>, state: &mut InsertionState) -> (r: InsertionResult<T>)
        requires
            old(self).options.valid(),
            old(self).wf(old(self).options),
            old(self).depth < usize::MAX,
            old(self).depth > 1 ==> old(self).children@.len() > 0,
            subtree_ok(t, old(self).options),
            t.depth_spec() < old(self).depth,
        ensures
            final(self).wf(old(self).options),
            final(self).depth == old(self).depth,
            final(self).children@.len() > 0,
            final(state).reinsertions@.len() == old(state).reinsertions@.len(),
            t.depth_spec() + 1 == old(self).depth && old(self).children@.len() < old(self).options.max_size
                ==> r is Complete && final(self).children@.len() == old(self).children@.len() + 1,
            match r {
                InsertionResult::Complete => bag(final(self).objects()) == bag(old(self).objects()).add(
                    bag(t.objects()),
                ) && open_levels(final(state).reinsertions@) <= open_levels(
                    old(state).reinsertions@,
                ),
                InsertionResult::Split(s) => node_ok((old(self).depth + 1) as usize, old(self).options, s)
                    && bag(final(self).objects()).add(bag(s.objects())) == bag(old(self).objects()).add(
                    bag(t.objects()),
                ) && open_levels(final(state).reinsertions@) <= open_levels(
                    old(state).reinsertions@,
                ),
                InsertionResult::Reinsert(v) => v@.len() == old(self).options.reinsertion_count && (forall|j: int|
                    0 <= j < v@.len() ==> subtree_ok(#[trigger] v@[j], old(self).options) && v@[j].depth_spec()
                        < old(self).depth) && bag(final(self).objects()).add(bag(objects_of(v@))) == bag(
                    old(self).objects(),
                ).add(bag(t.objects())) && open_levels(final(state).reinsertions@) < open_levels(
                    old(state).reinsertions@,
                ),
            },
        decreases old(self).depth,
    {
        let ghost opts = self.options;
        let ghost depth = self.depth;
        let ghost oc = self.children@;
        let ghost before = bag(old(self).objects()).add(bag(t.objects()));
        let ghost st0 = open_levels(state.reinsertions@);
        if t.depth() + 1 == self.depth {
            self.children.push(t);
            proof {
                lemma_bag_push(oc, t);
                assert(all_ok(depth, opts, self.children@)) by {
                    assert forall|i: int| 0 <= i < self.children@.len() implies node_ok(depth, opts, #[trigger] self.children@[i]) by {
                        if i < oc.len() {
                            assert(self.children@[i] == oc[i]);
                        }
                    }
                }
            }
            self.update_mbr();
            let res = self.resolve_overflow(state);
            proof {
                if res is Reinsert {
                    let v = res->Reinsert_0;
                    assert forall|j: int| 0 <= j < v@.len() implies subtree_ok(#[trigger] v@[j], opts) && v@[j].depth_spec() < depth by {
                        assert(node_ok(depth, opts, v@[j]));
                    }
                }
            }
            return res;
        }
        let tm = t.mbr();
        proof {
            if t is Leaf {
                t->Leaf_0.lemma_mbr_wf();
            }
        }
        let idx = self.choose_subtree(&tm);
        let child = self.children.remove(idx);
        let ghost rest = self.children@;
        proof {
            assert(node_ok(depth, opts, oc[idx as int]));
            lemma_bag_remove(oc, idx as int);
        }
        match child {
            RTreeNode::DirectoryNode(mut data) => {
                let ghost od = data;
                let res = data.insert(t, state);
                let ghost nc = RTreeNode::DirectoryNode(data);
                self.children.insert(idx, RTreeNode::DirectoryNode(data));
                proof {
                    crate::node::lemma_bag_insert(rest, idx as int, nc);
                    assert(node_ok(depth, opts, nc));
                    assert(all_ok(depth, opts, self.children@)) by {
                        assert forall|i: int| 0 <= i < self.children@.len() implies node_ok(depth, opts, #[trigger] self.children@[i]) by {
                            if i < idx {
                                assert(self.children@[i] == oc[i]);
                            } else if i > idx {
                                assert(self.children@[i] == oc[i]);
                            }
                        }
                    }
                    assert(oc[idx as int] == RTreeNode::DirectoryNode(od));
                    assert(oc[idx as int].objects() == od.objects());
                    assert(bag(objects_of(oc)) == bag(objects_of(rest)).add(bag(od.objects())));
                    assert(nc.objects() == data.objects());
                    assert(bag(objects_of(self.children@)) == bag(objects_of(rest)).add(bag(data.objects())));
                }
                match res {
                    InsertionResult::Split(sib) => {
                        let ghost mid = self.children@;
                        self.children.push(sib);
                        proof {
                            lemma_bag_push(mid, sib);
                            assert(all_ok(depth, opts, self.children@)) by {
                                assert forall|i: int| 0 <= i < self.children@.len() implies node_ok(depth, opts, #[trigger] self.children@[i]) by {
                                    if i < mid.len() {
                                        assert(self.children@[i] == mid[i]);
                                    }
                                }
                            }
                            assert(bag(objects_of(self.children@)) =~= bag(objects_of(rest)).add(bag(data.objects())).add(bag(sib.objects())));
                            let r0 = bag(objects_of(rest));
                            assert(bag(data.objects()).add(bag(sib.objects())) == bag(od.objects()).add(bag(t.objects())));
                            assert(r0.add(bag(data.objects())).add(bag(sib.objects())) =~= r0.add(bag(data.objects()).add(bag(sib.objects()))));
                            assert(r0.add(bag(od.objects()).add(bag(t.objects()))) =~= r0.add(bag(od.objects())).add(bag(t.objects())));
                            assert(bag(objects_of(self.children@)) =~= before);
                        }
                        self.update_mbr();
                        let ghost st1 = open_levels(state.reinsertions@);
                        let out = self.resolve_overflow(state);
                        proof {
                            if out is Reinsert {
                                let v = out->Reinsert_0;
                                assert forall|j: int| 0 <= j < v@.len() implies subtree_ok(#[trigger] v@[j], opts) && v@[j].depth_spec() < depth by {
                                    assert(node_ok(depth, opts, v@[j]));
                                }
                            }
                        }
                        out
                    },
                    InsertionResult::Reinsert(v) => {
                        proof {
                            let r0 = bag(objects_of(rest));
                            assert(bag(data.objects()).add(bag(objects_of(v@))) == bag(od.objects()).add(bag(t.objects())));
                            assert(r0.add(bag(data.objects())).add(bag(objects_of(v@))) =~= r0.add(bag(data.objects()).add(bag(objects_of(v@)))));
                            assert(r0.add(bag(od.objects()).add(bag(t.objects()))) =~= r0.add(bag(od.objects())).add(bag(t.objects())));
                            assert(bag(objects_of(self.children@)).add(bag(objects_of(v@))) =~= before);
                        }
                        self.update_mbr();
                        InsertionResult::Reinsert(v)
                    },
                    InsertionResult::Complete => {
                        proof {
                            assert(bag(objects_of(self.children@)) =~= before);
                        }
                        self.update_mbr();
                        InsertionResult::Complete
                    },
                }
            },
            RTreeNode::Leaf(l) => {
                proof {
                    assert(false);
                }
                self.children.insert(idx, RTreeNode::Leaf(l));
                InsertionResult::Complete
            },
        }
    }
}

} // verus!
