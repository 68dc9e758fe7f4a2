use vstd::prelude::*;

use crate::geometry::{Rect, RectModel, axis_gap, gap2_prefix, max_gap2};
use crate::node::{DirectoryNodeData, RTreeNode, node_ok, touches_lower, touches_upper};
use crate::object::SpatialObject;
use crate::options::RTreeOptions;
use crate::query::lemma_member_of_child;

verus! {

pub open spec fn sq(x: int) -> int {
    x * x
}

/// Squared distance along axis `i` from `p` to the nearer face of `r`.
pub open spec fn near2(r: RectModel, p: Seq<i32>, i: int) -> int {
    let a = sq(p[i] - r.lower[i]);
    let b = sq(p[i] - r.upper[i]);
    if a <= b {
        a
    } else {
        b
    }
}

/// Squared distance along axis `i` from `p` to the farther face of `r`.
pub open spec fn far2(r: RectModel, p: Seq<i32>, i: int) -> int {
    let a = sq(p[i] - r.lower[i]);
    let b = sq(p[i] - r.upper[i]);
    if a >= b {
        a
    } else {
        b
    }
}

/// Sum of `far2` over the first `m` axes except axis `k`.
pub open spec fn far_sum(r: RectModel, p: Seq<i32>, k: int, m: nat) -> int
    decreases m,
{
    if m == 0 {
        0
    } else {
        far_sum(r, p, k, (m - 1) as nat) + if m - 1 == k {
            0
        } else {
            far2(r, p, m - 1)
        }
    }
}

/// The MINMAXDIST candidate of axis `k`: nearer face on `k`, farther faces
/// on every other axis.
pub open spec fn axis_bound(r: RectModel, p: Seq<i32>, k: int) -> int {
    near2(r, p, k) + far_sum(r, p, k, r.dim())
}

/// Least axis candidate over the first `m` axes (`m >= 1`).
pub open spec fn min_max_prefix(r: RectModel, p: Seq<i32>, m: nat) -> int
    decreases m,
{
    if m <= 1 {
        axis_bound(r, p, 0)
    } else {
        let a = min_max_prefix(r, p, (m - 1) as nat);
        let b = axis_bound(r, p, m - 1);
        if b < a {
            b
        } else {
            a
        }
    }
}

/// MINMAXDIST: the least, over the axes, of the squared distance to the
/// farthest point of the nearer face on that axis. Every object whose faces
/// touch all faces of `r` has a point this close to `p`.
pub open spec fn min_max_dist2(r: RectModel, p: Seq<i32>) -> int {
    min_max_prefix(r, p, r.dim())
}

proof fn lemma_min_max_prefix(r: RectModel, p: Seq<i32>, m: nat)
    requires
        m >= 1,
    ensures
        forall|k: int| 0 <= k < m ==> min_max_prefix(r, p, m) <= #[trigger] axis_bound(r, p, k),
        exists|k: int| 0 <= k < m && min_max_prefix(r, p, m) == #[trigger] axis_bound(r, p, k),
    decreases m,
{
    if m > 1 {
        lemma_min_max_prefix(r, p, (m - 1) as nat);
        let k0 = choose|k: int| 0 <= k < m - 1 && min_max_prefix(r, p, (m - 1) as nat) == #[trigger] axis_bound(r, p, k);
        if axis_bound(r, p, m - 1) < min_max_prefix(r, p, (m - 1) as nat) {
            assert(min_max_prefix(r, p, m) == axis_bound(r, p, m - 1));
        } else {
            assert(min_max_prefix(r, p, m) == axis_bound(r, p, k0));
        }
    } else {
        assert(min_max_prefix(r, p, m) == axis_bound(r, p, 0));
    }
}

proof fn lemma_sq_interval(a: int, lo: int, hi: int)
    requires
        lo <= a <= hi,
    ensures
        sq(a) <= sq(lo) || sq(a) <= sq(hi),
{
    assert(sq(a) <= sq(lo) || sq(a) <= sq(hi)) by (nonlinear_arith)
        requires
            lo <= a <= hi,
    ;
}

/// The farther face gets nearer when the rectangle shrinks.
proof fn lemma_far_sum_mono(big: RectModel, small: RectModel, p: Seq<i32>, k: int, m: nat)
    requires
        big.contains_rect_spec(small),
        small.wf(big.dim()),
        big.wf(big.dim()),
        m <= big.dim(),
    ensures
        far_sum(small, p, k, m) <= far_sum(big, p, k, m),
    decreases m,
{
    if m > 0 {
        lemma_far_sum_mono(big, small, p, k, (m - 1) as nat);
        let i = m - 1;
        let pi = p[i] as int;
        let (bl, bu, sl, su) = (big.lower[i] as int, big.upper[i] as int, small.lower[i] as int, small.upper[i] as int);
        assert(bl <= sl <= su <= bu);
        lemma_sq_interval(pi - sl, pi - bu, pi - bl);
        lemma_sq_interval(pi - su, pi - bu, pi - bl);
        assert(sq(pi - sl) <= far2(big, p, i) && sq(pi - su) <= far2(big, p, i));
    }
}

/// A child reaching the lower (or upper) face of its parent on axis `k`
/// has a MINMAXDIST no larger than the parent's candidate for that face.
proof fn lemma_child_bound(big: RectModel, small: RectModel, p: Seq<i32>, k: int, lower_face: bool)
    requires
        big.contains_rect_spec(small),
        small.wf(big.dim()),
        big.wf(big.dim()),
        0 <= k < big.dim(),
        lower_face ==> small.lower[k] == big.lower[k] && near2(big, p, k) == sq(p[k] - big.lower[k]),
        !lower_face ==> small.upper[k] == big.upper[k] && near2(big, p, k) == sq(p[k] - big.upper[k]),
    ensures
        min_max_dist2(small, p) <= axis_bound(big, p, k),
{
    lemma_far_sum_mono(big, small, p, k, big.dim());
    lemma_min_max_prefix(small, p, small.dim());
    assert(near2(small, p, k) <= near2(big, p, k));
    assert(axis_bound(small, p, k) == near2(small, p, k) + far_sum(small, p, k, small.dim()));
    assert(min_max_dist2(small, p) <= axis_bound(small, p, k));
}

/// A nonempty well-formed directory has an object no further from `p` than
/// the MINMAXDIST of its rectangle.
pub proof fn lemma_min_max_witness<T: SpatialObject>(d: DirectoryNodeData<T>, opts: RTreeOptions, p: Seq<i32>)
    requires
        d.wf(opts),
        d.children@.len() > 0,
        p.len() == T::dim_spec(),
        T::dim_spec() > 0,
    ensures
        exists|o: T| d.objects().contains(o) && o.distance2_spec(p) <= min_max_dist2(d.bounding_box->0@, p),
    decreases d,
{
    let r = d.bounding_box->0@;
    let cs = d.children@;
    lemma_min_max_prefix(r, p, r.dim());
    let k = choose|k: int| 0 <= k < r.dim() && min_max_prefix(r, p, r.dim()) == #[trigger] axis_bound(r, p, k);
    let lower_face = sq(p[k] - r.lower[k]) <= sq(p[k] - r.upper[k]);
    let i = if lower_face {
        assert(touches_lower(cs, r, k));
        choose|i: int| 0 <= i < cs.len() && #[trigger] cs[i].mbr_spec().lower[k] == r.lower[k]
    } else {
        assert(touches_upper(cs, r, k));
        choose|i: int| 0 <= i < cs.len() && #[trigger] cs[i].mbr_spec().upper[k] == r.upper[k]
    };
    let c = cs[i];
    assert(node_ok(d.depth, opts, c));
    crate::node::lemma_child_mbr(d.depth, opts, c);
    assert(r.contains_rect_spec(c.mbr_spec()));
    lemma_child_bound(r, c.mbr_spec(), p, k, lower_face);
    match c {
        RTreeNode::Leaf(t) => {
            t.lemma_min_max_bound(p);
            assert(c.objects() =~= seq![t]);
            assert(c.objects()[0] == t);
            lemma_member_of_child(cs, i, t);
            assert(d.objects().contains(t) && t.distance2_spec(p) <= min_max_dist2(r, p));
        },
        RTreeNode::DirectoryNode(cd) => {
            lemma_min_max_witness(cd, opts, p);
            let o = choose|o: T| cd.objects().contains(o) && o.distance2_spec(p) <= min_max_dist2(cd.bounding_box->0@, p);
            lemma_member_of_child(cs, i, o);
            assert(d.objects().contains(o) && o.distance2_spec(p) <= min_max_dist2(r, p));
        },
    }
}

/// For a degenerate rectangle (a point) MINMAXDIST is the squared distance.
pub proof fn lemma_min_max_point(c: Seq<i32>, p: Seq<i32>)
    requires
        c.len() == p.len(),
        c.len() > 0,
    ensures
        min_max_dist2(RectModel { lower: c, upper: c }, p) == gap2_prefix(c, c, p, c.len()),
{
    let r = RectModel { lower: c, upper: c };
    assert forall|k: int| 0 <= k < c.len() implies #[trigger] axis_bound(r, p, k) == gap2_prefix(c, c, p, c.len()) by {
        lemma_far_sum_point(c, p, k, c.len());
    }
    lemma_min_max_prefix(r, p, c.len());
}

proof fn lemma_far_sum_point(c: Seq<i32>, p: Seq<i32>, k: int, m: nat)
    requires
        c.len() == p.len(),
        0 <= k < c.len(),
        m <= c.len(),
    ensures
        far_sum(RectModel { lower: c, upper: c }, p, k, m) + if k < m {
            near2(RectModel { lower: c, upper: c }, p, k)
        } else {
            0
        } == gap2_prefix(c, c, p, m),
    decreases m,
{
    if m > 0 {
        lemma_far_sum_point(c, p, k, (m - 1) as nat);
        let i = m - 1;
        let g = axis_gap(c[i] as int, c[i] as int, p[i] as int);
        let x = p[i] - c[i];
        assert(g == x || g == -x);
        assert(g * g == sq(x)) by (nonlinear_arith)
            requires
                g == x || g == -x,
        ;
    }
}

impl Rect {
    /// MINMAXDIST from `p` to this rectangle.
    pub fn min_max_dist2(&self, p: &Vec<i32>) -> (r: u128)
        requires
            self@.wf(p@.len()),
            p@.len() > 0,
        ensures
            r == min_max_dist2(self@, p@),
    {
        let n = p.len();
        let mut best: u128 = 0;
        let mut k: usize = 0;
        while k < n
            invariant
                self@.wf(p@.len()),
                n == p@.len(),
                k <= n,
                k > 0 ==> best == min_max_prefix(self@, p@, k as nat),
            decreases n - k,
        {
            let b = self.axis_bound(p, k);
            if k == 0 || b < best {
                best = b;
            }
            k += 1;
        }
        best
    }

    fn axis_bound(&self, p: &Vec<i32>, k: usize) -> (r: u128)
        requires
            self@.wf(p@.len()),
            k < p@.len(),
        ensures
            r == axis_bound(self@, p@, k as int),
    {
        let n = p.len();
        let mut sum: u128 = 0;
        let mut i: usize = 0;
        while i < n
            invariant
                self@.wf(p@.len()),
                n == p@.len(),
                k < n,
                i <= n,
                sum == far_sum(self@, p@, k as int, i as nat),
                0 <= sum <= i * max_gap2(),
            decreases n - i,
        {
            let (a, b) = face_squares(self.lower[i], self.upper[i], p[i]);
            let f: u128 = if i == k {
                0
            } else if a >= b {
                a
            } else {
                b
            };
            assert(sum + f <= (i + 1) * max_gap2()) by (nonlinear_arith)
                requires
                    sum <= i * max_gap2(),
                    f <= max_gap2(),
            ;
            assert((i + 1) * max_gap2() < 0x1_0000_0000_0000_0000int * 0x1_0000_0000_0000_0000int)
                by (nonlinear_arith)
                requires
                    i < usize::MAX,
            ;
            sum = sum + f;
            i += 1;
        }
        let (a, b) = face_squares(self.lower[k], self.upper[k], p[k]);
        let near: u128 = if a <= b {
            a
        } else {
            b
        };
        assert(sum <= (n - 1) * max_gap2()) by {
            assert(far_sum(self@, p@, k as int, n as nat) <= (n - 1) * max_gap2()) by {
                lemma_far_sum_bound(self@, p@, k as int, n as nat);
            }
        }
        assert((n - 1) * max_gap2() + max_gap2() < 0x1_0000_0000_0000_0000int * 0x1_0000_0000_0000_0000int)
            by (nonlinear_arith)
            requires
                n <= usize::MAX,
        ;
        sum + near
    }
}

proof fn lemma_far_sum_bound(r: RectModel, p: Seq<i32>, k: int, m: nat)
    requires
        r.wf(p.len()),
        0 <= k < m <= p.len(),
    ensures
        far_sum(r, p, k, m) <= (m - 1) * max_gap2(),
    decreases m,
{
    if m - 1 > k {
        lemma_far_sum_bound(r, p, k, (m - 1) as nat);
        lemma_face_square_bound(r.lower[m - 1] as int, p[m - 1] as int);
        lemma_face_square_bound(r.upper[m - 1] as int, p[m - 1] as int);
        assert((m - 2) * max_gap2() + max_gap2() == (m - 1) * max_gap2()) by (nonlinear_arith);
    } else {
        lemma_far_sum_prefix_bound(r, p, k, (m - 1) as nat);
    }
}

proof fn lemma_far_sum_prefix_bound(r: RectModel, p: Seq<i32>, k: int, m: nat)
    requires
        r.wf(p.len()),
        m <= k,
        k < p.len(),
    ensures
        far_sum(r, p, k, m) <= m * max_gap2(),
    decreases m,
{
    if m > 0 {
        lemma_far_sum_prefix_bound(r, p, k, (m - 1) as nat);
        lemma_face_square_bound(r.lower[m - 1] as int, p[m - 1] as int);
        lemma_face_square_bound(r.upper[m - 1] as int, p[m - 1] as int);
        assert((m - 1) * max_gap2() + max_gap2() == m * max_gap2()) by (nonlinear_arith);
    }
}

proof fn lemma_face_square_bound(f: int, x: int)
    requires
        i32::MIN <= f <= i32::MAX,
        i32::MIN <= x <= i32::MAX,
    ensures
        0 <= sq(x - f) <= max_gap2(),
{
    assert(0 <= sq(x - f) <= max_gap2()) by (nonlinear_arith)
        requires
            -0xffff_ffff <= x - f <= 0xffff_ffff,
    ;
}

/// Squared distances along one axis from `x` to the faces `lo` and `hi`.
fn face_squares(lo: i32, hi: i32, x: i32) -> (r: (u128, u128))
    ensures
        r.0 == sq(x - lo),
        r.1 == sq(x - hi),
        r.0 <= max_gap2(),
        r.1 <= max_gap2(),
{
    proof {
        lemma_face_square_bound(lo as int, x as int);
        lemma_face_square_bound(hi as int, x as int);
    }
    let a: i64 = x as i64 - lo as i64;
    let b: i64 = x as i64 - hi as i64;
    let ua: u128 = if a < 0 {
        (-a) as u128
    } else {
        a as u128
    };
    let ub: u128 = if b < 0 {
        (-b) as u128
    } else {
        b as u128
    };
    assert(ua * ua == sq(x - lo)) by (nonlinear_arith)
        requires
            ua == a || ua == -a,
            a == x - lo,
    ;
    assert(ub * ub == sq(x - hi)) by (nonlinear_arith)
        requires
            ub == b || ub == -b,
            b == x - hi,
    ;
    (ua * ua, ub * ub)
}

/// No point of a rectangle is nearer than its nearest point: the squared
/// distance to a rectangle is at most its MINMAXDIST.
pub proof fn lemma_min_dist_below_min_max(r: RectModel, p: Seq<i32>)
    requires
        r.wf(p.len()),
        p.len() > 0,
    ensures
        r.min_dist2_spec(p) <= min_max_dist2(r, p),
{
    lemma_min_max_prefix(r, p, r.dim());
    let k = choose|k: int| 0 <= k < r.dim() && min_max_prefix(r, p, r.dim()) == #[trigger] axis_bound(r, p, k);
    lemma_gap_below_faces(r, p, k, r.dim());
}

proof fn lemma_gap_below_faces(r: RectModel, p: Seq<i32>, k: int, m: nat)
    requires
        r.wf(p.len()),
        0 <= k < p.len(),
        m <= p.len(),
    ensures
        gap2_prefix(r.lower, r.upper, p, m) <= far_sum(r, p, k, m) + if k < m {
            near2(r, p, k)
        } else {
            0
        },
    decreases m,
{
    if m > 0 {
        lemma_gap_below_faces(r, p, k, (m - 1) as nat);
        let i = m - 1;
        let (lo, hi, x) = (r.lower[i] as int, r.upper[i] as int, p[i] as int);
        let g = axis_gap(lo, hi, x);
        assert(g * g <= sq(x - lo) && g * g <= sq(x - hi)) by (nonlinear_arith)
            requires
                lo <= hi,
                g == (if x < lo { lo - x } else if x > hi { x - hi } else { 0 }),
        ;
    }
}

} // verus!
