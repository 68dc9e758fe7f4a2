use vstd::prelude::*;

verus! {

/// An axis-aligned rectangle given by its two corners, `lower <= upper`
/// componentwise.
#[derive(Debug)]
pub struct Rect {
    pub lower: Vec<i32>,
    pub upper: Vec<i32>,
}

/// Distance along one axis from coordinate `p` to the interval `[lo, hi]`.
pub open spec fn axis_gap(lo: int, hi: int, p: int) -> int {
    if p < lo {
        lo - p
    } else if p > hi {
        p - hi
    } else {
        0
    }
}

/// Sum over the first `n` axes of the squared gap between a point and a box.
pub open spec fn gap2_prefix(lo: Seq<i32>, hi: Seq<i32>, p: Seq<i32>, n: nat) -> int
    decreases n,
{
    if n == 0 {
        0
    } else {
        let g = axis_gap(lo[n - 1] as int, hi[n - 1] as int, p[n - 1] as int);
        gap2_prefix(lo, hi, p, (n - 1) as nat) + g * g
    }
}

/// A point inside a box on the first `n` axes has no gap to it.
pub proof fn lemma_gap2_inside(lo: Seq<i32>, hi: Seq<i32>, p: Seq<i32>, n: nat)
    requires
        n <= lo.len(),
        n <= hi.len(),
        n <= p.len(),
        forall|i: int| 0 <= i < n ==> lo[i] <= p[i] && p[i] <= hi[i],
    ensures
        gap2_prefix(lo, hi, p, n) == 0,
    decreases n,
{
    if n > 0 {
        lemma_gap2_inside(lo, hi, p, (n - 1) as nat);
    }
}

/// Squared gaps add up to a nonnegative amount.
pub proof fn lemma_gap2_nonneg(lo: Seq<i32>, hi: Seq<i32>, p: Seq<i32>, n: nat)
    ensures
        gap2_prefix(lo, hi, p, n) >= 0,
    decreases n,
{
    if n > 0 {
        lemma_gap2_nonneg(lo, hi, p, (n - 1) as nat);
        let g = axis_gap(lo[n - 1] as int, hi[n - 1] as int, p[n - 1] as int);
        assert(g * g >= 0) by (nonlinear_arith);
    }
}

/// Squared euclidean distance between two points.
pub open spec fn point_dist2(a: Seq<i32>, b: Seq<i32>) -> int {
    gap2_prefix(a, a, b, a.len())
}

/// Largest value a single squared axis gap can take between `i32` values.
pub open spec fn max_gap2() -> int {
    0xffff_ffffint * 0xffff_ffffint
}

/// The corners of a rectangle as mathematical sequences.
pub struct RectModel {
    pub lower: Seq<i32>,
    pub upper: Seq<i32>,
}

impl RectModel {
    pub open spec fn dim(&self) -> nat {
        self.lower.len()
    }

    /// Both corners have `d` coordinates and `lower <= upper` on every axis.
    pub open spec fn wf(&self, d: nat) -> bool {
        &&& self.lower.len() == d
        &&& self.upper.len() == d
        &&& forall|i: int| 0 <= i < d ==> self.lower[i] <= self.upper[i]
    }

    pub open spec fn contains_point_spec(&self, p: Seq<i32>) -> bool {
        forall|i: int|
            0 <= i < self.dim() ==> self.lower[i] <= p[i] && p[i] <= self.upper[i]
    }

    pub open spec fn contains_rect_spec(&self, o: RectModel) -> bool {
        forall|i: int|
            0 <= i < self.dim() ==> self.lower[i] <= o.lower[i] && o.upper[i]
                <= self.upper[i]
    }

    pub open spec fn intersects_spec(&self, o: RectModel) -> bool {
        forall|i: int|
            0 <= i < self.dim() ==> self.lower[i] <= o.upper[i] && o.lower[i]
                <= self.upper[i]
    }

    /// The smallest rectangle covering both `self` and `o`.
    pub open spec fn union_spec(&self, o: RectModel) -> RectModel {
        RectModel {
            lower: Seq::new(
                self.dim(),
                |i: int|
                    if self.lower[i] <= o.lower[i] {
                        self.lower[i]
                    } else {
                        o.lower[i]
                    },
            ),
            upper: Seq::new(
                self.dim(),
                |i: int|
                    if self.upper[i] >= o.upper[i] {
                        self.upper[i]
                    } else {
                        o.upper[i]
                    },
            ),
        }
    }

    /// Squared distance from `p` to the nearest point of the rectangle (zero inside).
    pub open spec fn min_dist2_spec(&self, p: Seq<i32>) -> int {
        gap2_prefix(self.lower, self.upper, p, self.dim())
    }

}

impl View for Rect {
    type V = RectModel;

    open spec fn view(&self) -> RectModel {
        RectModel { lower: self.lower@, upper: self.upper@ }
    }
}

impl Rect {
    /// A copy with the same corners.
    pub fn copy(&self) -> (r: Rect)
        ensures
            r@ == self@,
    {
        Rect { lower: self.lower.clone(), upper: self.upper.clone() }
    }

    /// The degenerate rectangle holding exactly the point `p`.
    pub fn from_point(p: &Vec<i32>) -> (r: Rect)
        ensures
            r@.lower == p@,
            r@.upper == p@,
            r@.wf(p@.len()),
    {
        Rect { lower: p.clone(), upper: p.clone() }
    }

    /// The rectangle spanned by two corner points given in any order.
    pub fn from_corners(a: &Vec<i32>, b: &Vec<i32>) -> (r: Rect)
        requires
            a@.len() == b@.len(),
        ensures
            r@.wf(a@.len()),
            forall|i: int|
                0 <= i < a@.len() ==> r.lower@[i] == if a@[i] <= b@[i] {
                    a@[i]
                } else {
                    b@[i]
                } && r.upper@[i] == if a@[i] <= b@[i] {
                    b@[i]
                } else {
                    a@[i]
                },
    {
        let mut lower: Vec<i32> = Vec::new();
        let mut upper: Vec<i32> = Vec::new();
        let mut i: usize = 0;
        while i < a.len()
            invariant
                a@.len() == b@.len(),
                i <= a@.len(),
                lower@.len() == i,
                upper@.len() == i,
                forall|j: int|
                    0 <= j < i ==> lower@[j] == if a@[j] <= b@[j] {
                        a@[j]
                    } else {
                        b@[j]
                    } && upper@[j] == if a@[j] <= b@[j] {
                        b@[j]
                    } else {
                        a@[j]
                    },
            decreases a@.len() - i,
        {
            if a[i] <= b[i] {
                lower.push(a[i]);
                upper.push(b[i]);
            } else {
                lower.push(b[i]);
                upper.push(a[i]);
            }
            i += 1;
        }
        Rect { lower, upper }
    }

    pub fn contains_point(&self, p: &Vec<i32>) -> (r: bool)
        requires
            self@.wf(p@.len()),
        ensures
            r == self@.contains_point_spec(p@),
    {
        let mut i: usize = 0;
        while i < p.len()
            invariant
                self@.wf(p@.len()),
                i <= p@.len(),
                forall|j: int| 0 <= j < i ==> self.lower@[j] <= p@[j] && p@[j] <= self.upper@[j],
            decreases p@.len() - i,
        {
            if p[i] < self.lower[i] || p[i] > self.upper[i] {
                return false;
            }
            i += 1;
        }
        true
    }

    pub fn contains_rect(&self, o: &Rect) -> (r: bool)
        requires
            self@.wf(self@.dim()),
            o@.wf(self@.dim()),
        ensures
            r == self@.contains_rect_spec(o@),
    {
        let mut i: usize = 0;
        while i < self.lower.len()
            invariant
                self@.wf(self@.dim()),
                o@.wf(self@.dim()),
                i <= self@.dim(),
                forall|j: int|
                    0 <= j < i ==> self.lower@[j] <= o.lower@[j] && o.upper@[j]
                        <= self.upper@[j],
            decreases self@.dim() - i,
        {
            if o.lower[i] < self.lower[i] || o.upper[i] > self.upper[i] {
                return false;
            }
            i += 1;
        }
        true
    }

    pub fn intersects(&self, o: &Rect) -> (r: bool)
        requires
            self@.wf(self@.dim()),
            o@.wf(self@.dim()),
        ensures
            r == self@.intersects_spec(o@),
    {
        let mut i: usize = 0;
        while i < self.lower.len()
            invariant
                self@.wf(self@.dim()),
                o@.wf(self@.dim()),
                i <= self@.dim(),
                forall|j: int|
                    0 <= j < i ==> self.lower@[j] <= o.upper@[j] && o.lower@[j]
                        <= self.upper@[j],
            decreases self@.dim() - i,
        {
            if o.upper[i] < self.lower[i] || o.lower[i] > self.upper[i] {
                return false;
            }
            i += 1;
        }
        true
    }

    /// Enlarges `self` to cover `o`.
    pub fn add_rect(&mut self, o: &Rect)
        requires
            old(self)@.wf(old(self)@.dim()),
            o@.wf(old(self)@.dim()),
        ensures
            final(self)@.wf(old(self)@.dim()),
            final(self)@ == old(self)@.union_spec(o@),
    {
        let ghost d = self@.dim();
        let ghost u = self@.union_spec(o@);
        let mut i: usize = 0;
        while i < self.lower.len()
            invariant
                self.lower@.len() == d,
                self.upper@.len() == d,
                o@.wf(d),
                i <= d,
                forall|j: int| i <= j < d ==> self.lower@[j] == old(self).lower@[j],
                forall|j: int| i <= j < d ==> self.upper@[j] == old(self).upper@[j],
                forall|j: int| 0 <= j < d ==> old(self).lower@[j] <= old(self).upper@[j],
                forall|j: int| 0 <= j < i ==> self.lower@[j] == u.lower[j] && self.upper@[j] == u.upper[j],
                u == old(self)@.union_spec(o@),
                old(self)@.dim() == d,
            decreases d - i,
        {
            if o.lower[i] < self.lower[i] {
                self.lower.set(i, o.lower[i]);
            }
            if o.upper[i] > self.upper[i] {
                self.upper.set(i, o.upper[i]);
            }
            i += 1;
        }
        assert(self.lower@ =~= u.lower);
        assert(self.upper@ =~= u.upper);
    }

    /// Squared distance from `p` to the nearest point of the rectangle.
    pub fn min_dist2(&self, p: &Vec<i32>) -> (r: u128)
        requires
            self@.wf(p@.len()),
        ensures
            r == self@.min_dist2_spec(p@),
    {
        let mut sum: u128 = 0;
        let mut i: usize = 0;
        while i < p.len()
            invariant
                self@.wf(p@.len()),
                i <= p@.len(),
                sum == gap2_prefix(self.lower@, self.upper@, p@, i as nat),
                0 <= sum <= i * max_gap2(),
            decreases p@.len() - i,
        {
            let g: u64 = axis_gap_exec(self.lower[i], self.upper[i], p[i]);
            assert(g * g <= max_gap2()) by (nonlinear_arith)
                requires
                    0 <= g <= 0xffff_ffff,
            ;
            let g2: u128 = (g as u128) * (g as u128);
            assert(sum + g2 <= (i + 1) * max_gap2()) by (nonlinear_arith)
                requires
                    sum <= i * max_gap2(),
                    g2 <= max_gap2(),
            ;
            assert((i + 1) * max_gap2() < 0x1_0000_0000_0000_0000int * 0x1_0000_0000_0000_0000int)
                by (nonlinear_arith)
                requires
                    i < usize::MAX,
            ;
            sum = sum + g2;
            i += 1;
        }
        sum
    }
}

/// Exact gap along one axis, computed without overflow.
fn axis_gap_exec(lo: i32, hi: i32, p: i32) -> (r: u64)
    requires
        lo <= hi,
    ensures
        r == axis_gap(lo as int, hi as int, p as int),
        r <= 0xffff_ffff,
{
    if p < lo {
        (lo as i64 - p as i64) as u64
    } else if p > hi {
        (p as i64 - hi as i64) as u64
    } else {
        0
    }
}

/// Squared euclidean distance between two points of the same dimension.
pub fn distance2(a: &Vec<i32>, b: &Vec<i32>) -> (r: u128)
    requires
        a@.len() == b@.len(),
    ensures
        r == point_dist2(a@, b@),
{
    let r = Rect::from_point(a);
    r.min_dist2(b)
}

} // verus!
