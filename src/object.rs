use vstd::prelude::*;

use crate::geometry::{Rect, RectModel, point_dist2, distance2, lemma_gap2_inside};
use crate::minmax::{lemma_min_dist_below_min_max, lemma_min_max_point, min_max_dist2};

verus! {

/// What the tree needs to know of the objects it indexes: a bounding
/// rectangle, a squared distance to a query point, a containment test and an
/// equality. All points and rectangles have `dim_spec()` coordinates.
pub trait SpatialObject: Sized {
    spec fn dim_spec() -> nat;

    spec fn mbr_spec(&self) -> RectModel;

    spec fn distance2_spec(&self, p: Seq<i32>) -> int;

    spec fn contains_spec(&self, p: Seq<i32>) -> bool;

    spec fn eq_spec(&self, o: &Self) -> bool;

    /// The bounding rectangle is well formed.
    proof fn lemma_mbr_wf(&self)
        ensures
            self.mbr_spec().wf(Self::dim_spec()),
    ;

    /// A contained point lies in the bounding rectangle.
    proof fn lemma_contains_in_mbr(&self, p: Seq<i32>)
        requires
            p.len() == Self::dim_spec(),
            self.contains_spec(p),
        ensures
            self.mbr_spec().contains_point_spec(p),
    ;

    /// No part of the object is closer to `p` than its bounding rectangle.
    proof fn lemma_distance_bound(&self, p: Seq<i32>)
        requires
            p.len() == Self::dim_spec(),
        ensures
            self.distance2_spec(p) >= self.mbr_spec().min_dist2_spec(p),
    ;

    /// Some point of the object is as near to `p` as MINMAXDIST of its
    /// rectangle promises: the object touches every face of its rectangle.
    proof fn lemma_min_max_bound(&self, p: Seq<i32>)
        requires
            p.len() == Self::dim_spec(),
            Self::dim_spec() > 0,
        ensures
            self.distance2_spec(p) <= min_max_dist2(self.mbr_spec(), p),
    ;

    /// A point the object contains is at distance zero from it.
    proof fn lemma_contains_distance(&self, p: Seq<i32>)
        requires
            p.len() == Self::dim_spec(),
            self.contains_spec(p),
        ensures
            self.distance2_spec(p) == 0,
    ;

    /// Every object equals itself.
    proof fn lemma_eq_refl(&self)
        ensures
            self.eq_spec(self),
    ;

    /// Equality is symmetric.
    proof fn lemma_eq_symm(&self, o: &Self)
        requires
            self.eq_spec(o),
        ensures
            o.eq_spec(self),
    ;

    /// Equal objects have the same bounding rectangle.
    proof fn lemma_eq_mbr(&self, o: &Self)
        requires
            self.eq_spec(o),
        ensures
            self.mbr_spec() == o.mbr_spec(),
    ;

    fn dimensions() -> (r: usize)
        ensures
            r == Self::dim_spec(),
    ;

    fn mbr(&self) -> (r: Rect)
        ensures
            r@ == self.mbr_spec(),
            r@.wf(Self::dim_spec()),
    ;

    fn distance2(&self, p: &Vec<i32>) -> (r: u128)
        requires
            p@.len() == Self::dim_spec(),
        ensures
            r == self.distance2_spec(p@),
    ;

    fn contains(&self, p: &Vec<i32>) -> (r: bool)
        requires
            p@.len() == Self::dim_spec(),
        ensures
            r == self.contains_spec(p@),
    ;

    fn equals(&self, o: &Self) -> (r: bool)
        ensures
            r == self.eq_spec(o),
    ;
}

/// A point with `D` integer coordinates.
#[derive(Clone, Copy, Debug, PartialEq, Eq)]
pub struct Point<const D: usize> {
    pub coords: [i32; D],
}

impl<const D: usize> Point<D> {
    pub fn new(coords: [i32; D]) -> (r: Point<D>)
        ensures
            r.coords@ == coords@,
    {
        Point { coords }
    }

    /// The coordinates as a vector, the form that queries take.
    pub fn to_vec(&self) -> (r: Vec<i32>)
        ensures
            r@ == self.coords@,
    {
        let mut v: Vec<i32> = Vec::new();
        let mut i: usize = 0;
        while i < D
            invariant
                i <= D,
                self.coords@.len() == D,
                v@ == self.coords@.subrange(0, i as int),
            decreases D - i,
        {
            v.push(self.coords[i]);
            i += 1;
            assert(v@ =~= self.coords@.subrange(0, i as int));
        }
        assert(v@ =~= self.coords@);
        v
    }
}

impl<const D: usize> SpatialObject for Point<D> {
    open spec fn dim_spec() -> nat {
        D as nat
    }

    open spec fn mbr_spec(&self) -> RectModel {
        RectModel { lower: self.coords@, upper: self.coords@ }
    }

    open spec fn distance2_spec(&self, p: Seq<i32>) -> int {
        point_dist2(self.coords@, p)
    }

    open spec fn contains_spec(&self, p: Seq<i32>) -> bool {
        self.coords@ == p
    }

    open spec fn eq_spec(&self, o: &Self) -> bool {
        self.coords@ == o.coords@
    }

    proof fn lemma_mbr_wf(&self) {
    }

    proof fn lemma_contains_in_mbr(&self, p: Seq<i32>) {
    }

    proof fn lemma_distance_bound(&self, p: Seq<i32>) {
    }

    proof fn lemma_min_max_bound(&self, p: Seq<i32>) {
        lemma_min_max_point(self.coords@, p);
    }

    proof fn lemma_contains_distance(&self, p: Seq<i32>) {
        lemma_gap2_inside(self.coords@, self.coords@, p, D as nat);
    }

    proof fn lemma_eq_refl(&self) {
    }

    proof fn lemma_eq_symm(&self, o: &Self) {
    }

    proof fn lemma_eq_mbr(&self, o: &Self) {
    }

    fn dimensions() -> (r: usize) {
        D
    }

    fn mbr(&self) -> (r: Rect) {
        let v = self.to_vec();
        Rect::from_point(&v)
    }

    fn distance2(&self, p: &Vec<i32>) -> (r: u128) {
        let v = self.to_vec();
        distance2(&v, p)
    }

    fn contains(&self, p: &Vec<i32>) -> (r: bool) {
        let mut i: usize = 0;
        while i < D
            invariant
                i <= D,
                self.coords@.len() == D,
                p@.len() == D,
                forall|j: int| 0 <= j < i ==> self.coords@[j] == p@[j],
            decreases D - i,
        {
            if self.coords[i] != p[i] {
                return false;
            }
            i += 1;
        }
        assert(self.coords@ =~= p@);
        true
    }

    fn equals(&self, o: &Self) -> (r: bool) {
        let mut i: usize = 0;
        while i < D
            invariant
                i <= D,
                self.coords@.len() == D,
                o.coords@.len() == D,
                forall|j: int| 0 <= j < i ==> self.coords@[j] == o.coords@[j],
            decreases D - i,
        {
            if self.coords[i] != o.coords[i] {
                return false;
            }
            i += 1;
        }
        assert(self.coords@ =~= o.coords@);
        true
    }
}

/// An axis-aligned box with `D` integer coordinates, given by two opposite
/// corners in any order.
#[derive(Clone, Copy, Debug, PartialEq, Eq)]
pub struct AxisBox<const D: usize> {
    pub corner_a: [i32; D],
    pub corner_b: [i32; D],
}

/// The box spanned by corners `a` and `b`, lower corner first.
pub open spec fn span(a: Seq<i32>, b: Seq<i32>) -> RectModel {
    RectModel {
        lower: Seq::new(a.len(), |i: int| if a[i] <= b[i] { a[i] } else { b[i] }),
        upper: Seq::new(a.len(), |i: int| if a[i] <= b[i] { b[i] } else { a[i] }),
    }
}

impl<const D: usize> AxisBox<D> {
    pub fn new(corner_a: [i32; D], corner_b: [i32; D]) -> (r: AxisBox<D>)
        ensures
            r.corner_a@ == corner_a@,
            r.corner_b@ == corner_b@,
    {
        AxisBox { corner_a, corner_b }
    }

    /// The box as a rectangle with its lower corner first.
    fn rect(&self) -> (r: Rect)
        ensures
            r@ == span(self.corner_a@, self.corner_b@),
            r@.wf(D as nat),
    {
        let a = Point::new(self.corner_a).to_vec();
        let b = Point::new(self.corner_b).to_vec();
        let r = Rect::from_corners(&a, &b);
        assert(r@.lower =~= span(self.corner_a@, self.corner_b@).lower);
        assert(r@.upper =~= span(self.corner_a@, self.corner_b@).upper);
        r
    }
}

impl<const D: usize> SpatialObject for AxisBox<D> {
    open spec fn dim_spec() -> nat {
        D as nat
    }

    open spec fn mbr_spec(&self) -> RectModel {
        span(self.corner_a@, self.corner_b@)
    }

    open spec fn distance2_spec(&self, p: Seq<i32>) -> int {
        self.mbr_spec().min_dist2_spec(p)
    }

    open spec fn contains_spec(&self, p: Seq<i32>) -> bool {
        self.mbr_spec().contains_point_spec(p)
    }

    open spec fn eq_spec(&self, o: &Self) -> bool {
        self.mbr_spec() == o.mbr_spec()
    }

    proof fn lemma_mbr_wf(&self) {
    }

    proof fn lemma_contains_in_mbr(&self, p: Seq<i32>) {
    }

    proof fn lemma_distance_bound(&self, p: Seq<i32>) {
    }

    proof fn lemma_min_max_bound(&self, p: Seq<i32>) {
        lemma_min_dist_below_min_max(self.mbr_spec(), p);
    }

    proof fn lemma_contains_distance(&self, p: Seq<i32>) {
        lemma_gap2_inside(self.mbr_spec().lower, self.mbr_spec().upper, p, D as nat);
    }

    proof fn lemma_eq_refl(&self) {
    }

    proof fn lemma_eq_symm(&self, o: &Self) {
    }

    proof fn lemma_eq_mbr(&self, o: &Self) {
    }

    fn dimensions() -> (r: usize) {
        D
    }

    fn mbr(&self) -> (r: Rect) {
        self.rect()
    }

    fn distance2(&self, p: &Vec<i32>) -> (r: u128) {
        self.rect().min_dist2(p)
    }

    fn contains(&self, p: &Vec<i32>) -> (r: bool) {
        self.rect().contains_point(p)
    }

    fn equals(&self, o: &Self) -> (r: bool) {
        let a = self.rect();
        let b = o.rect();
        let mut i: usize = 0;
        while i < D
            invariant
                i <= D,
                a@.wf(D as nat),
                b@.wf(D as nat),
                a@ == self.mbr_spec(),
                b@ == o.mbr_spec(),
                forall|j: int| 0 <= j < i ==> a@.lower[j] == b@.lower[j] && a@.upper[j] == b@.upper[j],
            decreases D - i,
        {
            if a.lower[i] != b.lower[i] || a.upper[i] != b.upper[i] {
                proof {
                    if a@.lower[i as int] != b@.lower[i as int] {
                        assert(a@.lower != b@.lower);
                        assert(self.mbr_spec() != o.mbr_spec());
                    } else {
                        assert(a@.upper != b@.upper);
                        assert(self.mbr_spec() != o.mbr_spec());
                    }
                }
                return false;
            }
            i += 1;
        }
        assert(a@.lower =~= b@.lower);
        assert(a@.upper =~= b@.upper);
        true
    }
}

} // verus!
