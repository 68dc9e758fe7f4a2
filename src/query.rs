use vstd::prelude::*;

use crate::geometry::{Rect, RectModel, axis_gap, gap2_prefix};
use crate::node::{
    node_ok, DirectoryNodeData, RTreeNode, derefs, objects_of, lemma_objects_of_push, lemma_objects_in_mbr,
};
use crate::object::SpatialObject;

verus! {

/// Objects whose rectangle meets `q`.
pub open spec fn meets_rect<T: SpatialObject>(q: RectModel) -> spec_fn(T) -> bool {
    |o: T| o.mbr_spec().intersects_spec(q)
}

/// Objects strictly closer to `p` than the squared radius `r2`.
pub open spec fn within_circle<T: SpatialObject>(p: Seq<i32>, r2: int) -> spec_fn(T) -> bool {
    |o: T| o.distance2_spec(p) < r2
}

pub proof fn lemma_filter_none<A>(s: Seq<A>, pred: spec_fn(A) -> bool)
    requires
        forall|j: int| 0 <= j < s.len() ==> !pred(#[trigger] s[j]),
    ensures
        s.filter(pred) == Seq::<A>::empty(),
{
    assert(s.all(|x: A| !pred(x)));
    s.lemma_all_neg_filter_empty(pred);
    assert(s.filter(pred) =~= Seq::<A>::empty());
}

pub proof fn lemma_prefix_step<T>(cs: Seq<RTreeNode<T>>, i: int)
    requires
        0 <= i < cs.len(),
    ensures
        objects_of(cs.take(i + 1)) == objects_of(cs.take(i)) + cs[i].objects(),
{
    assert(cs.take(i + 1) =~= cs.take(i).push(cs[i]));
    lemma_objects_of_push(cs.take(i), cs[i]);
}

proof fn lemma_gap_mono(alo: int, ahi: int, blo: int, bhi: int, p: int)
    requires
        blo <= alo <= ahi <= bhi,
    ensures
        0 <= axis_gap(blo, bhi, p) <= axis_gap(alo, ahi, p),
        axis_gap(blo, bhi, p) * axis_gap(blo, bhi, p) <= axis_gap(alo, ahi, p) * axis_gap(
            alo,
            ahi,
            p,
        ),
{
    let g1 = axis_gap(blo, bhi, p);
    let g2 = axis_gap(alo, ahi, p);
    assert(g1 * g1 <= g2 * g2) by (nonlinear_arith)
        requires
            0 <= g1 <= g2,
    ;
}

/// A rectangle is never further from a point than a rectangle inside it.
pub proof fn lemma_min_dist2_mono(big: RectModel, small: RectModel, p: Seq<i32>, n: nat)
    requires
        big.contains_rect_spec(small),
        small.wf(big.dim()),
        big.wf(big.dim()),
        n <= big.dim(),
    ensures
        gap2_prefix(big.lower, big.upper, p, n) <= gap2_prefix(small.lower, small.upper, p, n),
    decreases n,
{
    if n > 0 {
        lemma_min_dist2_mono(big, small, p, (n - 1) as nat);
        let k = n - 1;
        lemma_gap_mono(
            small.lower[k] as int,
            small.upper[k] as int,
            big.lower[k] as int,
            big.upper[k] as int,
            p[k] as int,
        );
    }
}

/// An object below a well-formed directory is at least as far from `p` as
/// the directory's rectangle.
pub proof fn lemma_object_dist<T: SpatialObject>(d: DirectoryNodeData<T>, o: T, p: Seq<i32>)
    requires
        d.wf(d.options),
        d.objects().contains(o),
        p.len() == T::dim_spec(),
    ensures
        o.distance2_spec(p) >= d.bounding_box->0@.min_dist2_spec(p),
{
    lemma_objects_in_mbr(d, d.options, o);
    o.lemma_mbr_wf();
    o.lemma_distance_bound(p);
    lemma_min_dist2_mono(d.bounding_box->0@, o.mbr_spec(), p, T::dim_spec());
}

impl<T: SpatialObject> DirectoryNodeData<T> {
    /// Appends every object below this directory whose rectangle meets `q`.
    pub fn lookup_in_rectangle<'b>(&'b self, result: &mut Vec<&'b T>, q: &Rect)
        requires
            self.wf(self.options),
            q@.wf(T::dim_spec()),
        ensures
            derefs(final(result)@) == derefs(old(result)@) + self.objects().filter(
                meets_rect::<T>(q@),
            ),
        decreases self,
    {
        let ghost cs = self.children@;
        let ghost pred = meets_rect::<T>(q@);
        let mut i: usize = 0;
        assert(cs.take(0) =~= Seq::<RTreeNode<T>>::empty());
        assert(derefs(result@) =~= derefs(old(result)@) + objects_of(cs.take(0)).filter(pred));
        while i < self.children.len()
            invariant
                self.wf(self.options),
                q@.wf(T::dim_spec()),
                cs == self.children@,
                pred == meets_rect::<T>(q@),
                i <= cs.len(),
                derefs(result@) == derefs(old(result)@) + objects_of(cs.take(i as int)).filter(pred),
            decreases cs.len() - i,
        {
            let child = &self.children[i];
            let ghost before = derefs(result@);
            proof {
                lemma_prefix_step(cs, i as int);
                Seq::filter_distributes_over_add(objects_of(cs.take(i as int)), child.objects(), pred);
                assert(node_ok(self.depth, self.options, cs[i as int]));
            }
            match child {
                RTreeNode::DirectoryNode(data) => {
                    assert(data.wf(self.options));
                    let bb = data.bounding_box.as_ref().unwrap();
                    if bb.intersects(q) {
                        data.lookup_in_rectangle(result, q);
                        assert(derefs(result@) =~= before + child.objects().filter(pred));
                    } else {
                        proof {
                            assert forall|j: int| 0 <= j < data.objects().len() implies !pred(
                                #[trigger] data.objects()[j],
                            ) by {
                                let o = data.objects()[j];
                                assert(data.objects().contains(o));
                                lemma_objects_in_mbr(*data, self.options, o);
                                o.lemma_mbr_wf();
                                if pred(o) {
                                    lemma_meets_inner(bb@, o.mbr_spec(), q@);
                                }
                            }
                            lemma_filter_none(data.objects(), pred);
                            assert(derefs(result@) =~= before + child.objects().filter(pred));
                        }
                    }
                },
                RTreeNode::Leaf(t) => {
                    let tb = t.mbr();
                    proof {
                        assert(seq![*t].filter(pred) =~= if pred(*t) {
                            seq![*t]
                        } else {
                            Seq::<T>::empty()
                        }) by {
                            reveal_with_fuel(Seq::filter, 2);
                        }
                    }
                    if tb.intersects(q) {
                        result.push(t);
                    }
                    assert(derefs(result@) =~= before + child.objects().filter(pred));
                },
            }
            proof {
                assert(derefs(result@) =~= derefs(old(result)@) + objects_of(cs.take(i + 1)).filter(pred));
            }
            i += 1;
        }
        assert(cs.take(cs.len() as int) =~= cs);
    }
}

impl<T: SpatialObject> DirectoryNodeData<T> {
    /// Appends every object below this directory that is strictly closer to
    /// `origin` than the squared radius `r2`.
    pub fn lookup_in_circle<'b>(&'b self, result: &mut Vec<&'b T>, origin: &Vec<i32>, r2: u128)
        requires
            self.wf(self.options),
            origin@.len() == T::dim_spec(),
        ensures
            derefs(final(result)@) == derefs(old(result)@) + self.objects().filter(
                within_circle::<T>(origin@, r2 as int),
            ),
        decreases self,
    {
        let ghost cs = self.children@;
        let ghost pred = within_circle::<T>(origin@, r2 as int);
        let mut i: usize = 0;
        assert(cs.take(0) =~= Seq::<RTreeNode<T>>::empty());
        assert(derefs(result@) =~= derefs(old(result)@) + objects_of(cs.take(0)).filter(pred));
        while i < self.children.len()
            invariant
                self.wf(self.options),
                origin@.len() == T::dim_spec(),
                cs == self.children@,
                pred == within_circle::<T>(origin@, r2 as int),
                i <= cs.len(),
                derefs(result@) == derefs(old(result)@) + objects_of(cs.take(i as int)).filter(pred),
            decreases cs.len() - i,
        {
            let child = &self.children[i];
            let ghost before = derefs(result@);
            proof {
                lemma_prefix_step(cs, i as int);
                Seq::filter_distributes_over_add(objects_of(cs.take(i as int)), child.objects(), pred);
                assert(node_ok(self.depth, self.options, cs[i as int]));
            }
            match child {
                RTreeNode::DirectoryNode(data) => {
                    assert(data.wf(self.options));
                    let bb = data.bounding_box.as_ref().unwrap();
                    if bb.min_dist2(origin) <= r2 {
                        data.lookup_in_circle(result, origin, r2);
                        assert(derefs(result@) =~= before + child.objects().filter(pred));
                    } else {
                        proof {
                            assert forall|j: int| 0 <= j < data.objects().len() implies !pred(
                                #[trigger] data.objects()[j],
                            ) by {
                                let o = data.objects()[j];
                                assert(data.objects().contains(o));
                                lemma_object_dist(*data, o, origin@);
                            }
                            lemma_filter_none(data.objects(), pred);
                            assert(derefs(result@) =~= before + child.objects().filter(pred));
                        }
                    }
                },
                RTreeNode::Leaf(t) => {
                    proof {
                        assert(seq![*t].filter(pred) =~= if pred(*t) {
                            seq![*t]
                        } else {
                            Seq::<T>::empty()
                        }) by {
                            reveal_with_fuel(Seq::filter, 2);
                        }
                    }
                    if t.distance2(origin) < r2 {
                        result.push(t);
                    }
                    assert(derefs(result@) =~= before + child.objects().filter(pred));
                },
            }
            proof {
                assert(derefs(result@) =~= derefs(old(result)@) + objects_of(cs.take(i + 1)).filter(pred));
            }
            i += 1;
        }
        assert(cs.take(cs.len() as int) =~= cs);
    }

    /// Appends every object below this directory, left to right.
    pub fn collect_objects<'b>(&'b self, result: &mut Vec<&'b T>)
        ensures
            derefs(final(result)@) == derefs(old(result)@) + self.objects(),
        decreases self,
    {
        let ghost cs = self.children@;
        let mut i: usize = 0;
        assert(cs.take(0) =~= Seq::<RTreeNode<T>>::empty());
        assert(derefs(result@) =~= derefs(old(result)@) + objects_of(cs.take(0)));
        while i < self.children.len()
            invariant
                cs == self.children@,
                i <= cs.len(),
                derefs(result@) == derefs(old(result)@) + objects_of(cs.take(i as int)),
            decreases cs.len() - i,
        {
            let child = &self.children[i];
            let ghost before = derefs(result@);
            proof {
                lemma_prefix_step(cs, i as int);
            }
            match child {
                RTreeNode::DirectoryNode(data) => {
                    data.collect_objects(result);
                },
                RTreeNode::Leaf(t) => {
                    result.push(t);
                },
            }
            assert(derefs(result@) =~= before + child.objects());
            assert(derefs(result@) =~= derefs(old(result)@) + objects_of(cs.take(i + 1)));
            i += 1;
        }
        assert(cs.take(cs.len() as int) =~= cs);
    }

    /// Some object below this directory that contains `p`, if there is one.
    pub fn lookup(&self, p: &Vec<i32>) -> (r: Option<&T>)
        requires
            self.wf(self.options),
            p@.len() == T::dim_spec(),
        ensures
            match r {
                Some(o) => self.objects().contains(*o) && o.contains_spec(p@),
                None => forall|j: int|
                    0 <= j < self.objects().len() ==> !(#[trigger] self.objects()[j]).contains_spec(p@),
            },
        decreases self,
    {
        let ghost cs = self.children@;
        match &self.bounding_box {
            None => {
                assert(cs.len() == 0);
                return None;
            },
            Some(bb) => {
                if !bb.contains_point(p) {
                    proof {
                        assert forall|j: int| 0 <= j < self.objects().len() implies !(
                        #[trigger] self.objects()[j]).contains_spec(p@) by {
                            let o = self.objects()[j];
                            assert(self.objects().contains(o));
                            lemma_objects_in_mbr(*self, self.options, o);
                            o.lemma_mbr_wf();
                            if o.contains_spec(p@) {
                                o.lemma_contains_in_mbr(p@);
                            }
                        }
                    }
                    return None;
                }
            },
        }
        let mut i: usize = 0;
        assert(cs.take(0) =~= Seq::<RTreeNode<T>>::empty());
        while i < self.children.len()
            invariant
                self.wf(self.options),
                p@.len() == T::dim_spec(),
                cs == self.children@,
                i <= cs.len(),
                forall|j: int|
                    0 <= j < objects_of(cs.take(i as int)).len() ==> !(#[trigger] objects_of(
                        cs.take(i as int),
                    )[j]).contains_spec(p@),
            decreases cs.len() - i,
        {
            let child = &self.children[i];
            proof {
                lemma_prefix_step(cs, i as int);
                assert(node_ok(self.depth, self.options, cs[i as int]));
            }
            match child {
                RTreeNode::DirectoryNode(data) => {
                    assert(data.wf(self.options));
                    let found = data.lookup(p);
                    if found.is_some() {
                        proof {
                            lemma_member_of_child(cs, i as int, *found.unwrap());
                        }
                        return found;
                    }
                    assert(child.objects() == data.objects());
                },
                RTreeNode::Leaf(t) => {
                    if t.contains(p) {
                        proof {
                            assert(child.objects()[0] == *t);
                            lemma_member_of_child(cs, i as int, *t);
                        }
                        return Some(t);
                    }
                    assert(child.objects() =~= seq![*t]);
                    assert(!child.objects()[0].contains_spec(p@));
                },
            }
            proof {
                let all = objects_of(cs.take(i + 1));
                let pre = objects_of(cs.take(i as int));
                assert forall|j: int| 0 <= j < all.len() implies !(#[trigger] all[j]).contains_spec(p@) by {
                    if j >= pre.len() {
                        assert(all[j] == child.objects()[j - pre.len()]);
                    } else {
                        assert(all[j] == pre[j]);
                    }
                }
            }
            i += 1;
        }
        assert(cs.take(cs.len() as int) =~= cs);
        None
    }

    /// Whether some object below this directory equals `obj`.
    pub fn contains(&self, obj: &T) -> (r: bool)
        requires
            self.wf(self.options),
        ensures
            r == exists|j: int|
                0 <= j < self.objects().len() && (#[trigger] self.objects()[j]).eq_spec(obj),
        decreases self,
    {
        let ghost cs = self.children@;
        match &self.bounding_box {
            None => {
                assert(cs.len() == 0);
                return false;
            },
            Some(bb) => {
                let ob = obj.mbr();
                if !bb.contains_rect(&ob) {
                    proof {
                        assert forall|j: int| 0 <= j < self.objects().len() implies !(
                        #[trigger] self.objects()[j]).eq_spec(obj) by {
                            let o = self.objects()[j];
                            assert(self.objects().contains(o));
                            lemma_objects_in_mbr(*self, self.options, o);
                            if o.eq_spec(obj) {
                                o.lemma_eq_mbr(obj);
                            }
                        }
                    }
                    return false;
                }
            },
        }
        let mut i: usize = 0;
        assert(cs.take(0) =~= Seq::<RTreeNode<T>>::empty());
        while i < self.children.len()
            invariant
                self.wf(self.options),
                cs == self.children@,
                i <= cs.len(),
                forall|j: int|
                    0 <= j < objects_of(cs.take(i as int)).len() ==> !(#[trigger] objects_of(
                        cs.take(i as int),
                    )[j]).eq_spec(obj),
            decreases cs.len() - i,
        {
            let child = &self.children[i];
            proof {
                lemma_prefix_step(cs, i as int);
                assert(node_ok(self.depth, self.options, cs[i as int]));
            }
            match child {
                RTreeNode::DirectoryNode(data) => {
                    assert(data.wf(self.options));
                    if data.contains(obj) {
                        proof {
                            let j = choose|j: int|
                                0 <= j < data.objects().len() && (#[trigger] data.objects()[j]).eq_spec(obj);
                            lemma_member_of_child(cs, i as int, data.objects()[j]);
                            lemma_witness(self.objects(), data.objects()[j], obj);
                        }
                        return true;
                    }
                    assert(child.objects() == data.objects());
                },
                RTreeNode::Leaf(t) => {
                    if t.equals(obj) {
                        proof {
                            assert(child.objects()[0] == *t);
                            lemma_member_of_child(cs, i as int, *t);
                            lemma_witness(self.objects(), *t, obj);
                        }
                        return true;
                    }
                    assert(child.objects() =~= seq![*t]);
                    assert(!child.objects()[0].eq_spec(obj));
                },
            }
            proof {
                let all = objects_of(cs.take(i + 1));
                let pre = objects_of(cs.take(i as int));
                assert forall|j: int| 0 <= j < all.len() implies !(#[trigger] all[j]).eq_spec(obj) by {
                    if j >= pre.len() {
                        assert(all[j] == child.objects()[j - pre.len()]);
                    } else {
                        assert(all[j] == pre[j]);
                    }
                }
            }
            i += 1;
        }
        assert(cs.take(cs.len() as int) =~= cs);
        false
    }
}

proof fn lemma_witness<T: SpatialObject>(s: Seq<T>, o: T, obj: &T)
    requires
        s.contains(o),
        o.eq_spec(obj),
    ensures
        exists|j: int| 0 <= j < s.len() && (#[trigger] s[j]).eq_spec(obj),
{
    let j = choose|j: int| 0 <= j < s.len() && s[j] == o;
    assert(s[j].eq_spec(obj));
}

/// An object below one node of a sequence is below the sequence.
pub proof fn lemma_member_of_child<T>(cs: Seq<RTreeNode<T>>, i: int, o: T)
    requires
        0 <= i < cs.len(),
        cs[i].objects().contains(o),
    ensures
        objects_of(cs).contains(o),
    decreases cs.len(),
{
    let a = objects_of(cs.drop_last());
    let b = cs.last().objects();
    if i == cs.len() - 1 {
        let k = choose|k: int| 0 <= k < b.len() && b[k] == o;
        assert((a + b)[a.len() + k] == o);
    } else {
        assert(cs.drop_last()[i] == cs[i]);
        lemma_member_of_child(cs.drop_last(), i, o);
        let k = choose|k: int| 0 <= k < a.len() && a[k] == o;
        assert((a + b)[k] == o);
    }
}

/// A rectangle that meets `q` lies inside no rectangle that misses it.
proof fn lemma_meets_inner(big: RectModel, small: RectModel, q: RectModel)
    requires
        big.contains_rect_spec(small),
        small.intersects_spec(q),
        small.dim() == big.dim(),
    ensures
        big.intersects_spec(q),
{
}

} // verus!
