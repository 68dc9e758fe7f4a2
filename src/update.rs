use vstd::prelude::*;

use vstd::multiset::Multiset;

use crate::node::{
    DirectoryNodeData, RTreeNode, bag, lemma_bag_remove, lemma_bag_remove_add, node_ok, objects_of,
    touches_lower, touches_upper,
};
use crate::options::RTreeOptions;
use crate::object::SpatialObject;

verus! {

/// `b` is `a` with one leaf's object `x` replaced by `y`: same depth,
/// options, cached rectangle and children, but for one child on the path
/// to that leaf.
pub open spec fn leaf_replaced<T>(a: DirectoryNodeData<T>, b: DirectoryNodeData<T>, x: T, y: T) -> bool
    decreases a, 1int,
{
    exists|i: int| #![trigger a.children@[i]] replaced_at(a, b, x, y, i)
}

/// `leaf_replaced` through child `i`.
pub open spec fn replaced_at<T>(a: DirectoryNodeData<T>, b: DirectoryNodeData<T>, x: T, y: T, i: int) -> bool
    decreases a, 0int,
{
    &&& b.depth == a.depth
    &&& b.options == a.options
    &&& b.bounding_box == a.bounding_box
    &&& b.children@.len() == a.children@.len()
    &&& 0 <= i < a.children@.len()
    &&& forall|k: int| 0 <= k < a.children@.len() && k != i ==> b.children@[k] == a.children@[k]
    &&& if 0 <= i < a.children@.len() {
        match a.children@[i] {
            RTreeNode::Leaf(t) => t == x && b.children@[i] == RTreeNode::Leaf(y),
            RTreeNode::DirectoryNode(ad) => b.children@[i] is DirectoryNode && leaf_replaced(
                ad,
                b.children@[i]->DirectoryNode_0,
                x,
                y,
            ),
        }
    } else {
        false
    }
}

/// Replacing a leaf's object by one with the same rectangle keeps a
/// directory well formed.
pub proof fn lemma_replaced_wf<T: SpatialObject>(a: DirectoryNodeData<T>, b: DirectoryNodeData<T>, x: T, y: T, opts: RTreeOptions)
    requires
        a.wf(opts),
        leaf_replaced(a, b, x, y),
        y.mbr_spec() == x.mbr_spec(),
    ensures
        b.wf(opts),
    decreases a,
{
    let i = choose|i: int| #![trigger a.children@[i]] replaced_at(a, b, x, y, i);
    let ca = a.children@[i];
    let cb = b.children@[i];
    assert(node_ok(a.depth, opts, ca));
    match ca {
        RTreeNode::Leaf(t) => {
            assert(node_ok(b.depth, opts, cb));
            assert(cb.mbr_spec() == ca.mbr_spec());
        },
        RTreeNode::DirectoryNode(ad) => {
            let bd = cb->DirectoryNode_0;
            assert(replaced_at(a, b, x, y, i));
            assert(leaf_replaced(ad, bd, x, y));
            lemma_replaced_wf(ad, bd, x, y, opts);
            let j = choose|j: int| #![trigger ad.children@[j]] replaced_at(ad, bd, x, y, j);
            assert(bd.depth == ad.depth && bd.bounding_box == ad.bounding_box);
            assert(node_ok(b.depth, opts, cb));
            assert(cb.mbr_spec() == ca.mbr_spec());
        },
    }
    assert forall|k: int| 0 <= k < b.children@.len() implies (#[trigger] b.children@[k]).mbr_spec()
        == a.children@[k].mbr_spec() && node_ok(b.depth, opts, b.children@[k]) by {
        if k != i {
            assert(b.children@[k] == a.children@[k]);
        }
    }
    if b.bounding_box is Some {
        let bb = b.bounding_box->0@;
        assert forall|k: int| 0 <= k < T::dim_spec() implies #[trigger] touches_lower(b.children@, bb, k) by {
            assert(touches_lower(a.children@, bb, k));
            let w = choose|w: int| 0 <= w < a.children@.len() && #[trigger] a.children@[w].mbr_spec().lower[k] == bb.lower[k];
            assert(b.children@[w].mbr_spec().lower[k] == bb.lower[k]);
        }
        assert forall|k: int| 0 <= k < T::dim_spec() implies #[trigger] touches_upper(b.children@, bb, k) by {
            assert(touches_upper(a.children@, bb, k));
            let w = choose|w: int| 0 <= w < a.children@.len() && #[trigger] a.children@[w].mbr_spec().upper[k] == bb.upper[k];
            assert(b.children@[w].mbr_spec().upper[k] == bb.upper[k]);
        }
        assert forall|k: int| 0 <= k < b.children@.len() implies bb.contains_rect_spec(
            #[trigger] b.children@[k].mbr_spec(),
        ) by {
            assert(bb.contains_rect_spec(a.children@[k].mbr_spec()));
        }
    }
}

/// Replacing a leaf's object `x` by `y` takes one `x` out of the bag of
/// objects and puts `y` in.
pub proof fn lemma_replaced_bag<T>(a: DirectoryNodeData<T>, b: DirectoryNodeData<T>, x: T, y: T)
    requires
        leaf_replaced(a, b, x, y),
    ensures
        bag(a.objects()).count(x) > 0,
        bag(b.objects()) == bag(a.objects()).remove(x).insert(y),
    decreases a,
{
    broadcast use vstd::multiset::group_multiset_axioms;
    broadcast use vstd::seq_lib::group_to_multiset_ensures;

    let i = choose|i: int| #![trigger a.children@[i]] replaced_at(a, b, x, y, i);
    let ca = a.children@[i];
    let cb = b.children@[i];
    lemma_bag_remove(a.children@, i);
    lemma_bag_remove(b.children@, i);
    assert(a.children@.remove(i) =~= b.children@.remove(i));
    let rest = bag(objects_of(a.children@.remove(i)));
    match ca {
        RTreeNode::Leaf(t) => {
            assert(ca.objects() =~= seq![x]);
            assert(cb.objects() =~= seq![y]);
            assert(seq![x] =~= Seq::<T>::empty().push(x));
            assert(seq![y] =~= Seq::<T>::empty().push(y));
            assert(Seq::<T>::empty().to_multiset() =~= Multiset::<T>::empty());
            assert(bag(ca.objects()) =~= Multiset::<T>::empty().insert(x));
            assert(bag(cb.objects()) =~= Multiset::<T>::empty().insert(y));
        },
        RTreeNode::DirectoryNode(ad) => {
            lemma_replaced_bag(ad, cb->DirectoryNode_0, x, y);
        },
    }
    assert(bag(ca.objects()).count(x) > 0);
    assert(bag(a.objects()).count(x) > 0);
    lemma_bag_remove_add(rest, bag(ca.objects()), x);
    assert(bag(b.objects()) =~= bag(a.objects()).remove(x).insert(y));
}

impl<T: SpatialObject> DirectoryNodeData<T> {
    /// Some object below this directory that contains `p`, lent out for
    /// changing; the caller must leave its rectangle as it was.
    pub fn lookup_mut(&mut self, p: &Vec<i32>) -> (r: Option<&mut T>)
        requires
            old(self).wf(old(self).options),
            p@.len() == T::dim_spec(),
        ensures
            match r {
                Some(o) => old(self).objects().contains(*o) && o.contains_spec(p@) && leaf_replaced(
                    *old(self),
                    *final(self),
                    *o,
                    *final(o),
                ),
                None => *final(self) == *old(self) && forall|j: int|
                    0 <= j < old(self).objects().len() ==> !(#[trigger] old(self).objects()[j]).contains_spec(p@),
            },
        decreases old(self).depth,
    {
        let found = self.lookup(p);
        if found.is_none() {
            return None;
        }
        let i = self.find_containing(p);
        let ghost cs = self.children@;
        proof {
            assert(node_ok(self.depth, self.options, cs[i as int]));
            assert(cs == old(self).children@);
        }
        let child = &mut self.children[i];
        match child {
            RTreeNode::Leaf(t) => {
                proof {
                    assert(cs[i as int].objects() =~= seq![*t]);
                    assert(cs[i as int].objects()[0] == *t);
                    assert(t.contains_spec(p@));
                    crate::query::lemma_member_of_child(cs, i as int, *t);
                    assert(old(self).children@[i as int] == RTreeNode::Leaf(*t));
                    assert(old(self).objects().contains(*t));
                }
                Some(t)
            },
            RTreeNode::DirectoryNode(d) => {
                let ghost od = *d;
                let r = d.lookup_mut(p);
                proof {
                    assert(cs[i as int] == RTreeNode::DirectoryNode(od));
                    assert(cs[i as int].objects() == od.objects());
                    if r is Some {
                        crate::query::lemma_member_of_child(cs, i as int, *r->0);
                    }
                }
                r
            },
        }
    }
}

} // verus!
