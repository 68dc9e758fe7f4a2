use vstd::prelude::*;
use vstd::multiset::Multiset;

use crate::geometry::{Rect, RectModel};
use crate::insert::{
    InsertionResult, InsertionState, lemma_open_levels_bound, open_levels, subtree_ok,
};
use crate::node::{
    DirectoryNodeData, RTreeNode, bag, derefs, lemma_bag_concat, lemma_bag_empty, lemma_bag_push,
    faces_reached, lemma_objects_in_mbr, node_ok, objects_of,
};
use crate::object::SpatialObject;
use crate::options::RTreeOptions;
use crate::nearest::{at_dist, greedy_leaf, knn_ok, nearest_ok};
use crate::query::{meets_rect, within_circle};
use crate::update::{lemma_replaced_bag, lemma_replaced_wf, leaf_replaced, replaced_at};

verus! {

/// An n-dimensional r*-tree over objects of type `T`.
pub struct RTree<T> {
    root: DirectoryNodeData<T>,
    size: usize,
}

impl<T: SpatialObject> RTree<T> {
    /// The tree's invariant: valid options, a well-formed root whose depth
    /// is one when it is empty, and `size` counting the objects.
    pub closed spec fn wf(&self) -> bool {
        &&& self.root.options.valid()
        &&& self.root.wf(self.root.options)
        &&& (self.root.children@.len() == 0 ==> self.root.depth == 1)
        &&& self.root.depth > 1 ==> self.root.children@.len() > 0
        &&& self.size == self.root.objects().len()
    }

    /// The objects in the tree, in iteration order.
    pub closed spec fn objects(&self) -> Seq<T> {
        self.root.objects()
    }

    /// Number of levels of directories.
    pub closed spec fn height(&self) -> nat {
        self.root.depth as nat
    }

    pub closed spec fn options(&self) -> RTreeOptions {
        self.root.options
    }

    /// The root directory.
    pub closed spec fn root_spec(&self) -> DirectoryNodeData<T> {
        self.root
    }

    /// The structural invariants hold of every well-formed tree: every
    /// directory's cached rectangle is the exact union of its children's,
    /// children sit exactly one level below their directory, every
    /// directory holds at most `max_size` children and every directory but
    /// the root at least one (all of this recursively, as
    /// `DirectoryNodeData::wf` states it), and the size counts the objects.
    pub proof fn lemma_structure(&self)
        requires
            self.wf(),
        ensures
            self.root_spec().wf(self.options()),
            self.root_spec().depth == self.height(),
            self.root_spec().children@.len() <= self.options().max_size,
            self.root_spec().objects() == self.objects(),
            self.options().valid(),
    {
    }

    /// A tree from which every object has been removed again is empty: no
    /// objects, no children under the root, and depth one.
    pub proof fn lemma_emptied(&self)
        requires
            self.wf(),
            bag(self.objects()) == Multiset::<T>::empty(),
        ensures
            self.objects().len() == 0,
            self.root_spec().children@.len() == 0,
            self.height() == 1,
    {
        broadcast use vstd::seq_lib::group_to_multiset_ensures;

        assert(bag(self.objects()).len() == 0);
        if self.root.children@.len() > 0 {
            crate::node::lemma_nonempty_objects(self.root, self.root.options);
        }
    }

    /// Inserting `o` and then removing by a point `p` that `o` contains
    /// removes some object containing `p` and restores the previous size.
    pub proof fn lemma_insert_then_lookup_and_remove(
        t0: &RTree<T>,
        t1: &RTree<T>,
        t2: &RTree<T>,
        o: T,
        p: Seq<i32>,
        r: Option<T>,
    )
        requires
            t0.wf(),
            t1.wf(),
            t2.wf(),
            bag(t1.objects()) == bag(t0.objects()).insert(o),
            o.contains_spec(p),
            removed_by_point(t1.objects(), t2.objects(), p, r),
        ensures
            r is Some,
            r->0.contains_spec(p),
            t2.objects().len() == t0.objects().len(),
    {
        broadcast use vstd::seq_lib::group_to_multiset_ensures;
        broadcast use vstd::multiset::group_multiset_axioms;

        assert(bag(t1.objects()).count(o) > 0);
        assert(t1.objects().contains(o));
        if r is None {
            let j = choose|j: int| 0 <= j < t1.objects().len() && t1.objects()[j] == o;
            assert(!t1.objects()[j].contains_spec(p));
        } else {
            lemma_bag_len_remove(t1.objects(), t2.objects(), r->0);
            assert(bag(t1.objects()).len() == t1.objects().len());
            assert(bag(t0.objects()).len() == t0.objects().len());
        }
    }

    /// A point contained by an object of the tree is always found: the
    /// lookup answers with some object that contains it.
    pub proof fn lemma_lookup_finds(&self, o: T, p: Seq<i32>, r: Option<&T>)
        requires
            self.wf(),
            self.objects().contains(o),
            o.contains_spec(p),
            found_by_point(self.objects(), p, r),
        ensures
            r is Some,
            r->0.contains_spec(p),
    {
        if r is None {
            let j = choose|j: int| 0 <= j < self.objects().len() && self.objects()[j] == o;
            assert(!self.objects()[j].contains_spec(p));
        }
    }

    /// `self` is `t0` with one stored object `x` replaced by `y`, in place.
    pub closed spec fn replaces(&self, t0: RTree<T>, x: T, y: T) -> bool {
        leaf_replaced(t0.root, self.root, x, y) && self.size == t0.size
    }

    /// Some object that contains `query_point`, lent out for changing; the
    /// caller must leave its rectangle as it was (see `lemma_replaced`).
    /// `None`, with nothing changed, when no object contains the point.
    pub fn lookup_mut(&mut self, query_point: &Vec<i32>) -> (r: Option<&mut T>)
        requires
            old(self).wf(),
            query_point@.len() == T::dim_spec(),
        ensures
            match r {
                Some(o) => old(self).objects().contains(*o) && o.contains_spec(query_point@)
                    && final(self).replaces(*old(self), *o, *final(o)),
                None => *final(self) == *old(self) && forall|j: int|
                    0 <= j < old(self).objects().len() ==> !(#[trigger] old(self).objects()[j]).contains_spec(
                        query_point@,
                    ),
            },
    {
        if self.size > 0 {
            self.root.lookup_mut(query_point)
        } else {
            None
        }
    }

    /// After `lookup_mut` lent out `x` and the caller left `y` in its place:
    /// the bag of objects has `y` for one `x`, nothing else changed, and the
    /// tree is well formed again if `y` has `x`'s rectangle.
    pub proof fn lemma_replaced(t0: &RTree<T>, t1: &RTree<T>, x: T, y: T)
        requires
            t0.wf(),
            t1.replaces(*t0, x, y),
        ensures
            bag(t1.objects()) == bag(t0.objects()).remove(x).insert(y),
            t1.objects().len() == t0.objects().len(),
            t1.options() == t0.options(),
            t1.height() == t0.height(),
            y.mbr_spec() == x.mbr_spec() ==> t1.wf(),
    {
        broadcast use vstd::multiset::group_multiset_axioms;
        broadcast use vstd::seq_lib::group_to_multiset_ensures;

        let i = choose|i: int| #![trigger t0.root.children@[i]] replaced_at(t0.root, t1.root, x, y, i);
        lemma_replaced_bag(t0.root, t1.root, x, y);
        assert(bag(t1.objects()).len() == bag(t0.objects()).len());
        if y.mbr_spec() == x.mbr_spec() {
            lemma_replaced_wf(t0.root, t1.root, x, y, t0.root.options);
        }
    }

    /// A stored object is always found by `remove` and `contains`: some
    /// stored object equals it.
    pub proof fn lemma_stored_found(&self, o: T)
        requires
            self.objects().contains(o),
        ensures
            exists|j: int| 0 <= j < self.objects().len() && (#[trigger] self.objects()[j]).eq_spec(&o),
    {
        o.lemma_eq_refl();
        let j = choose|j: int| 0 <= j < self.objects().len() && self.objects()[j] == o;
        assert(self.objects()[j].eq_spec(&o));
    }

    /// Removing one object from a tree that holds `x` at least twice leaves
    /// `x` in the tree.
    pub proof fn lemma_duplicate_survives(t1: &RTree<T>, t2: &RTree<T>, x: T, removed: T)
        requires
            bag(t1.objects()).count(x) >= 2,
            bag(t2.objects()) == bag(t1.objects()).remove(removed),
        ensures
            t2.objects().contains(x),
            exists|j: int| 0 <= j < t2.objects().len() && (#[trigger] t2.objects()[j]).eq_spec(&x),
    {
        broadcast use vstd::multiset::group_multiset_axioms;
        broadcast use vstd::seq_lib::group_to_multiset_ensures;

        assert(bag(t2.objects()).count(x) >= 1);
        assert(t2.objects().contains(x));
        t2.lemma_stored_found(x);
    }

    /// A query point inside a stored object has a nearest neighbour at
    /// distance zero.
    pub proof fn lemma_nearest_at_zero(&self, o: T, p: Seq<i32>, r: Option<&T>)
        requires
            self.wf(),
            self.objects().contains(o),
            p.len() == T::dim_spec(),
            o.contains_spec(p),
            nearest_ok(self.objects(), p, None, r),
        ensures
            r is Some,
            r->0.distance2_spec(p) == 0,
    {
        o.lemma_contains_distance(p);
        let j = choose|j: int| 0 <= j < self.objects().len() && self.objects()[j] == o;
        if r is Some {
            let x = *r->0;
            x.lemma_distance_bound(p);
            crate::geometry::lemma_gap2_nonneg(x.mbr_spec().lower, x.mbr_spec().upper, p, x.mbr_spec().dim());
            assert(x.distance2_spec(p) <= self.objects()[j].distance2_spec(p));
        } else {
            assert(self.objects()[j].distance2_spec(p) >= 0);
        }
    }

    /// Room to grow: an insertion never takes the depth past `usize::MAX`.
    pub open spec fn has_room(&self) -> bool {
        &&& self.objects().len() < usize::MAX
        &&& (self.height() + 1) * (self.options().reinsertion_count + 2) < usize::MAX
    }

    /// An empty tree with the default options.
    pub fn new() -> (r: RTree<T>)
        ensures
            r.wf(),
            r.objects() == Seq::<T>::empty(),
            r.options() == RTreeOptions::default_spec(),
            r.height() == 1,
    {
        RTree::new_with_options(RTreeOptions::new())
    }

    /// An empty tree with the given options.
    pub fn new_with_options(options: RTreeOptions) -> (r: RTree<T>)
        requires
            options.valid(),
        ensures
            r.wf(),
            r.objects() == Seq::<T>::empty(),
            r.options() == options,
            r.height() == 1,
    {
        let root = DirectoryNodeData { bounding_box: None, children: Vec::new(), depth: 1, options };
        proof {
            assert(objects_of(root.children@) =~= Seq::<T>::empty());
        }
        RTree { root, size: 0 }
    }

    /// Number of objects in the tree.
    pub fn size(&self) -> (r: usize)
        requires
            self.wf(),
        ensures
            r == self.objects().len(),
    {
        self.size
    }

    /// The rectangle covering every object; `None` exactly when the tree is
    /// empty.
    pub fn mbr(&self) -> (r: Option<Rect>)
        requires
            self.wf(),
        ensures
            r is None <==> self.objects().len() == 0,
            r is Some ==> r->0@ == self.root_spec().bounding_box->0@ && r->0@.wf(T::dim_spec()),
            r is Some ==> forall|i: int|
                0 <= i < self.objects().len() ==> r->0@.contains_rect_spec(
                    #[trigger] self.objects()[i].mbr_spec(),
                ),
            r is Some ==> forall|k: int|
                0 <= k < T::dim_spec() ==> #[trigger] faces_reached(self.objects(), r->0@, k),
    {
        proof {
            if self.root.children@.len() > 0 {
                assert forall|k: int| 0 <= k < T::dim_spec() implies #[trigger] faces_reached(
                    self.objects(),
                    self.root.bounding_box->0@,
                    k,
                ) by {
                    crate::node::lemma_face_objects(self.root, self.root.options, k);
                }
            }
            crate::node::lemma_bag_empty::<T>();
            if self.root.children@.len() == 0 {
                assert(self.root.children@ =~= Seq::<RTreeNode<T>>::empty());
            } else {
                crate::node::lemma_nonempty_objects(self.root, self.root.options);
            }
            assert forall|i: int| 0 <= i < self.objects().len() implies self.root.bounding_box is Some
                && self.root.bounding_box->0@.contains_rect_spec(
                #[trigger] self.objects()[i].mbr_spec(),
            ) by {
                assert(self.root.objects().contains(self.objects()[i]));
                lemma_objects_in_mbr(self.root, self.root.options, self.objects()[i]);
            }
        }
        match &self.root.bounding_box {
            Some(b) => Some(b.copy()),
            None => None,
        }
    }

    /// Every object in the tree.
    pub fn iter(&self) -> (r: Vec<&T>)
        requires
            self.wf(),
        ensures
            derefs(r@) == self.objects(),
    {
        let mut result: Vec<&T> = Vec::new();
        self.root.collect_objects(&mut result);
        assert(derefs(Seq::<&T>::empty()) =~= Seq::<T>::empty());
        assert(derefs(result@) =~= self.objects());
        result
    }

    /// The root directory.
    pub fn root(&self) -> (r: &DirectoryNodeData<T>)
        ensures
            *r == self.root_spec(),
            r.objects() == self.objects(),
    {
        &self.root
    }

    /// Some object that contains `query_point`; `None` when none does.
    pub fn lookup(&self, query_point: &Vec<i32>) -> (r: Option<&T>)
        requires
            self.wf(),
            query_point@.len() == T::dim_spec(),
        ensures
            found_by_point(self.objects(), query_point@, r),
    {
        if self.size > 0 {
            self.root.lookup(query_point)
        } else {
            None
        }
    }

    /// Whether some object in the tree equals `obj`.
    pub fn contains(&self, obj: &T) -> (r: bool)
        requires
            self.wf(),
        ensures
            r == exists|j: int|
                0 <= j < self.objects().len() && (#[trigger] self.objects()[j]).eq_spec(obj),
    {
        assert(self.objects() == self.root.objects());
        self.root.contains(obj)
    }

    /// The objects whose rectangle meets `query_rect`, in iteration order.
    pub fn lookup_in_rectangle(&self, query_rect: &Rect) -> (r: Vec<&T>)
        requires
            self.wf(),
            query_rect@.wf(T::dim_spec()),
        ensures
            derefs(r@) == self.objects().filter(meets_rect::<T>(query_rect@)),
    {
        let mut result: Vec<&T> = Vec::new();
        assert(derefs(Seq::<&T>::empty()) =~= Seq::<T>::empty());
        if self.size > 0 {
            self.root.lookup_in_rectangle(&mut result, query_rect);
            assert(derefs(result@) =~= self.objects().filter(meets_rect::<T>(query_rect@)));
        } else {
            assert(self.objects() =~= Seq::<T>::empty());
            assert(self.objects().filter(meets_rect::<T>(query_rect@)) =~= Seq::<T>::empty());
        }
        result
    }

    /// The objects strictly closer to `circle_origin` than the squared
    /// radius `radius2`, in iteration order.
    pub fn lookup_in_circle(&self, circle_origin: &Vec<i32>, radius2: u128) -> (r: Vec<&T>)
        requires
            self.wf(),
            circle_origin@.len() == T::dim_spec(),
        ensures
            derefs(r@) == self.objects().filter(within_circle::<T>(circle_origin@, radius2 as int)),
    {
        let mut result: Vec<&T> = Vec::new();
        assert(derefs(Seq::<&T>::empty()) =~= Seq::<T>::empty());
        if self.size > 0 {
            self.root.lookup_in_circle(&mut result, circle_origin, radius2);
            assert(derefs(result@) =~= self.objects().filter(
                within_circle::<T>(circle_origin@, radius2 as int),
            ));
        } else {
            assert(self.objects() =~= Seq::<T>::empty());
            assert(self.objects().filter(within_circle::<T>(circle_origin@, radius2 as int))
                =~= Seq::<T>::empty());
        }
        result
    }

    /// Removes one object equal to `obj`; `false`, with nothing changed,
    /// when there is none.
    pub fn remove(&mut self, obj: &T) -> (r: bool)
        requires
            old(self).wf(),
        ensures
            final(self).wf(),
            final(self).options() == old(self).options(),
            r == exists|j: int|
                0 <= j < old(self).objects().len() && (#[trigger] old(self).objects()[j]).eq_spec(obj),
            r ==> exists|o: T|
                old(self).objects().contains(o) && o.eq_spec(obj) && bag(final(self).objects()) == bag(
                    old(self).objects(),
                ).remove(o),
            !r ==> *final(self) == *old(self),
            r ==> final(self).objects().len() + 1 == old(self).objects().len(),
            final(self).height() <= old(self).height(),
    {
        if self.size == 0 {
            assert(self.objects().len() == 0);
            return false;
        }
        let ghost before = self.root.objects();
        assert(before == old(self).objects());
        let result = self.root.remove(obj);
        if self.root.children.len() == 0 {
            self.root.depth = 1;
        }
        if result {
            proof {
                let o = choose|o: T|
                    before.contains(o) && o.eq_spec(obj) && bag(self.root.objects()) == bag(before).remove(o);
                lemma_bag_len_remove(before, self.root.objects(), o);
            }
            self.size = self.size - 1;
        }
        result
    }

    /// Removes and returns one object containing `query_point`; `None`,
    /// with nothing changed, when no object contains it.
    pub fn lookup_and_remove(&mut self, query_point: &Vec<i32>) -> (r: Option<T>)
        requires
            old(self).wf(),
            query_point@.len() == T::dim_spec(),
        ensures
            final(self).wf(),
            final(self).options() == old(self).options(),
            removed_by_point(old(self).objects(), final(self).objects(), query_point@, r),
            r is None ==> *final(self) == *old(self),
            r is Some ==> final(self).objects().len() + 1 == old(self).objects().len(),
            final(self).height() <= old(self).height(),
    {
        if self.size == 0 {
            assert(self.objects().len() == 0);
            return None;
        }
        let ghost before = self.root.objects();
        let result = self.root.lookup_and_remove(query_point);
        if result.is_some() {
            if self.root.children.len() == 0 {
                self.root.depth = 1;
            }
            proof {
                lemma_bag_len_remove(before, self.root.objects(), result->0);
            }
            self.size = self.size - 1;
        }
        result
    }

    /// The object nearest to `query_point`; `None` exactly when the tree is
    /// empty.
    pub fn nearest_neighbor(&self, query_point: &Vec<i32>) -> (r: Option<&T>)
        requires
            self.wf(),
            query_point@.len() == T::dim_spec(),
        ensures
            nearest_ok(self.objects(), query_point@, None, r),
            r is None <==> self.objects().len() == 0,
    {
        if self.size > 0 {
            let r = self.root.nearest_neighbor(query_point, None);
            proof {
                if r is None {
                    assert(self.root.objects()[0] == self.objects()[0]);
                }
            }
            r
        } else {
            None
        }
    }

    /// All objects at the least distance from `query_point`: an object is in
    /// the result exactly when it is in the tree and no object is closer.
    pub fn nearest_neighbors(&self, query_point: &Vec<i32>) -> (r: Vec<&T>)
        requires
            self.wf(),
            query_point@.len() == T::dim_spec(),
        ensures
            forall|y: T|
                #[trigger] derefs(r@).contains(y) <==> (self.objects().contains(y) && forall|j: int|
                    0 <= j < self.objects().len() ==> y.distance2_spec(query_point@) <= (
                    #[trigger] self.objects()[j]).distance2_spec(query_point@)),
            r@.len() == 0 <==> self.objects().len() == 0,
            r@.len() > 0 ==> bag(derefs(r@)) == bag(self.objects()).filter(
                at_dist::<T>(query_point@, derefs(r@)[0].distance2_spec(query_point@)),
            ),
    {
        let mut result: Vec<&T> = Vec::new();
        let ghost s = self.objects();
        proof {
            assert(derefs(result@) =~= Seq::<T>::empty());
        }
        if self.size > 0 {
            let d = self.root.nearest_neighbors(query_point, None, &mut result);
            proof {
                let res = derefs(result@);
                if d is None {
                    assert(s.len() == 0);
                } else {
                    let y0 = res[0];
                    assert(res.contains(y0));
                    assert(y0.distance2_spec(query_point@) == d->0);
                    assert(bag(res) =~= bag(s).filter(at_dist::<T>(query_point@, d->0 as int))) by {
                        broadcast use vstd::multiset::group_multiset_axioms;
                        broadcast use vstd::seq_lib::group_to_multiset_ensures;
                    }
                    assert forall|y: T| #[trigger] res.contains(y) <==> (s.contains(y) && forall|j: int|
                        0 <= j < s.len() ==> y.distance2_spec(query_point@) <= (
                        #[trigger] s[j]).distance2_spec(query_point@)) by {
                        if s.contains(y) && forall|j: int|
                            0 <= j < s.len() ==> y.distance2_spec(query_point@) <= (
                            #[trigger] s[j]).distance2_spec(query_point@) {
                            let j0 = choose|j0: int| 0 <= j0 < s.len() && s[j0] == y0;
                            let jy = choose|jy: int| 0 <= jy < s.len() && s[jy] == y;
                            assert(y.distance2_spec(query_point@) <= s[j0].distance2_spec(query_point@));
                            assert(s[jy].distance2_spec(query_point@) >= d->0);
                        }
                        if res.contains(y) {
                            assert forall|j: int| 0 <= j < s.len() implies y.distance2_spec(query_point@) <= (
                            #[trigger] s[j]).distance2_spec(query_point@) by {}
                        }
                    }
                }
            }
        } else {
            proof {
                assert(s.len() == 0);
                assert forall|y: T| #[trigger] derefs(result@).contains(y) <==> (s.contains(y) && forall|j: int|
                    0 <= j < s.len() ==> y.distance2_spec(query_point@) <= (
                    #[trigger] s[j]).distance2_spec(query_point@)) by {}
            }
        }
        result
    }

    /// The `n` objects nearest to `query_point` in ascending order of
    /// distance (all of them when there are fewer): no object left out is
    /// nearer than the last one returned.
    pub fn nearest_n_neighbors(&self, query_point: &Vec<i32>, n: usize) -> (r: Vec<&T>)
        requires
            self.wf(),
            query_point@.len() == T::dim_spec(),
        ensures
            n > 0 ==> knn_ok(self.objects(), query_point@, n as nat, Seq::<T>::empty(), derefs(r@)),
            n == 0 ==> r@.len() == 0,
    {
        let mut result: Vec<&T> = Vec::new();
        proof {
            assert(derefs(result@) =~= Seq::<T>::empty());
        }
        if self.size > 0 && n > 0 {
            self.root.nearest_n_neighbors(query_point, n, &mut result);
        } else if n > 0 {
            proof {
                broadcast use vstd::seq_lib::group_to_multiset_ensures;
                broadcast use vstd::multiset::group_multiset_axioms;

                assert(self.objects() =~= Seq::<T>::empty());
                assert(bag(Seq::<T>::empty()) =~= Multiset::<T>::empty());
                assert(bag(Seq::<T>::empty()).add(bag(self.objects())) =~= Multiset::<T>::empty());
            }
        }
        result
    }

    /// An object close to `query_point`, found by greedy descent; not always
    /// the nearest. `None` exactly when the tree is empty.
    pub fn close_neighbor(&self, query_point: &Vec<i32>) -> (r: Option<&T>)
        requires
            self.wf(),
            query_point@.len() == T::dim_spec(),
        ensures
            r is Some <==> self.objects().len() > 0,
            r is Some ==> self.objects().contains(*r->0),
            r is Some ==> *r->0 == greedy_leaf(self.root_spec(), query_point@),
    {
        self.root.close_neighbor(query_point)
    }

    /// Inserts `t`. Subtrees ejected by a forced reinsertion go back on a
    /// worklist; a split of the root grows the tree by one level.
    pub fn insert(&mut self, t: T)
        requires
            old(self).wf(),
            old(self).has_room(),
        ensures
            final(self).wf(),
            final(self).options() == old(self).options(),
            bag(final(self).objects()) == bag(old(self).objects()).insert(t),
            final(self).objects().len() == old(self).objects().len() + 1,
            final(self).root_spec().bounding_box is Some,
            final(self).root_spec().bounding_box->0@ == if old(self).root_spec().bounding_box is None {
                t.mbr_spec()
            } else {
                old(self).root_spec().bounding_box->0@.union_spec(t.mbr_spec())
            },
            old(self).height() <= final(self).height(),
            old(self).objects().len() == 0 ==> final(self).height() == 1 && final(self).root_spec().children@.len()
                == 1,
            final(self).height() <= old(self).height() + 1 + (old(self).height() + 1) * (
            old(self).options().reinsertion_count + 1),
    {
        let ghost opts = self.root.options;
        let ghost d0 = self.root.depth as int;
        let ghost rc = opts.reinsertion_count as int;
        let ghost goal = bag(self.root.objects()).insert(t);
        proof {
            if self.root.children@.len() > 0 {
                crate::node::lemma_nonempty_objects(self.root, self.root.options);
            }
        }
        assert(self.root.depth + 1 < usize::MAX) by (nonlinear_arith)
            requires
                (d0 + 1) * (rc + 2) < usize::MAX,
                d0 == self.root.depth,
                rc >= 1,
        ;
        let mut state = InsertionState::new(self.root.depth + 1);
        let mut insertion_stack: Vec<RTreeNode<T>> = Vec::new();
        insertion_stack.push(RTreeNode::Leaf(t));
        proof {
            lemma_open_levels_bound(state.reinsertions@);
            lemma_bag_push(Seq::<RTreeNode<T>>::empty(), RTreeNode::Leaf(t));
            lemma_bag_empty::<T>();
            assert(insertion_stack@ =~= Seq::<RTreeNode<T>>::empty().push(RTreeNode::Leaf(t)));
            assert(RTreeNode::Leaf(t).objects() =~= seq![t]);
            assert(bag(seq![t]) =~= Multiset::<T>::empty().insert(t)) by {
                broadcast use vstd::seq_lib::group_to_multiset_ensures;
                assert(seq![t] =~= Seq::<T>::empty().push(t));
                assert(Seq::<T>::empty().to_multiset() =~= Multiset::<T>::empty());
            }
            assert(bag(self.root.objects()).add(bag(objects_of(insertion_stack@))) =~= goal);
            assert((d0 + 1) * (rc + 1) <= (d0 + 1) * (rc + 2)) by (nonlinear_arith)
                requires
                    d0 >= 1,
                    rc >= 1,
            ;
            assert(open_levels(state.reinsertions@) * (rc + 1) <= (d0 + 1) * (rc + 1)) by (nonlinear_arith)
                requires
                    open_levels(state.reinsertions@) <= d0 + 1,
                    rc >= 1,
            ;
        }
        while insertion_stack.len() > 0
            invariant
                self.root.options == opts,
                self.root.depth >= d0,
                d0 == old(self).root.depth,
                old(self).objects().len() == 0 ==> self.root.depth == 1 && insertion_stack@.len()
                    + self.root.children@.len() == 1 && (insertion_stack@.len() == 1 ==> insertion_stack@[0] is Leaf),
                self.size == old(self).size,
                old(self).size == old(self).objects().len(),
                old(self).objects().len() < usize::MAX,
                opts.valid(),
                rc == opts.reinsertion_count,
                self.root.wf(opts),
                self.root.children@.len() > 0 || insertion_stack@.len() > 0,
                self.root.depth > 1 ==> self.root.children@.len() > 0,
                state.reinsertions@.len() == d0 + 1,
                (d0 + 1) * (rc + 2) < usize::MAX,
                self.root.depth + insertion_stack@.len() + open_levels(state.reinsertions@) * (rc + 1)
                    <= d0 + 1 + (d0 + 1) * (rc + 1),
                forall|j: int|
                    0 <= j < insertion_stack@.len() ==> subtree_ok(#[trigger] insertion_stack@[j], opts)
                        && insertion_stack@[j].depth_spec() < self.root.depth,
                bag(self.root.objects()).add(bag(objects_of(insertion_stack@))) == goal,
            decreases insertion_stack@.len() + open_levels(state.reinsertions@) * (rc + 1),
        {
            let ghost st0 = open_levels(state.reinsertions@);
            let ghost stack0 = insertion_stack@;
            let next = insertion_stack.pop().unwrap();
            proof {
                assert(stack0 =~= insertion_stack@.push(next));
                lemma_bag_push(insertion_stack@, next);
                assert(subtree_ok(stack0[stack0.len() - 1], opts));
                assert(self.root.depth < usize::MAX) by (nonlinear_arith)
                    requires
                        self.root.depth <= d0 + 1 + (d0 + 1) * (rc + 1),
                        (d0 + 1) * (rc + 2) < usize::MAX,
                        rc >= 1,
                ;
            }
            let ghost before_root = bag(self.root.objects());
            let ghost rest = bag(objects_of(insertion_stack@));
            let ghost depth0 = self.root.depth;
            let res = self.root.insert(next, &mut state);
            proof {
                lemma_open_levels_bound(state.reinsertions@);
            }
            match res {
                InsertionResult::Split(node) => {
                    let new_depth = self.root.depth + 1;
                    let mut old_root = DirectoryNodeData {
                        bounding_box: None,
                        children: Vec::new(),
                        depth: new_depth,
                        options: self.root.options,
                    };
                    core::mem::swap(&mut old_root, &mut self.root);
                    let ghost orn = RTreeNode::DirectoryNode(old_root);
                    let options = old_root.options;
                    let mut children: Vec<RTreeNode<T>> = Vec::new();
                    children.push(RTreeNode::DirectoryNode(old_root));
                    children.push(node);
                    proof {
                        assert(node_ok(new_depth, opts, orn));
                        assert(children@ =~= Seq::<RTreeNode<T>>::empty().push(orn).push(node));
                        lemma_bag_empty::<T>();
                        lemma_bag_push(Seq::<RTreeNode<T>>::empty(), orn);
                        lemma_bag_push(Seq::<RTreeNode<T>>::empty().push(orn), node);
                        assert(forall|i: int| 0 <= i < children@.len() ==> node_ok(new_depth, opts, #[trigger] children@[i]));
                    }
                    self.root = DirectoryNodeData::new_parent(children, new_depth, options);
                    proof {
                        assert(bag(self.root.objects()) =~= bag(old_root.objects()).add(bag(node.objects())));
                        let r0 = rest;
                        assert(bag(self.root.objects()).add(r0) =~= bag(old_root.objects()).add(bag(node.objects())).add(r0));
                        assert(before_root.add(bag(next.objects())).add(r0) =~= before_root.add(r0.add(bag(next.objects()))));
                        assert forall|j: int| 0 <= j < insertion_stack@.len() implies subtree_ok(#[trigger] insertion_stack@[j], opts)
                            && insertion_stack@[j].depth_spec() < self.root.depth by {
                            assert(insertion_stack@[j] == stack0[j]);
                        }
                    }
                },
                InsertionResult::Reinsert(nodes) => {
                    let ghost s1 = insertion_stack@;
                    let mut nodes = nodes;
                    insertion_stack.append(&mut nodes);
                    proof {
                        assert(insertion_stack@ =~= s1 + res->Reinsert_0@);
                        lemma_bag_concat(s1, res->Reinsert_0@);
                        let r0 = rest;
                        let vb = bag(objects_of(res->Reinsert_0@));
                        assert(bag(self.root.objects()).add(r0.add(vb)) =~= bag(self.root.objects()).add(vb).add(r0));
                        assert(before_root.add(bag(next.objects())).add(r0) =~= before_root.add(r0.add(bag(next.objects()))));
                        assert forall|j: int| 0 <= j < insertion_stack@.len() implies subtree_ok(#[trigger] insertion_stack@[j], opts)
                            && insertion_stack@[j].depth_spec() < self.root.depth by {
                            if j < s1.len() {
                                assert(insertion_stack@[j] == stack0[j]);
                            } else {
                                assert(insertion_stack@[j] == res->Reinsert_0@[j - s1.len()]);
                            }
                        }
                        assert((st0 - 1) * (rc + 1) == st0 * (rc + 1) - (rc + 1)) by (nonlinear_arith);
                        assert(open_levels(state.reinsertions@) * (rc + 1) <= (st0 - 1) * (rc + 1)) by (nonlinear_arith)
                            requires
                                open_levels(state.reinsertions@) <= st0 - 1,
                                rc >= 1,
                        ;
                    }
                },
                InsertionResult::Complete => {
                    proof {
                        let r0 = rest;
                        assert(before_root.add(bag(next.objects())).add(r0) =~= before_root.add(r0.add(bag(next.objects()))));
                        assert forall|j: int| 0 <= j < insertion_stack@.len() implies subtree_ok(#[trigger] insertion_stack@[j], opts)
                            && insertion_stack@[j].depth_spec() < self.root.depth by {
                            assert(insertion_stack@[j] == stack0[j]);
                        }
                    }
                },
            }
            proof {
                assert(open_levels(state.reinsertions@) * (rc + 1) <= st0 * (rc + 1)) by (nonlinear_arith)
                    requires
                        open_levels(state.reinsertions@) <= st0,
                        rc >= 1,
                ;
            }
        }
        proof {
            assert(insertion_stack@ =~= Seq::<RTreeNode<T>>::empty());
            lemma_bag_empty::<T>();
            assert(bag(self.root.objects()) =~= goal);
            assert(goal.len() == old(self).objects().len() + 1) by {
                broadcast use vstd::seq_lib::group_to_multiset_ensures;
            }
            assert(self.root.objects().len() == bag(self.root.objects()).len()) by {
                broadcast use vstd::seq_lib::group_to_multiset_ensures;
            }
            let a = old(self).root;
            let newo = self.root.objects();
            let oldo = a.objects();
            assert forall|o: T| #[trigger] newo.contains(o) <==> (oldo.contains(o) || o == t) by {
                broadcast use vstd::seq_lib::group_to_multiset_ensures;
                broadcast use vstd::multiset::group_multiset_axioms;

                assert(bag(newo).count(o) == bag(oldo).count(o) + if o == t { 1int } else { 0int });
            }
            t.lemma_mbr_wf();
            let tm = t.mbr_spec();
            let u = if a.bounding_box is None {
                tm
            } else {
                a.bounding_box->0@.union_spec(tm)
            };
            if a.bounding_box is None {
                assert(a.children@ =~= Seq::<RTreeNode<T>>::empty());
                lemma_bag_empty::<T>();
                assert forall|o: T| #[trigger] newo.contains(o) implies o == t by {
                    if oldo.contains(o) {
                        broadcast use vstd::seq_lib::group_to_multiset_ensures;

                        assert(bag(oldo).count(o) > 0);
                    }
                }
            } else {
                crate::node::lemma_nonempty_objects(a, a.options);
            }
            // `u` covers every object and each of its faces is reached
            assert forall|o: T| #[trigger] newo.contains(o) implies u.contains_rect_spec(o.mbr_spec()) by {
                if o != t {
                    lemma_objects_in_mbr(a, a.options, o);
                }
            }
            assert forall|k: int| 0 <= k < T::dim_spec() implies #[trigger] faces_reached(newo, u, k) by {
                if a.bounding_box is Some {
                    crate::node::lemma_face_objects(a, a.options, k);
                    let ol = choose|o: T| oldo.contains(o) && o.mbr_spec().lower[k] == a.bounding_box->0@.lower[k];
                    let ou = choose|o: T| oldo.contains(o) && o.mbr_spec().upper[k] == a.bounding_box->0@.upper[k];
                    assert(newo.contains(ol) && newo.contains(ou) && newo.contains(t));
                } else {
                    assert(newo.contains(t));
                }
            }
            // and so does the root's rectangle
            crate::node::lemma_nonempty_objects(self.root, self.root.options);
            assert forall|o: T| #[trigger] newo.contains(o) implies self.root.bounding_box->0@.contains_rect_spec(
                o.mbr_spec(),
            ) by {
                lemma_objects_in_mbr(self.root, self.root.options, o);
            }
            assert forall|k: int| 0 <= k < T::dim_spec() implies #[trigger] faces_reached(
                newo,
                self.root.bounding_box->0@,
                k,
            ) by {
                crate::node::lemma_face_objects(self.root, self.root.options, k);
            }
            assert forall|o: T| #[trigger] newo.contains(o) implies u.contains_rect_spec(o.mbr_spec())
                && self.root.bounding_box->0@.contains_rect_spec(o.mbr_spec()) by {}
            assert forall|k: int| 0 <= k < T::dim_spec() implies #[trigger] faces_reached(newo, u, k)
                && faces_reached(newo, self.root.bounding_box->0@, k) by {}
            lemma_rect_determined(newo, u, self.root.bounding_box->0@);
        }
        self.size = self.size + 1;
    }
}

impl<T: SpatialObject> Default for RTree<T> {
    fn default() -> (r: RTree<T>)
        ensures
            r.wf(),
            r.objects() == Seq::<T>::empty(),
            r.options() == RTreeOptions::default_spec(),
            r.height() == 1,
    {
        RTree::new()
    }
}

impl RTreeOptions {
    /// An empty tree with these options.
    pub fn build<T: SpatialObject>(self) -> (r: RTree<T>)
        requires
            self.valid(),
        ensures
            r.wf(),
            r.objects() == Seq::<T>::empty(),
            r.options() == self,
            r.height() == 1,
    {
        RTree::new_with_options(self)
    }
}

/// `r` answers a point lookup on the objects `s`: an object of `s` that
/// contains `p`, or `None` when none does.
pub open spec fn found_by_point<T: SpatialObject>(s: Seq<T>, p: Seq<i32>, r: Option<&T>) -> bool {
    match r {
        Some(o) => s.contains(*o) && o.contains_spec(p),
        None => forall|j: int| 0 <= j < s.len() ==> !(#[trigger] s[j]).contains_spec(p),
    }
}

/// `r` and `after` are what removing one object containing `p` from the
/// objects `before` gives: a removed object that contains `p`, or `None`
/// with nothing changed when no object contains `p`.
pub open spec fn removed_by_point<T: SpatialObject>(before: Seq<T>, after: Seq<T>, p: Seq<i32>, r: Option<T>) -> bool {
    match r {
        Some(o) => before.contains(o) && o.contains_spec(p) && bag(after) == bag(before).remove(o),
        None => after == before && forall|j: int|
            0 <= j < before.len() ==> !(#[trigger] before[j]).contains_spec(p),
    }
}

/// A rectangle that covers the rectangles of `objs` and has each face
/// reached by one of them is determined by `objs`.
proof fn lemma_rect_determined<T: SpatialObject>(objs: Seq<T>, r1: RectModel, r2: RectModel)
    requires
        r1.wf(T::dim_spec()),
        r2.wf(T::dim_spec()),
        forall|o: T| #[trigger] objs.contains(o) ==> r1.contains_rect_spec(o.mbr_spec()) && r2.contains_rect_spec(
            o.mbr_spec(),
        ),
        forall|k: int| 0 <= k < T::dim_spec() ==> #[trigger] faces_reached(objs, r1, k),
        forall|k: int| 0 <= k < T::dim_spec() ==> #[trigger] faces_reached(objs, r2, k),
    ensures
        r1 == r2,
{
    assert forall|k: int| 0 <= k < T::dim_spec() implies r1.lower[k] == r2.lower[k] && r1.upper[k] == r2.upper[k] by {
        assert(faces_reached(objs, r1, k) && faces_reached(objs, r2, k));
        let a = choose|o: T| objs.contains(o) && o.mbr_spec().lower[k] == r1.lower[k];
        let b = choose|o: T| objs.contains(o) && o.mbr_spec().lower[k] == r2.lower[k];
        let c = choose|o: T| objs.contains(o) && o.mbr_spec().upper[k] == r1.upper[k];
        let d = choose|o: T| objs.contains(o) && o.mbr_spec().upper[k] == r2.upper[k];
        assert(r2.contains_rect_spec(a.mbr_spec()) && r1.contains_rect_spec(b.mbr_spec()));
        assert(r2.contains_rect_spec(c.mbr_spec()) && r1.contains_rect_spec(d.mbr_spec()));
    }
    assert(r1.lower =~= r2.lower);
    assert(r1.upper =~= r2.upper);
}

/// Taking a member out of a sequence's bag shortens the sequence by one.
proof fn lemma_bag_len_remove<T>(before: Seq<T>, after: Seq<T>, o: T)
    requires
        before.contains(o),
        bag(after) == bag(before).remove(o),
    ensures
        after.len() + 1 == before.len(),
{
    broadcast use vstd::seq_lib::group_to_multiset_ensures;
    broadcast use vstd::multiset::group_multiset_axioms;

    assert(bag(before).count(o) > 0);
    assert(bag(after).insert(o) =~= bag(before));
    assert(bag(before).len() == before.len());
    assert(bag(after).len() == after.len());
}

} // verus!
