use vstd::prelude::*;

use vstd::multiset::Multiset;

use crate::geometry::{Rect, RectModel};
use crate::object::SpatialObject;
use crate::options::RTreeOptions;

verus! {

/// A node of the tree: a leaf holding one object, or a directory.
pub enum RTreeNode<T> {
    Leaf(T),
    DirectoryNode(DirectoryNodeData<T>),
}

/// A directory: its children, the cached rectangle covering them (`None`
/// only when there are no children), its depth above the leaves, and the
/// tree's options.
pub struct DirectoryNodeData<T> {
    pub bounding_box: Option<Rect>,
    pub children: Vec<RTreeNode<T>>,
    pub depth: usize,
    pub options: RTreeOptions,
}

/// The objects below a sequence of nodes, left to right.
pub open spec fn objects_of<T>(cs: Seq<RTreeNode<T>>) -> Seq<T>
    decreases cs,
{
    if cs.len() == 0 {
        Seq::empty()
    } else {
        objects_of(cs.drop_last()) + cs.last().objects()
    }
}

/// The objects behind a sequence of references.
pub open spec fn derefs<T>(s: Seq<&T>) -> Seq<T> {
    s.map_values(|r: &T| *r)
}

impl<T> RTreeNode<T> {
    /// The objects below this node, left to right.
    pub open spec fn objects(self) -> Seq<T>
        decreases self,
    {
        match self {
            RTreeNode::Leaf(t) => seq![t],
            RTreeNode::DirectoryNode(d) => objects_of(d.children@),
        }
    }

    pub open spec fn depth_spec(self) -> nat {
        match self {
            RTreeNode::Leaf(_) => 0,
            RTreeNode::DirectoryNode(d) => d.depth as nat,
        }
    }
}

impl<T> DirectoryNodeData<T> {
    pub open spec fn objects(self) -> Seq<T> {
        objects_of(self.children@)
    }
}

impl<T: SpatialObject> RTreeNode<T> {
    /// The node's rectangle: the object's, or the directory's cached one.
    pub open spec fn mbr_spec(self) -> RectModel {
        match self {
            RTreeNode::Leaf(t) => t.mbr_spec(),
            RTreeNode::DirectoryNode(d) => d.bounding_box->0@,
        }
    }

}

impl<T: SpatialObject> DirectoryNodeData<T> {
    /// The cached rectangle covers every child's rectangle and is the
    /// smallest that does: each of its faces is touched by some child.
    pub open spec fn mbr_exact(self) -> bool {
        let cs = self.children@;
        let b = self.bounding_box->0@;
        &&& (cs.len() == 0 <==> self.bounding_box is None)
        &&& self.bounding_box is Some ==> {
            &&& b.wf(T::dim_spec())
            &&& forall|i: int| 0 <= i < cs.len() ==> b.contains_rect_spec(#[trigger] cs[i].mbr_spec())
            &&& forall|k: int| 0 <= k < T::dim_spec() ==> #[trigger] touches_lower(cs, b, k)
            &&& forall|k: int| 0 <= k < T::dim_spec() ==> #[trigger] touches_upper(cs, b, k)
        }
    }

    /// The structural invariant of a directory and everything below it:
    /// depth at least one, at most `max_size` children, an exact cached
    /// rectangle, and every child fitting one level down.
    pub open spec fn wf(self, opts: RTreeOptions) -> bool
        decreases self,
    {
        &&& self.depth >= 1
        &&& self.options == opts
        &&& self.children.len() <= opts.max_size
        &&& self.mbr_exact()
        &&& forall|i: int|
            0 <= i < self.children.len() ==> node_ok(self.depth, opts, #[trigger] self.children@[i])
    }
}

/// A child of a directory at depth `depth`: a leaf under depth 1, otherwise a
/// nonempty well-formed directory of depth `depth - 1`.
pub open spec fn node_ok<T: SpatialObject>(depth: usize, opts: RTreeOptions, c: RTreeNode<T>) -> bool
    decreases c,
{
    match c {
        RTreeNode::Leaf(_) => depth == 1,
        RTreeNode::DirectoryNode(d) => depth > 1 && d.depth == depth - 1 && d.children.len() > 0
            && d.wf(opts),
    }
}

/// Some node's rectangle reaches the lower face of `b` on axis `k`.
pub open spec fn touches_lower<T: SpatialObject>(cs: Seq<RTreeNode<T>>, b: RectModel, k: int) -> bool {
    exists|i: int| 0 <= i < cs.len() && #[trigger] cs[i].mbr_spec().lower[k] == b.lower[k]
}

/// Some node's rectangle reaches the upper face of `b` on axis `k`.
pub open spec fn touches_upper<T: SpatialObject>(cs: Seq<RTreeNode<T>>, b: RectModel, k: int) -> bool {
    exists|i: int| 0 <= i < cs.len() && #[trigger] cs[i].mbr_spec().upper[k] == b.upper[k]
}

pub proof fn lemma_objects_of_push<T>(cs: Seq<RTreeNode<T>>, c: RTreeNode<T>)
    ensures
        objects_of(cs.push(c)) == objects_of(cs) + c.objects(),
{
    assert(cs.push(c).drop_last() =~= cs);
}

/// Every object below a sequence of nodes is below one of them.
pub proof fn lemma_objects_of_member<T>(cs: Seq<RTreeNode<T>>, o: T)
    requires
        objects_of(cs).contains(o),
    ensures
        exists|i: int| 0 <= i < cs.len() && (#[trigger] cs[i]).objects().contains(o),
    decreases cs.len(),
{
    if cs.len() > 0 {
        let a = objects_of(cs.drop_last());
        let b = cs.last().objects();
        let j = choose|j: int| 0 <= j < (a + b).len() && (a + b)[j] == o;
        if j < a.len() {
            assert(a[j] == o);
            lemma_objects_of_member(cs.drop_last(), o);
            let i = choose|i: int| 0 <= i < cs.drop_last().len() && (#[trigger] cs.drop_last()[i]).objects().contains(o);
            assert(cs[i] == cs.drop_last()[i]);
        } else {
            assert(b[j - a.len()] == o);
            assert(cs[cs.len() - 1].objects().contains(o));
        }
    }
}

/// Every object below a well-formed directory lies inside its rectangle.
pub proof fn lemma_objects_in_mbr<T: SpatialObject>(d: DirectoryNodeData<T>, opts: RTreeOptions, o: T)
    requires
        d.wf(opts),
        d.objects().contains(o),
    ensures
        d.bounding_box is Some,
        d.bounding_box->0@.contains_rect_spec(o.mbr_spec()),
    decreases d,
{
    lemma_objects_of_member(d.children@, o);
    let i = choose|i: int| 0 <= i < d.children@.len() && (#[trigger] d.children@[i]).objects().contains(o);
    let c = d.children@[i];
    let b = d.bounding_box->0@;
    assert(node_ok(d.depth, opts, c));
    match c {
        RTreeNode::Leaf(t) => {
            assert(c.objects() == seq![t]);
            assert(seq![t][0] == t);
            assert(t == o);
            assert(b.contains_rect_spec(c.mbr_spec()));
        },
        RTreeNode::DirectoryNode(cd) => {
            assert(cd.wf(opts));
            lemma_objects_in_mbr(cd, opts, o);
            assert(b.contains_rect_spec(c.mbr_spec()));
            lemma_contains_rect_trans(b, cd.bounding_box->0@, o.mbr_spec());
        },
    }
}

/// A nonempty well-formed directory has an object below it.
pub proof fn lemma_nonempty_objects<T: SpatialObject>(d: DirectoryNodeData<T>, opts: RTreeOptions)
    requires
        d.wf(opts),
        d.children@.len() > 0,
    ensures
        d.objects().len() > 0,
    decreases d,
{
    let cs = d.children@;
    let c = cs[cs.len() - 1];
    assert(node_ok(d.depth, opts, c));
    match c {
        RTreeNode::Leaf(t) => {
            assert(c.objects().len() == 1);
        },
        RTreeNode::DirectoryNode(cd) => {
            lemma_nonempty_objects(cd, opts);
        },
    }
    assert(cs.last() == c);
    assert(d.objects() == objects_of(cs.drop_last()) + c.objects());
}

/// Some object of `objs` reaches the lower face of `r` on axis `k`, and some
/// reaches its upper face.
pub open spec fn faces_reached<T: SpatialObject>(objs: Seq<T>, r: RectModel, k: int) -> bool {
    &&& exists|o: T| objs.contains(o) && o.mbr_spec().lower[k] == r.lower[k]
    &&& exists|o: T| objs.contains(o) && o.mbr_spec().upper[k] == r.upper[k]
}

/// Every face of a nonempty well-formed directory's rectangle is reached by
/// the rectangle of some object below it.
pub proof fn lemma_face_objects<T: SpatialObject>(d: DirectoryNodeData<T>, opts: RTreeOptions, k: int)
    requires
        d.wf(opts),
        d.children@.len() > 0,
        0 <= k < T::dim_spec(),
    ensures
        exists|o: T| d.objects().contains(o) && o.mbr_spec().lower[k] == d.bounding_box->0@.lower[k],
        exists|o: T| d.objects().contains(o) && o.mbr_spec().upper[k] == d.bounding_box->0@.upper[k],
    decreases d,
{
    let cs = d.children@;
    let b = d.bounding_box->0@;
    assert(touches_lower(cs, b, k));
    assert(touches_upper(cs, b, k));
    let i = choose|i: int| 0 <= i < cs.len() && #[trigger] cs[i].mbr_spec().lower[k] == b.lower[k];
    let j = choose|j: int| 0 <= j < cs.len() && #[trigger] cs[j].mbr_spec().upper[k] == b.upper[k];
    assert(node_ok(d.depth, opts, cs[i]));
    assert(node_ok(d.depth, opts, cs[j]));
    assert(exists|o: T| d.objects().contains(o) && o.mbr_spec().lower[k] == b.lower[k]) by {
    match cs[i] {
        RTreeNode::Leaf(t) => {
            assert(cs[i].objects() =~= seq![t]);
            assert(cs[i].objects()[0] == t);
            crate::query::lemma_member_of_child(cs, i, t);
            assert(d.objects().contains(t) && t.mbr_spec().lower[k] == b.lower[k]);
        },
        RTreeNode::DirectoryNode(cd) => {
            lemma_face_objects(cd, opts, k);
            let o = choose|o: T| cd.objects().contains(o) && o.mbr_spec().lower[k] == cd.bounding_box->0@.lower[k];
            crate::query::lemma_member_of_child(cs, i, o);
            assert(d.objects().contains(o) && o.mbr_spec().lower[k] == b.lower[k]);
        },
    }
    }
    assert(exists|o: T| d.objects().contains(o) && o.mbr_spec().upper[k] == b.upper[k]) by {
    match cs[j] {
        RTreeNode::Leaf(t) => {
            assert(cs[j].objects() =~= seq![t]);
            assert(cs[j].objects()[0] == t);
            crate::query::lemma_member_of_child(cs, j, t);
            assert(d.objects().contains(t) && t.mbr_spec().upper[k] == b.upper[k]);
        },
        RTreeNode::DirectoryNode(cd) => {
            lemma_face_objects(cd, opts, k);
            let o = choose|o: T| cd.objects().contains(o) && o.mbr_spec().upper[k] == cd.bounding_box->0@.upper[k];
            crate::query::lemma_member_of_child(cs, j, o);
            assert(d.objects().contains(o) && o.mbr_spec().upper[k] == b.upper[k]);
        },
    }
    }
}

pub proof fn lemma_contains_rect_trans(a: RectModel, b: RectModel, c: RectModel)
    requires
        a.contains_rect_spec(b),
        b.contains_rect_spec(c),
        a.dim() == b.dim(),
    ensures
        a.contains_rect_spec(c),
{
    assert forall|i: int| 0 <= i < a.dim() implies a.lower[i] <= c.lower[i] && c.upper[i]
        <= a.upper[i] by {
        assert(a.lower[i] <= b.lower[i] && b.upper[i] <= a.upper[i]);
        assert(b.lower[i] <= c.lower[i] && c.upper[i] <= b.upper[i]);
    }
}

/// The objects of a sequence of objects, counted with multiplicity.
pub open spec fn bag<T>(s: Seq<T>) -> Multiset<T> {
    s.to_multiset()
}

pub proof fn lemma_bag_empty<T>()
    ensures
        bag(objects_of(Seq::<RTreeNode<T>>::empty())) == Multiset::<T>::empty(),
{
    broadcast use vstd::seq_lib::group_to_multiset_ensures;

    assert(objects_of(Seq::<RTreeNode<T>>::empty()) =~= Seq::<T>::empty());
    assert(Seq::<T>::empty().to_multiset() =~= Multiset::<T>::empty());
}

pub proof fn lemma_bag_remove_add<T>(a: Multiset<T>, b: Multiset<T>, o: T)
    requires
        b.count(o) > 0,
    ensures
        a.add(b).remove(o) == a.add(b.remove(o)),
        a.add(Multiset::<T>::empty()) == a,
{
    broadcast use vstd::multiset::group_multiset_axioms;

    assert(a.add(b).remove(o) =~= a.add(b.remove(o)));
    assert(a.add(Multiset::<T>::empty()) =~= a);
}

pub proof fn lemma_objects_of_concat<T>(a: Seq<RTreeNode<T>>, b: Seq<RTreeNode<T>>)
    ensures
        objects_of(a + b) == objects_of(a) + objects_of(b),
    decreases b.len(),
{
    if b.len() == 0 {
        assert(a + b =~= a);
        assert(objects_of(a) + objects_of(b) =~= objects_of(a));
    } else {
        lemma_objects_of_concat(a, b.drop_last());
        assert((a + b).drop_last() =~= a + b.drop_last());
        assert((a + b).last() == b.last());
    }
}

/// Taking one node out of a sequence takes its objects out of the bag.
pub proof fn lemma_bag_remove<T>(cs: Seq<RTreeNode<T>>, i: int)
    requires
        0 <= i < cs.len(),
    ensures
        bag(objects_of(cs)) == bag(objects_of(cs.remove(i))).add(bag(cs[i].objects())),
{
    let a = cs.take(i);
    let b = cs.skip(i + 1);
    assert(cs =~= a + (seq![cs[i]] + b));
    assert(cs.remove(i) =~= a + b);
    lemma_objects_of_concat(a, seq![cs[i]] + b);
    lemma_objects_of_concat(seq![cs[i]], b);
    lemma_objects_of_concat(a, b);
    assert(seq![cs[i]] =~= Seq::<RTreeNode<T>>::empty().push(cs[i]));
    lemma_objects_of_push(Seq::<RTreeNode<T>>::empty(), cs[i]);
    assert(objects_of(Seq::<RTreeNode<T>>::empty()) + cs[i].objects() =~= cs[i].objects());
    vstd::seq_lib::lemma_multiset_commutative(objects_of(a), objects_of(seq![cs[i]] + b));
    vstd::seq_lib::lemma_multiset_commutative(cs[i].objects(), objects_of(b));
    vstd::seq_lib::lemma_multiset_commutative(objects_of(a), objects_of(b));
    assert(bag(objects_of(cs)) =~= bag(objects_of(cs.remove(i))).add(bag(cs[i].objects())));
}

/// Putting a node into a sequence puts its objects into the bag.
pub proof fn lemma_bag_insert<T>(cs: Seq<RTreeNode<T>>, i: int, c: RTreeNode<T>)
    requires
        0 <= i <= cs.len(),
    ensures
        bag(objects_of(cs.insert(i, c))) == bag(objects_of(cs)).add(bag(c.objects())),
{
    lemma_bag_remove(cs.insert(i, c), i);
    assert(cs.insert(i, c).remove(i) =~= cs);
}

pub proof fn lemma_bag_push<T>(cs: Seq<RTreeNode<T>>, c: RTreeNode<T>)
    ensures
        bag(objects_of(cs.push(c))) == bag(objects_of(cs)).add(bag(c.objects())),
{
    lemma_objects_of_push(cs, c);
    vstd::seq_lib::lemma_multiset_commutative(objects_of(cs), c.objects());
}

pub proof fn lemma_bag_concat<T>(a: Seq<RTreeNode<T>>, b: Seq<RTreeNode<T>>)
    ensures
        bag(objects_of(a + b)) == bag(objects_of(a)).add(bag(objects_of(b))),
{
    lemma_objects_of_concat(a, b);
    vstd::seq_lib::lemma_multiset_commutative(objects_of(a), objects_of(b));
}

/// The rectangle of a child that fits below a directory is well formed.
pub proof fn lemma_child_mbr<T: SpatialObject>(depth: usize, opts: RTreeOptions, c: RTreeNode<T>)
    requires
        node_ok(depth, opts, c),
    ensures
        c.mbr_spec().wf(T::dim_spec()),
        c is DirectoryNode ==> c->DirectoryNode_0.bounding_box is Some,
{
    match c {
        RTreeNode::Leaf(t) => {
            t.lemma_mbr_wf();
        },
        RTreeNode::DirectoryNode(d) => {
        },
    }
}

impl<T: SpatialObject> RTreeNode<T> {
    /// Depth above the leaves: zero for a leaf.
    pub fn depth(&self) -> (r: usize)
        ensures
            r == self.depth_spec(),
    {
        match self {
            RTreeNode::DirectoryNode(data) => data.depth,
            RTreeNode::Leaf(_) => 0,
        }
    }

    /// The node's rectangle.
    pub fn mbr(&self) -> (r: Rect)
        requires
            self is DirectoryNode ==> self->DirectoryNode_0.bounding_box is Some,
        ensures
            r@ == self.mbr_spec(),
    {
        match self {
            RTreeNode::DirectoryNode(data) => data.bounding_box.as_ref().unwrap().copy(),
            RTreeNode::Leaf(t) => t.mbr(),
        }
    }
}

impl<T: SpatialObject> DirectoryNodeData<T> {
    pub fn children(&self) -> (r: &Vec<RTreeNode<T>>)
        ensures
            r@ == self.children@,
    {
        &self.children
    }

    pub fn depth(&self) -> (r: usize)
        ensures
            r == self.depth,
    {
        self.depth
    }

    /// The cached rectangle of a directory that has children.
    pub fn mbr(&self) -> (r: Rect)
        requires
            self.bounding_box is Some,
        ensures
            r@ == self.bounding_box->0@,
    {
        self.bounding_box.as_ref().unwrap().copy()
    }

    /// Recomputes the cached rectangle as the exact union of the children's.
    pub fn update_mbr(&mut self)
        requires
            forall|i: int|
                0 <= i < old(self).children.len() ==> node_ok(
                    old(self).depth,
                    old(self).options,
                    #[trigger] old(self).children@[i],
                ),
        ensures
            final(self).children == old(self).children,
            final(self).depth == old(self).depth,
            final(self).options == old(self).options,
            final(self).mbr_exact(),
    {
        let ghost cs = self.children@;
        let ghost d = T::dim_spec();
        if self.children.len() == 0 {
            self.bounding_box = None;
            return;
        }
        proof {
            lemma_child_mbr(self.depth, self.options, cs[0]);
        }
        let mut b = self.children[0].mbr();
        let mut i: usize = 1;
        proof {
            assert forall|k: int| 0 <= k < d implies #[trigger] touches_lower(cs.take(1), b@, k) by {
                assert(cs.take(1)[0] == cs[0]);
                assert(cs.take(1)[0].mbr_spec().lower[k] == b@.lower[k]);
            }
            assert forall|k: int| 0 <= k < d implies #[trigger] touches_upper(cs.take(1), b@, k) by {
                assert(cs.take(1)[0] == cs[0]);
                assert(cs.take(1)[0].mbr_spec().upper[k] == b@.upper[k]);
            }
        }
        while i < self.children.len()
            invariant
                cs == self.children@,
                d == T::dim_spec(),
                1 <= i <= cs.len(),
                forall|j: int| 0 <= j < cs.len() ==> node_ok(self.depth, self.options, #[trigger] cs[j]),
                b@.wf(d),
                forall|j: int| 0 <= j < i ==> b@.contains_rect_spec(#[trigger] cs[j].mbr_spec()),
                forall|k: int| 0 <= k < d ==> #[trigger] touches_lower(cs.take(i as int), b@, k),
                forall|k: int| 0 <= k < d ==> #[trigger] touches_upper(cs.take(i as int), b@, k),
            decreases cs.len() - i,
        {
            proof {
                lemma_child_mbr(self.depth, self.options, cs[i as int]);
            }
            let cb = self.children[i].mbr();
            let ghost ob = b@;
            b.add_rect(&cb);
            proof {
                assert forall|j: int| 0 <= j <= i implies b@.contains_rect_spec(#[trigger] cs[j].mbr_spec()) by {
                    if j < i {
                        assert(ob.contains_rect_spec(cs[j].mbr_spec()));
                    }
                }
                assert forall|k: int| 0 <= k < d implies #[trigger] touches_lower(cs.take(i + 1), b@, k) by {
                    if cb@.lower[k] < ob.lower[k] {
                        assert(cs.take(i + 1)[i as int] == cs[i as int]);
                        assert(cs.take(i + 1)[i as int].mbr_spec().lower[k] == b@.lower[k]);
                    } else {
                        assert(touches_lower(cs.take(i as int), ob, k));
                        let j = choose|j: int| 0 <= j < i && #[trigger] cs.take(i as int)[j].mbr_spec().lower[k] == ob.lower[k];
                        assert(cs.take(i + 1)[j] == cs.take(i as int)[j]);
                        assert(cs.take(i + 1)[j].mbr_spec().lower[k] == b@.lower[k]);
                    }
                }
                assert forall|k: int| 0 <= k < d implies #[trigger] touches_upper(cs.take(i + 1), b@, k) by {
                    if cb@.upper[k] > ob.upper[k] {
                        assert(cs.take(i + 1)[i as int] == cs[i as int]);
                        assert(cs.take(i + 1)[i as int].mbr_spec().upper[k] == b@.upper[k]);
                    } else {
                        assert(touches_upper(cs.take(i as int), ob, k));
                        let j = choose|j: int| 0 <= j < i && #[trigger] cs.take(i as int)[j].mbr_spec().upper[k] == ob.upper[k];
                        assert(cs.take(i + 1)[j] == cs.take(i as int)[j]);
                        assert(cs.take(i + 1)[j].mbr_spec().upper[k] == b@.upper[k]);
                    }
                }
            }
            i += 1;
        }
        assert(cs.take(cs.len() as int) =~= cs);
        self.bounding_box = Some(b);
    }
}

} // verus!
