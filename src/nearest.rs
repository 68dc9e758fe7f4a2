use vstd::prelude::*;

use vstd::multiset::Multiset;

use crate::node::{
    bag, derefs, DirectoryNodeData, RTreeNode, lemma_child_mbr, lemma_objects_of_member, node_ok, objects_of,
};
use crate::object::SpatialObject;
use crate::small::{IndexBuffer, buffer_items};
use crate::minmax::{lemma_min_max_witness, min_max_dist2};
use crate::query::{lemma_member_of_child, lemma_object_dist};

verus! {

/// `r` answers a nearest-neighbour query on the objects `s` with an optional
/// strict upper bound: an object of `s` under the bound and no further than
/// any other, or `None` when every object is at least the bound away.
pub open spec fn nearest_ok<T: SpatialObject>(s: Seq<T>, p: Seq<i32>, bound: Option<u128>, r: Option<&T>) -> bool {
    match r {
        Some(o) => {
            &&& s.contains(*o)
            &&& (bound is Some ==> o.distance2_spec(p) < bound->0)
            &&& forall|j: int| 0 <= j < s.len() ==> o.distance2_spec(p) <= (#[trigger] s[j]).distance2_spec(p)
        },
        None => forall|j: int|
            0 <= j < s.len() ==> bound is Some && (#[trigger] s[j]).distance2_spec(p) >= bound->0,
    }
}

/// The first index of a least value among `keys[0..m]` (`m >= 1`).
pub open spec fn first_min_index(keys: Seq<int>, m: nat) -> int
    decreases m,
{
    if m <= 1 {
        0
    } else {
        let b = first_min_index(keys, (m - 1) as nat);
        if keys[m - 1] < keys[b] {
            (m - 1) as int
        } else {
            b
        }
    }
}

/// Squared distances from `p` to the rectangles of a directory's children.
pub open spec fn child_dists<T: SpatialObject>(d: DirectoryNodeData<T>, p: Seq<i32>) -> Seq<int> {
    Seq::new(d.children@.len(), |i: int| d.children@[i].mbr_spec().min_dist2_spec(p))
}

/// The leaf that greedy descent reaches from `d`: at each directory the
/// first child whose rectangle is nearest to `p`.
pub open spec fn greedy_leaf<T: SpatialObject>(d: DirectoryNodeData<T>, p: Seq<i32>) -> T
    decreases d,
{
    let i = first_min_index(child_dists(d, p), d.children@.len());
    if 0 <= i < d.children@.len() {
        match d.children@[i] {
            RTreeNode::Leaf(t) => t,
            RTreeNode::DirectoryNode(cd) => greedy_leaf(cd, p),
        }
    } else {
        arbitrary()
    }
}

/// The indices `0..n` in order.
pub open spec fn identity(n: nat) -> Seq<usize> {
    Seq::new(n, |i: int| i as usize)
}

/// The objects below the children `cs[idx[0]], cs[idx[1]], ...`, counted
/// with multiplicity.
pub open spec fn bag_of<T>(cs: Seq<RTreeNode<T>>, idx: Seq<usize>) -> Multiset<T>
    decreases idx.len(),
{
    if idx.len() == 0 {
        Multiset::empty()
    } else {
        bag_of(cs, idx.drop_last()).add(bag(cs[idx.last() as int].objects()))
    }
}

proof fn lemma_bag_of_remove<T>(cs: Seq<RTreeNode<T>>, idx: Seq<usize>, j: int)
    requires
        0 <= j < idx.len(),
    ensures
        bag_of(cs, idx) == bag_of(cs, idx.remove(j)).add(bag(cs[idx[j] as int].objects())),
    decreases idx.len(),
{
    broadcast use vstd::multiset::group_multiset_axioms;

    if j == idx.len() - 1 {
        assert(idx.remove(j) =~= idx.drop_last());
    } else {
        lemma_bag_of_remove(cs, idx.drop_last(), j);
        assert(idx.remove(j).drop_last() =~= idx.drop_last().remove(j));
        assert(idx.remove(j).last() == idx.last());
        assert(bag_of(cs, idx) =~= bag_of(cs, idx.remove(j)).add(bag(cs[idx[j] as int].objects())));
    }
}

/// The bag of objects below a list of children depends only on which
/// children it lists, not on their order.
proof fn lemma_bag_of_perm<T>(cs: Seq<RTreeNode<T>>, idx1: Seq<usize>, idx2: Seq<usize>)
    requires
        idx1.to_multiset() == idx2.to_multiset(),
    ensures
        bag_of(cs, idx1) == bag_of(cs, idx2),
    decreases idx1.len(),
{
    broadcast use vstd::multiset::group_multiset_axioms;
    broadcast use vstd::seq_lib::group_to_multiset_ensures;

    if idx1.len() == 0 {
        vstd::seq_lib::to_multiset_len(idx1);
        vstd::seq_lib::to_multiset_len(idx2);
        assert(idx2.len() == 0);
        assert(idx2 =~= Seq::<usize>::empty());
        assert(idx1 =~= Seq::<usize>::empty());
    } else {
        let x = idx1.last();
        assert(idx1.contains(x));
        assert(idx2.to_multiset().count(x) > 0);
        assert(idx2.contains(x));
        let j = choose|j: int| 0 <= j < idx2.len() && idx2[j] == x;
        assert(idx1 =~= idx1.drop_last().push(x));
        vstd::seq_lib::to_multiset_build(idx1.drop_last(), x);
        vstd::seq_lib::to_multiset_remove(idx2, j);
        assert(idx1.drop_last().to_multiset() =~= idx2.remove(j).to_multiset());
        lemma_bag_of_perm(cs, idx1.drop_last(), idx2.remove(j));
        lemma_bag_of_remove(cs, idx2, j);
    }
}

proof fn lemma_bag_of_identity<T>(cs: Seq<RTreeNode<T>>, n: nat)
    requires
        n <= cs.len(),
        n <= usize::MAX,
    ensures
        bag_of(cs, identity(n)) == bag(objects_of(cs.take(n as int))),
    decreases n,
{
    if n == 0 {
        assert(cs.take(0) =~= Seq::<RTreeNode<T>>::empty());
        crate::node::lemma_bag_empty::<T>();
        assert(identity(0).len() == 0);
        assert(bag_of(cs, identity(0)) == Multiset::<T>::empty());
    } else {
        lemma_bag_of_identity(cs, (n - 1) as nat);
        assert(identity(n).drop_last() =~= identity((n - 1) as nat));
        assert(identity(n).last() as int == n - 1);
        crate::query::lemma_prefix_step(cs, n - 1);
        vstd::seq_lib::lemma_multiset_commutative(objects_of(cs.take(n - 1)), cs[n - 1].objects());
        assert(bag_of(cs, identity(n)) == bag_of(cs, identity((n - 1) as nat)).add(bag(cs[n - 1].objects())));
    }
}

/// The order of the indices of `keys` by ascending key.
pub fn sort_indices(keys: &Vec<u128>) -> (order: IndexBuffer)
    ensures
        buffer_items(order).len() == keys@.len(),
        forall|j: int| 0 <= j < buffer_items(order).len() ==> #[trigger] buffer_items(order)[j] < keys@.len(),
        forall|i: int| 0 <= i < keys@.len() ==> #[trigger] buffer_items(order).contains(i as usize),
        forall|a: int, b: int|
            0 <= a < b < buffer_items(order).len() ==> keys@[#[trigger] buffer_items(order)[a] as int] <= keys@[#[trigger] buffer_items(order)[b] as int],
        buffer_items(order).to_multiset() == identity(keys@.len()).to_multiset(),
{
    let n = keys.len();
    let mut rest: Vec<usize> = Vec::new();
    let mut i: usize = 0;
    while i < n
        invariant
            n == keys@.len(),
            i <= n,
            rest@ == Seq::new(i as nat, |j: int| j as usize),
        decreases n - i,
    {
        rest.push(i);
        i += 1;
        assert(rest@ =~= Seq::new(i as nat, |j: int| j as usize));
    }
    proof {
        assert forall|x: int| 0 <= x < n implies #[trigger] rest@.contains(x as usize) by {
            assert(rest@[x] == x as usize);
        }
    }
    let mut out = IndexBuffer::new();
    proof {
        broadcast use vstd::seq_lib::group_to_multiset_ensures;
        broadcast use vstd::multiset::group_multiset_axioms;

        assert(rest@ =~= identity(n as nat));
        assert(buffer_items(out).to_multiset() =~= Multiset::<usize>::empty());
        assert(buffer_items(out).to_multiset().add(rest@.to_multiset()) =~= identity(n as nat).to_multiset());
    }
    while rest.len() > 0
        invariant
            n == keys@.len(),
            buffer_items(out).to_multiset().add(rest@.to_multiset()) == identity(n as nat).to_multiset(),
            buffer_items(out).len() + rest@.len() == n,
            forall|j: int| 0 <= j < buffer_items(out).len() ==> #[trigger] buffer_items(out)[j] < n,
            forall|j: int| 0 <= j < rest@.len() ==> #[trigger] rest@[j] < n,
            forall|x: int| 0 <= x < n ==> #[trigger] buffer_items(out).contains(x as usize) || rest@.contains(x as usize),
            forall|a: int, b: int|
                0 <= a < b < buffer_items(out).len() ==> keys@[#[trigger] buffer_items(out)[a] as int] <= keys@[#[trigger] buffer_items(out)[b] as int],
            forall|a: int, b: int|
                0 <= a < buffer_items(out).len() && 0 <= b < rest@.len() ==> keys@[#[trigger] buffer_items(out)[a] as int]
                    <= keys@[#[trigger] rest@[b] as int],
        decreases rest@.len(),
    {
        let mut m: usize = 0;
        let mut j: usize = 1;
        while j < rest.len()
            invariant
                n == keys@.len(),
                forall|q: int| 0 <= q < rest@.len() ==> #[trigger] rest@[q] < n,
                0 <= m < j <= rest@.len(),
                forall|q: int| 0 <= q < j ==> keys@[rest@[m as int] as int] <= keys@[#[trigger] rest@[q] as int],
            decreases rest@.len() - j,
        {
            if keys[rest[j]] < keys[rest[m]] {
                m = j;
            }
            j += 1;
        }
        let ghost old_rest = rest@;
        let ghost old_out = buffer_items(out);
        let c = rest.remove(m);
        out.push(c);
        proof {
            broadcast use vstd::multiset::group_multiset_axioms;

            vstd::seq_lib::to_multiset_remove(old_rest, m as int);
            vstd::seq_lib::to_multiset_build(old_out, c);
            assert(old_rest.to_multiset().count(c) > 0) by {
                broadcast use vstd::seq_lib::group_to_multiset_ensures;

                assert(old_rest.contains(c));
            }
            assert(buffer_items(out).to_multiset().add(rest@.to_multiset()) =~= identity(n as nat).to_multiset());
            assert forall|x: int| 0 <= x < n implies #[trigger] buffer_items(out).contains(x as usize) || rest@.contains(
                x as usize,
            ) by {
                if old_out.contains(x as usize) {
                    let q = choose|q: int| 0 <= q < old_out.len() && old_out[q] == x as usize;
                    assert(buffer_items(out)[q] == x as usize);
                } else {
                    let q = choose|q: int| 0 <= q < old_rest.len() && old_rest[q] == x as usize;
                    if q == m {
                        assert(buffer_items(out)[old_out.len() as int] == x as usize);
                    } else if q < m {
                        assert(rest@[q] == x as usize);
                    } else {
                        assert(rest@[q - 1] == x as usize);
                    }
                }
            }
            assert forall|a: int, b: int|
                0 <= a < b < buffer_items(out).len() implies keys@[#[trigger] buffer_items(out)[a] as int] <= keys@[#[trigger] buffer_items(out)[b] as int] by {
                if b == old_out.len() {
                    assert(buffer_items(out)[b] == old_rest[m as int]);
                    assert(buffer_items(out)[a] == old_out[a]);
                } else {
                    assert(buffer_items(out)[b] == old_out[b]);
                    assert(buffer_items(out)[a] == old_out[a]);
                }
            }
            assert forall|a: int, b: int|
                0 <= a < buffer_items(out).len() && 0 <= b < rest@.len() implies keys@[#[trigger] buffer_items(out)[a] as int]
                    <= keys@[#[trigger] rest@[b] as int] by {
                let ob = if b < m { b } else { b + 1 };
                assert(rest@[b] == old_rest[ob]);
                if a == old_out.len() {
                    assert(buffer_items(out)[a] == old_rest[m as int]);
                } else {
                    assert(buffer_items(out)[a] == old_out[a]);
                }
            }
            assert forall|q: int| 0 <= q < rest@.len() implies #[trigger] rest@[q] < n by {
                let oq = if q < m { q } else { q + 1 };
                assert(rest@[q] == old_rest[oq]);
            }
        }
    }
    proof {
        broadcast use vstd::seq_lib::group_to_multiset_ensures;
        broadcast use vstd::multiset::group_multiset_axioms;

        assert(rest@ =~= Seq::<usize>::empty());
        assert(rest@.to_multiset() =~= Multiset::<usize>::empty());
        assert(buffer_items(out).to_multiset() =~= identity(n as nat).to_multiset());
    }
    out
}

impl<T: SpatialObject> DirectoryNodeData<T> {
    /// The least MINMAXDIST from `p` over the children's rectangles: some
    /// object below this directory is at most that far from `p`. `None`
    /// without children or coordinates.
    fn smallest_min_max(&self, p: &Vec<i32>) -> (r: Option<u128>)
        requires
            self.wf(self.options),
            p@.len() == T::dim_spec(),
        ensures
            r is Some ==> exists|c: int, o: T|
                0 <= c < self.children@.len() && #[trigger] self.children@[c].objects().contains(o)
                    && o.distance2_spec(p@) <= r->0,
    {
        if p.len() == 0 {
            return None;
        }
        let mut best: Option<u128> = None;
        let mut i: usize = 0;
        while i < self.children.len()
            invariant
                self.wf(self.options),
                p@.len() == T::dim_spec(),
                p@.len() > 0,
                i <= self.children@.len(),
                best is Some ==> exists|c: int, o: T|
                    0 <= c < self.children@.len() && #[trigger] self.children@[c].objects().contains(o)
                        && o.distance2_spec(p@) <= best->0,
            decreases self.children@.len() - i,
        {
            let ghost c = self.children@[i as int];
            proof {
                assert(node_ok(self.depth, self.options, c));
                lemma_child_mbr(self.depth, self.options, c);
            }
            let m = self.children[i].mbr().min_max_dist2(p);
            let better = match best {
                Some(b) => m < b,
                None => true,
            };
            if better {
                proof {
                    match c {
                        RTreeNode::Leaf(t) => {
                            t.lemma_min_max_bound(p@);
                            assert(c.objects() =~= seq![t]);
                            assert(c.objects()[0] == t);
                            assert(self.children@[i as int].objects().contains(t));
                        },
                        RTreeNode::DirectoryNode(cd) => {
                            lemma_min_max_witness(cd, self.options, p@);
                            let o = choose|o: T| cd.objects().contains(o) && o.distance2_spec(p@) <= min_max_dist2(cd.bounding_box->0@, p@);
                            assert(self.children@[i as int].objects().contains(o));
                        },
                    }
                }
                best = Some(m);
            }
            i += 1;
        }
        best
    }
}

impl<T: SpatialObject> DirectoryNodeData<T> {
    /// The squared distance from `p` to each child's rectangle.
    fn child_min_dists(&self, p: &Vec<i32>) -> (keys: Vec<u128>)
        requires
            self.wf(self.options),
            p@.len() == T::dim_spec(),
        ensures
            keys@.len() == self.children@.len(),
            forall|i: int|
                0 <= i < keys@.len() ==> #[trigger] keys@[i] == self.children@[i].mbr_spec().min_dist2_spec(p@),
    {
        let mut keys: Vec<u128> = Vec::new();
        let mut i: usize = 0;
        while i < self.children.len()
            invariant
                self.wf(self.options),
                p@.len() == T::dim_spec(),
                i <= self.children@.len(),
                keys@.len() == i,
                forall|q: int|
                    0 <= q < i ==> #[trigger] keys@[q] == self.children@[q].mbr_spec().min_dist2_spec(p@),
            decreases self.children@.len() - i,
        {
            proof {
                assert(node_ok(self.depth, self.options, self.children@[i as int]));
                lemma_child_mbr(self.depth, self.options, self.children@[i as int]);
            }
            let b = self.children[i].mbr();
            keys.push(b.min_dist2(p));
            i += 1;
        }
        keys
    }

    /// The object below this directory nearest to `p`, if one lies strictly
    /// under `bound`. Children further than the least MINMAXDIST of the
    /// children's rectangles are left out; the others are visited by
    /// ascending distance of their rectangle, and the search stops at the
    /// first one further than the best distance found so far.
    pub fn nearest_neighbor(&self, p: &Vec<i32>, bound: Option<u128>) -> (r: Option<&T>)
        requires
            self.wf(self.options),
            p@.len() == T::dim_spec(),
        ensures
            nearest_ok(self.objects(), p@, bound, r),
        decreases self,
    {
        let ghost cs = self.children@;
        let keys = self.child_min_dists(p);
        let order = sort_indices(&keys);
        let tau = self.smallest_min_max(p);
        let n = self.children.len();
        let mut nearest: Option<&T> = None;
        let mut nearest_distance: Option<u128> = bound;
        let mut k: usize = 0;
        let mut stopped = false;
        while k < n && !stopped
            invariant
                self.wf(self.options),
                p@.len() == T::dim_spec(),
                cs == self.children@,
                n == cs.len(),
                keys@.len() == n,
                buffer_items(order).len() == n,
                forall|i: int| 0 <= i < n ==> #[trigger] keys@[i] == cs[i].mbr_spec().min_dist2_spec(p@),
                forall|j: int| 0 <= j < n ==> #[trigger] buffer_items(order)[j] < n,
                forall|i: int| 0 <= i < n ==> #[trigger] buffer_items(order).contains(i as usize),
                forall|a: int, b: int|
                    0 <= a < b < n ==> keys@[#[trigger] buffer_items(order)[a] as int] <= keys@[#[trigger] buffer_items(order)[b] as int],
                k <= n,
                match nearest {
                    Some(o) => nearest_distance is Some && nearest_distance->0 == o.distance2_spec(p@)
                        && self.objects().contains(*o) && (bound is Some ==> o.distance2_spec(p@)
                        < bound->0),
                    None => nearest_distance == bound,
                },
                tau is Some ==> exists|c: int, o: T|
                    0 <= c < n && #[trigger] cs[c].objects().contains(o) && o.distance2_spec(p@) <= tau->0,
                forall|kk: int, j: int|
                    0 <= kk < k && 0 <= j < cs[buffer_items(order)[kk] as int].objects().len() ==> (nearest_distance is Some
                        && (#[trigger] cs[buffer_items(order)[kk] as int].objects()[j]).distance2_spec(p@)
                        >= nearest_distance->0) || (tau is Some && keys@[buffer_items(order)[kk] as int] > tau->0),
                stopped ==> k < n && nearest_distance is Some && keys@[buffer_items(order)[k as int] as int]
                    > nearest_distance->0,
            decreases n - k + if stopped { 0int } else { 1int },
        {
            let c = order.get(k);
            let min_dist = keys[c];
            let prune = match nearest_distance {
                Some(d) => min_dist > d,
                None => false,
            };
            if prune {
                stopped = true;
                continue;
            }
            let far = match tau {
                Some(t) => min_dist > t,
                None => false,
            };
            let ghost d0 = nearest_distance;
            if !far {
                proof {
                    assert(node_ok(self.depth, self.options, cs[c as int]));
                }
                match &self.children[c] {
                    RTreeNode::DirectoryNode(data) => {
                        assert(cs[c as int].objects() == data.objects());
                        match data.nearest_neighbor(p, nearest_distance) {
                            Some(t) => {
                                proof {
                                    lemma_member_of_child(cs, c as int, *t);
                                }
                                nearest_distance = Some(t.distance2(p));
                                nearest = Some(t);
                            },
                            None => {},
                        }
                        proof {
                            assert forall|j: int| 0 <= j < cs[c as int].objects().len() implies nearest_distance is Some
                                && (#[trigger] cs[c as int].objects()[j]).distance2_spec(p@) >= nearest_distance->0 by {
                                assert(cs[c as int].objects()[j] == data.objects()[j]);
                            }
                        }
                    },
                    RTreeNode::Leaf(t) => {
                        proof {
                            assert(cs[c as int].objects() =~= seq![*t]);
                        }
                        let distance = t.distance2(p);
                        let closer = match nearest_distance {
                            Some(d) => distance < d,
                            None => true,
                        };
                        if closer {
                            proof {
                                assert(cs[c as int].objects()[0] == *t);
                                lemma_member_of_child(cs, c as int, *t);
                            }
                            nearest_distance = Some(distance);
                            nearest = Some(t);
                        }
                        proof {
                            assert forall|j: int| 0 <= j < cs[c as int].objects().len() implies nearest_distance is Some
                                && (#[trigger] cs[c as int].objects()[j]).distance2_spec(p@) >= nearest_distance->0 by {
                                assert(cs[c as int].objects()[j] == *t);
                            }
                        }
                    },
                }
            }
            let ghost k0 = k as int;
            k += 1;
            proof {
                assert forall|kk: int, j: int|
                    0 <= kk < k && 0 <= j < cs[buffer_items(order)[kk] as int].objects().len() implies (nearest_distance is Some
                        && (#[trigger] cs[buffer_items(order)[kk] as int].objects()[j]).distance2_spec(p@)
                        >= nearest_distance->0) || (tau is Some && keys@[buffer_items(order)[kk] as int] > tau->0) by {
                    let x = cs[buffer_items(order)[kk] as int].objects()[j];
                    if kk < k0 {
                        if !(tau is Some && keys@[buffer_items(order)[kk] as int] > tau->0) {
                            assert(d0 is Some && x.distance2_spec(p@) >= d0->0);
                        }
                    } else if far {
                        assert(buffer_items(order)[kk] == c);
                    }
                }
            }
        }
        proof {
            let objs = self.objects();
            // every object below a child not looked at is further than some looked-at object
            assert forall|c: int, x: T| 0 <= c < n && #[trigger] cs[c].objects().contains(x) implies
                keys@[c] <= x.distance2_spec(p@) by {
                assert(node_ok(self.depth, self.options, cs[c]));
                match cs[c] {
                    RTreeNode::DirectoryNode(cd) => {
                        lemma_object_dist(cd, x, p@);
                    },
                    RTreeNode::Leaf(t) => {
                        assert(cs[c].objects() =~= seq![t]);
                        assert(cs[c].objects()[0] == t);
                        t.lemma_distance_bound(p@);
                    },
                }
            }
            assert forall|c: int, x: T| 0 <= c < n && #[trigger] cs[c].objects().contains(x) && !(tau is Some
                && keys@[c] > tau->0) implies nearest_distance is Some && x.distance2_spec(p@)
                >= nearest_distance->0 by {
                assert(buffer_items(order).contains(c as usize));
                let kk = choose|kk: int| 0 <= kk < n && buffer_items(order)[kk] == c as usize;
                let jj = choose|jj: int| 0 <= jj < cs[c].objects().len() && cs[c].objects()[jj] == x;
                if kk < k {
                    assert(cs[buffer_items(order)[kk] as int].objects()[jj] == x);
                } else {
                    assert(stopped);
                    assert(keys@[buffer_items(order)[k as int] as int] <= keys@[buffer_items(order)[kk] as int]);
                }
            }
            assert forall|j: int| 0 <= j < objs.len() implies nearest_distance is Some && (
            #[trigger] objs[j]).distance2_spec(p@) >= nearest_distance->0 by {
                let x = objs[j];
                assert(objs.contains(x));
                lemma_objects_of_member(cs, x);
                let c = choose|c: int| 0 <= c < cs.len() && (#[trigger] cs[c]).objects().contains(x);
                if tau is Some && keys@[c] > tau->0 {
                    let (cw, ow) = choose|cw: int, ow: T|
                        0 <= cw < n && #[trigger] cs[cw].objects().contains(ow) && ow.distance2_spec(p@) <= tau->0;
                    assert(keys@[cw] <= ow.distance2_spec(p@));
                    assert(nearest_distance is Some && ow.distance2_spec(p@) >= nearest_distance->0);
                    assert(keys@[c] <= x.distance2_spec(p@));
                }
            }
            if nearest is Some {
                let o = nearest->0;
                assert forall|j: int| 0 <= j < objs.len() implies o.distance2_spec(p@) <= (
                #[trigger] objs[j]).distance2_spec(p@) by {
                    assert(nearest_distance->0 <= objs[j].distance2_spec(p@));
                }
            } else {
                if objs.len() > 0 {
                    let x0 = objs[0];
                    assert(nearest_distance is Some && x0.distance2_spec(p@) >= nearest_distance->0);
                }
                assert forall|j: int| 0 <= j < objs.len() implies bound is Some && (
                #[trigger] objs[j]).distance2_spec(p@) >= bound->0 by {
                    assert(nearest_distance is Some && objs[j].distance2_spec(p@) >= nearest_distance->0);
                }
            }
        }
        nearest
    }

    /// Greedy descent: at each directory the child whose rectangle is
    /// nearest to `p` (the first of equals), down to a leaf. Fast, but not
    /// always the nearest object.
    pub fn close_neighbor(&self, p: &Vec<i32>) -> (r: Option<&T>)
        requires
            self.wf(self.options),
            p@.len() == T::dim_spec(),
        ensures
            r is Some <==> self.objects().len() > 0,
            r is Some ==> self.objects().contains(*r->0),
            r is Some ==> *r->0 == greedy_leaf(*self, p@),
    {
        if self.children.len() == 0 {
            assert(self.children@ =~= Seq::<RTreeNode<T>>::empty());
            return None;
        }
        proof {
            crate::node::lemma_nonempty_objects(*self, self.options);
        }
        let ghost top = *self;
        let mut follow = self;
        loop
            invariant
                top == *self,
                self.objects().len() > 0,
                follow.wf(top.options),
                follow.children@.len() > 0,
                p@.len() == T::dim_spec(),
                top.wf(top.options),
                forall|o: T| follow.objects().contains(o) ==> top.objects().contains(o),
                greedy_leaf(*follow, p@) == greedy_leaf(top, p@),
            decreases follow.depth,
        {
            let keys = follow.child_min_dists(p);
            proof {
                assert forall|q: int| 0 <= q < keys@.len() implies keys@[q] == #[trigger] child_dists(*follow, p@)[q] by {}
            }
            let mut best: usize = 0;
            let mut i: usize = 1;
            while i < keys.len()
                invariant
                    keys@.len() == follow.children@.len(),
                    0 <= best < i <= keys@.len(),
                    forall|q: int| 0 <= q < keys@.len() ==> keys@[q] == #[trigger] child_dists(*follow, p@)[q],
                    best == first_min_index(child_dists(*follow, p@), i as nat),
                decreases keys@.len() - i,
            {
                if keys[i] < keys[best] {
                    best = i;
                }
                i += 1;
            }
            proof {
                assert(node_ok(follow.depth, top.options, follow.children@[best as int]));
                assert(first_min_index(child_dists(*follow, p@), follow.children@.len()) == best);
            }
            match &follow.children[best] {
                RTreeNode::DirectoryNode(data) => {
                    proof {
                        assert forall|o: T| data.objects().contains(o) implies top.objects().contains(o) by {
                            lemma_member_of_child(follow.children@, best as int, o);
                        }
                    }
                    follow = data;
                },
                RTreeNode::Leaf(t) => {
                    proof {
                        assert(follow.children@[best as int].objects()[0] == *t);
                        lemma_member_of_child(follow.children@, best as int, *t);
                    }
                    return Some(t);
                },
            }
        }
    }
}

/// How a search for all nearest objects updates its state: `b`/`r0` is the
/// best distance and the objects found at it before, `r`/`r1` after looking
/// at the objects `s`.
pub open spec fn ties_ok<T: SpatialObject>(
    s: Seq<T>,
    p: Seq<i32>,
    b: Option<u128>,
    r0: Seq<T>,
    r: Option<u128>,
    r1: Seq<T>,
) -> bool {
    &&& (b is Some ==> r is Some && r->0 <= b->0)
    &&& (r is None ==> b is None && s.len() == 0 && r1.len() == 0)
    &&& (r is Some && b != r ==> r1.len() > 0)
    &&& (r is Some ==> forall|j: int| 0 <= j < s.len() ==> (#[trigger] s[j]).distance2_spec(p) >= r->0)
    &&& (r is Some ==> forall|y: T|
        #[trigger] r1.contains(y) <==> ((r0.contains(y) && b == r) || (s.contains(y) && y.distance2_spec(p)
            == r->0)))
    &&& (r is Some ==> bag(r1) == kept(r0, b, r).add(bag(s).filter(at_dist::<T>(p, r->0 as int))))
}

/// Objects at squared distance `d` from `p`.
pub open spec fn at_dist<T: SpatialObject>(p: Seq<i32>, d: int) -> spec_fn(T) -> bool {
    |x: T| x.distance2_spec(p) == d
}

/// What stays of the objects `r0` found at best distance `b` once the best
/// distance is `d`: all of them if it did not change, none otherwise.
pub open spec fn kept<T>(r0: Seq<T>, b: Option<u128>, d: Option<u128>) -> Multiset<T> {
    if b == d {
        bag(r0)
    } else {
        Multiset::empty()
    }
}

/// Every object of `r` lies at squared distance `d` from `p`; none when `d`
/// is `None`.
pub open spec fn all_at<T: SpatialObject>(r: Seq<T>, p: Seq<i32>, d: Option<u128>) -> bool {
    &&& (d is None ==> r.len() == 0)
    &&& (d is Some ==> forall|i: int| 0 <= i < r.len() ==> (#[trigger] r[i]).distance2_spec(p) == d->0)
}

/// The state of a search for all nearest objects after looking at the
/// objects `seen`: best distance `d`, the objects `res` found at it, starting
/// from best distance `b` with the objects `r0`.
pub open spec fn ties_state<T: SpatialObject>(
    p: Seq<i32>,
    b: Option<u128>,
    r0: Seq<T>,
    seen: Seq<T>,
    d: Option<u128>,
    res: Seq<T>,
) -> bool {
    &&& all_at(r0, p, b)
    &&& all_at(res, p, d)
    &&& (b is Some ==> d is Some && d->0 <= b->0)
    &&& (d is None ==> b is None && seen.len() == 0)
    &&& (d is Some && b != d ==> res.len() > 0)
    &&& (d is Some ==> forall|x: T| #[trigger] seen.contains(x) ==> x.distance2_spec(p) >= d->0)
    &&& (d is Some ==> forall|y: T|
        #[trigger] res.contains(y) <==> ((r0.contains(y) && b == d) || (seen.contains(y) && y.distance2_spec(p)
            == d->0)))
    &&& (d is Some ==> bag(res) == kept(r0, b, d).add(bag(seen).filter(at_dist::<T>(p, d->0 as int))))
}

proof fn lemma_ties_step<T: SpatialObject>(
    p: Seq<i32>,
    b: Option<u128>,
    r0: Seq<T>,
    seen: Seq<T>,
    d: Option<u128>,
    res: Seq<T>,
    child: Seq<T>,
    d1: Option<u128>,
    res1: Seq<T>,
)
    requires
        ties_state(p, b, r0, seen, d, res),
        ties_ok(child, p, d, res, d1, res1),
        all_at(res1, p, d1),
    ensures
        ties_state(p, b, r0, seen + child, d1, res1),
{
    let seen1 = seen + child;
    assert forall|x: T| #[trigger] seen1.contains(x) <==> (seen.contains(x) || child.contains(x)) by {
        if seen1.contains(x) {
            let j = choose|j: int| 0 <= j < seen1.len() && seen1[j] == x;
            if j < seen.len() {
                assert(seen[j] == x);
            } else {
                assert(child[j - seen.len()] == x);
            }
        }
        if seen.contains(x) {
            let j = choose|j: int| 0 <= j < seen.len() && seen[j] == x;
            assert(seen1[j] == x);
        }
        if child.contains(x) {
            let j = choose|j: int| 0 <= j < child.len() && child[j] == x;
            assert(seen1[seen.len() + j] == x);
        }
    }
    if d1 is Some && b != d1 && d == d1 {
        let y = res[0];
        assert(res.contains(y));
        assert(res1.contains(y));
    }
    if d1 is Some {
        assert forall|x: T| #[trigger] seen1.contains(x) implies x.distance2_spec(p) >= d1->0 by {
            if child.contains(x) {
                let j = choose|j: int| 0 <= j < child.len() && child[j] == x;
                assert(child[j].distance2_spec(p) >= d1->0);
            }
        }
        if d is None {
            assert(res.len() == 0);
            assert(r0.len() == 0);
            assert forall|y: T| #[trigger] res1.contains(y) <==> ((r0.contains(y) && b == d1) || (
            seen1.contains(y) && y.distance2_spec(p) == d1->0)) by {
                if res.contains(y) {
                    let j = choose|j: int| 0 <= j < res.len() && res[j] == y;
                }
                if r0.contains(y) {
                    let j = choose|j: int| 0 <= j < r0.len() && r0[j] == y;
                }
            }
        } else {
            assert forall|y: T| #[trigger] res1.contains(y) <==> ((r0.contains(y) && b == d1) || (
            seen1.contains(y) && y.distance2_spec(p) == d1->0)) by {
                if r0.contains(y) && b == d1 {
                    let j = choose|j: int| 0 <= j < r0.len() && r0[j] == y;
                    assert(r0[j].distance2_spec(p) == b->0);
                }
            }
        }
        let f1 = at_dist::<T>(p, d1->0 as int);
        broadcast use vstd::multiset::group_multiset_axioms;
        broadcast use vstd::seq_lib::group_to_multiset_ensures;

        vstd::seq_lib::lemma_multiset_commutative(seen, child);
        if d is Some && d == d1 {
            assert(bag(res1) =~= kept(r0, b, d1).add(bag(seen1).filter(f1)));
        } else {
            assert(b != d1);
            assert forall|x: T| #[trigger] bag(seen).filter(f1).count(x) == 0 by {
                if f1(x) && bag(seen).count(x) > 0 {
                    assert(seen.contains(x));
                }
            }
            assert(bag(seen).filter(f1) =~= Multiset::<T>::empty());
            assert(bag(res1) =~= kept(r0, b, d1).add(bag(seen1).filter(f1)));
        }
    }
}

/// Objects all further than `d` add nothing at distance `d`.
proof fn lemma_ties_none_at<T: SpatialObject>(s: Seq<T>, p: Seq<i32>, d: u128, res: Seq<T>)
    requires
        forall|j: int| 0 <= j < s.len() ==> (#[trigger] s[j]).distance2_spec(p) > d,
    ensures
        bag(res) == kept(res, Some(d), Some(d)).add(bag(s).filter(at_dist::<T>(p, d as int))),
{
    broadcast use vstd::multiset::group_multiset_axioms;
    broadcast use vstd::seq_lib::group_to_multiset_ensures;

    let f = at_dist::<T>(p, d as int);
    assert forall|x: T| #[trigger] bag(s).filter(f).count(x) == 0 by {
        if f(x) && bag(s).count(x) > 0 {
            assert(s.contains(x));
            let j = choose|j: int| 0 <= j < s.len() && s[j] == x;
        }
    }
    assert(bag(res) =~= kept(res, Some(d), Some(d)).add(bag(s).filter(f)));
}

proof fn lemma_bag_single<T: SpatialObject>(t: T, p: Seq<i32>, d: int)
    ensures
        bag(seq![t]).filter(at_dist::<T>(p, d)) == if t.distance2_spec(p) == d {
            Multiset::<T>::empty().insert(t)
        } else {
            Multiset::<T>::empty()
        },
{
    broadcast use vstd::multiset::group_multiset_axioms;
    broadcast use vstd::seq_lib::group_to_multiset_ensures;

    assert(seq![t] =~= Seq::<T>::empty().push(t));
    vstd::seq_lib::to_multiset_build(Seq::<T>::empty(), t);
    assert(Seq::<T>::empty().to_multiset() =~= Multiset::<T>::empty());
    assert(bag(seq![t]).filter(at_dist::<T>(p, d)) =~= if t.distance2_spec(p) == d {
        Multiset::<T>::empty().insert(t)
    } else {
        Multiset::<T>::empty()
    });
}

proof fn lemma_bag_of_empty<T>()
    ensures
        bag(Seq::<T>::empty()) == Multiset::<T>::empty(),
{
    broadcast use vstd::seq_lib::group_to_multiset_ensures;

    assert(bag(Seq::<T>::empty()) =~= Multiset::<T>::empty());
}

impl<T: SpatialObject> DirectoryNodeData<T> {
    /// Collects into `result` all objects below this directory at the least
    /// distance from `p`, given the best distance found so far (`bound`)
    /// and the objects found at it; returns the new best distance. Children
    /// further than the least MINMAXDIST of the children's rectangles, or
    /// than the best distance, are skipped.
    pub fn nearest_neighbors<'a>(&'a self, p: &Vec<i32>, bound: Option<u128>, result: &mut Vec<&'a T>) -> (r: Option<u128>)
        requires
            self.wf(self.options),
            p@.len() == T::dim_spec(),
            all_at(derefs(old(result)@), p@, bound),
        ensures
            ties_ok(self.objects(), p@, bound, derefs(old(result)@), r, derefs(final(result)@)),
            all_at(derefs(final(result)@), p@, r),
        decreases self,
    {
        let ghost cs = self.children@;
        let ghost r0 = derefs(result@);
        let keys = self.child_min_dists(p);
        let order = sort_indices(&keys);
        let tau = self.smallest_min_max(p);
        let n = self.children.len();
        let mut nearest_distance: Option<u128> = bound;
        let ghost mut seen: Seq<T> = Seq::empty();
        let mut k: usize = 0;
        proof {
            broadcast use vstd::multiset::group_multiset_axioms;

            lemma_bag_of_empty::<T>();
            assert(buffer_items(order).take(0) =~= Seq::<usize>::empty());
            assert(bag(Seq::<T>::empty()).filter(at_dist::<T>(p@, bound->0 as int)) =~= Multiset::<T>::empty());
            assert(bag(r0).add(Multiset::<T>::empty()) =~= bag(r0));
        }
        while k < n
            invariant
                self.wf(self.options),
                p@.len() == T::dim_spec(),
                cs == self.children@,
                n == cs.len(),
                keys@.len() == n,
                buffer_items(order).len() == n,
                forall|i: int| 0 <= i < n ==> #[trigger] keys@[i] == cs[i].mbr_spec().min_dist2_spec(p@),
                forall|j: int| 0 <= j < n ==> #[trigger] buffer_items(order)[j] < n,
                forall|i: int| 0 <= i < n ==> #[trigger] buffer_items(order).contains(i as usize),
                forall|a: int, b: int|
                    0 <= a < b < n ==> keys@[#[trigger] buffer_items(order)[a] as int] <= keys@[#[trigger] buffer_items(order)[b] as int],
                tau is Some ==> exists|c: int, o: T|
                    0 <= c < n && #[trigger] cs[c].objects().contains(o) && o.distance2_spec(p@) <= tau->0,
                k <= n,
                r0 == derefs(old(result)@),
                ties_state(p@, bound, r0, seen, nearest_distance, derefs(result@)),
                bag(seen) == bag_of(cs, buffer_items(order).take(k as int)),
                buffer_items(order).to_multiset() == identity(n as nat).to_multiset(),
                forall|x: T| #[trigger] seen.contains(x) ==> self.objects().contains(x),
                forall|kk: int, x: T|
                    0 <= kk < k && #[trigger] cs[buffer_items(order)[kk] as int].objects().contains(x) ==> seen.contains(x),
            decreases n - k,
        {
            let c = order.get(k);
            let min_dist = keys[c];
            let prune = match nearest_distance {
                Some(d) => min_dist > d,
                None => false,
            };
            let far = match tau {
                Some(t) => min_dist > t,
                None => false,
            };
            let ghost d0 = nearest_distance;
            let ghost res0 = derefs(result@);
            let ghost child_objs = cs[c as int].objects();
            proof {
                assert(node_ok(self.depth, self.options, cs[c as int]));
                assert forall|x: T| child_objs.contains(x) implies self.objects().contains(x) by {
                    lemma_member_of_child(cs, c as int, x);
                }
            }
            if prune || far {
                proof {
                    if !prune {
                        let (cw, ow) = choose|cw: int, ow: T|
                            0 <= cw < n && #[trigger] cs[cw].objects().contains(ow) && ow.distance2_spec(p@) <= tau->0;
                        assert(node_ok(self.depth, self.options, cs[cw]));
                        match cs[cw] {
                            RTreeNode::DirectoryNode(cd) => {
                                lemma_object_dist(cd, ow, p@);
                            },
                            RTreeNode::Leaf(t) => {
                                assert(cs[cw].objects() =~= seq![t]);
                                assert(cs[cw].objects()[0] == t);
                                t.lemma_distance_bound(p@);
                            },
                        }
                        assert(keys@[cw] <= ow.distance2_spec(p@));
                        assert(buffer_items(order).contains(cw as usize));
                        let kw = choose|kw: int| 0 <= kw < n && buffer_items(order)[kw] == cw as usize;
                        if kw >= k {
                            if kw > k {
                                assert(keys@[buffer_items(order)[k as int] as int] <= keys@[buffer_items(order)[kw] as int]);
                            }
                            assert(false);
                        }
                        assert(cs[buffer_items(order)[kw] as int].objects().contains(ow));
                        assert(seen.contains(ow));
                        assert(d0 is Some);
                        assert(ow.distance2_spec(p@) >= d0->0);
                    }
                    assert forall|j: int| 0 <= j < child_objs.len() implies (#[trigger] child_objs[j]).distance2_spec(p@)
                        > d0->0 by {
                        match cs[c as int] {
                            RTreeNode::DirectoryNode(cd) => {
                                assert(cd.objects().contains(child_objs[j]));
                                lemma_object_dist(cd, child_objs[j], p@);
                            },
                            RTreeNode::Leaf(t) => {
                                assert(child_objs =~= seq![t]);
                                t.lemma_distance_bound(p@);
                            },
                        }
                    }
                    assert forall|y: T| #[trigger] res0.contains(y) <==> ((res0.contains(y) && d0 == d0) || (
                    child_objs.contains(y) && y.distance2_spec(p@) == d0->0)) by {
                        if child_objs.contains(y) {
                            let j = choose|j: int| 0 <= j < child_objs.len() && child_objs[j] == y;
                        }
                    }
                    lemma_ties_none_at(child_objs, p@, d0->0, res0);
                    assert(ties_ok(child_objs, p@, d0, res0, nearest_distance, derefs(result@)));
                }
            } else {
                match &self.children[c] {
                    RTreeNode::DirectoryNode(data) => {
                        assert(child_objs == data.objects());
                        match data.nearest_neighbors(p, nearest_distance, result) {
                            Some(nearest) => {
                                nearest_distance = Some(nearest);
                            },
                            None => {},
                        }
                        proof {
                            assert(ties_ok(child_objs, p@, d0, res0, nearest_distance, derefs(result@)));
                        }
                    },
                    RTreeNode::Leaf(t) => {
                        proof {
                            assert(child_objs =~= seq![*t]);
                            assert(child_objs[0] == *t);
                        }
                        let distance = t.distance2(p);
                        match nearest_distance {
                            Some(nearest) => {
                                if distance <= nearest {
                                    if distance < nearest {
                                        result.clear();
                                        assert(derefs(result@) =~= Seq::<T>::empty());
                                    }
                                    let ghost before_push = derefs(result@);
                                    result.push(t);
                                    assert(derefs(result@) =~= before_push.push(*t));
                                    nearest_distance = Some(distance);
                                    proof {
                                        assert forall|y: T| #[trigger] derefs(result@).contains(y) <==> ((res0.contains(y)
                                            && d0 == nearest_distance) || (child_objs.contains(y)
                                            && y.distance2_spec(p@) == nearest_distance->0)) by {
                                            if derefs(result@).contains(y) {
                                                let j = choose|j: int| 0 <= j < derefs(result@).len() && derefs(result@)[j] == y;
                                                if j < before_push.len() {
                                                    assert(res0[j] == y);
                                                }
                                            }
                                            if res0.contains(y) && d0 == nearest_distance {
                                                let j = choose|j: int| 0 <= j < res0.len() && res0[j] == y;
                                                assert(derefs(result@)[j] == y);
                                            }
                                            if child_objs.contains(y) {
                                                assert(derefs(result@)[before_push.len() as int] == y);
                                            }
                                        }
                                        broadcast use vstd::multiset::group_multiset_axioms;
                                        broadcast use vstd::seq_lib::group_to_multiset_ensures;

                                        vstd::seq_lib::to_multiset_build(before_push, *t);
                                        lemma_bag_single(*t, p@, distance as int);
                                        if distance < nearest {
                                            assert(before_push.to_multiset() =~= Multiset::<T>::empty());
                                        }
                                        assert(bag(derefs(result@)) =~= kept(res0, d0, nearest_distance).add(
                                            bag(child_objs).filter(at_dist::<T>(p@, nearest_distance->0 as int)),
                                        ));
                                    }
                                } else {
                                    proof {
                                        assert forall|y: T| #[trigger] res0.contains(y) <==> ((res0.contains(y) && d0 == d0) || (
                                        child_objs.contains(y) && y.distance2_spec(p@) == d0->0)) by {
                                            if child_objs.contains(y) {
                                                let j = choose|j: int| 0 <= j < child_objs.len() && child_objs[j] == y;
                                            }
                                        }
                                        lemma_bag_single(*t, p@, nearest as int);
                                        assert(bag(res0) =~= kept(res0, d0, d0).add(bag(child_objs).filter(at_dist::<T>(p@, nearest as int))));
                                    }
                                }
                            },
                            None => {
                                assert(derefs(result@) =~= Seq::<T>::empty());
                                result.push(t);
                                assert(derefs(result@) =~= seq![*t]);
                                nearest_distance = Some(distance);
                                proof {
                                    assert forall|y: T| #[trigger] derefs(result@).contains(y) <==> ((res0.contains(y)
                                        && d0 == nearest_distance) || (child_objs.contains(y)
                                        && y.distance2_spec(p@) == nearest_distance->0)) by {
                                        if derefs(result@).contains(y) {
                                            assert(derefs(result@)[0] == y);
                                        }
                                        if child_objs.contains(y) {
                                            assert(derefs(result@)[0] == y);
                                        }
                                        if res0.contains(y) {
                                            let j = choose|j: int| 0 <= j < res0.len() && res0[j] == y;
                                        }
                                    }
                                    broadcast use vstd::multiset::group_multiset_axioms;
                                    broadcast use vstd::seq_lib::group_to_multiset_ensures;

                                    lemma_bag_single(*t, p@, distance as int);
                                    assert(seq![*t] =~= Seq::<T>::empty().push(*t));
                                    vstd::seq_lib::to_multiset_build(Seq::<T>::empty(), *t);
                                    assert(Seq::<T>::empty().to_multiset() =~= Multiset::<T>::empty());
                                    assert(bag(derefs(result@)) =~= kept(res0, d0, nearest_distance).add(
                                        bag(child_objs).filter(at_dist::<T>(p@, nearest_distance->0 as int)),
                                    ));
                                }
                            },
                        }
                        proof {
                            assert(ties_ok(child_objs, p@, d0, res0, nearest_distance, derefs(result@)));
                        }
                    },
                }
            }
            proof {
                lemma_ties_step(p@, bound, r0, seen, d0, res0, child_objs, nearest_distance, derefs(result@));
                let seen1 = seen + child_objs;
                assert forall|x: T| #[trigger] seen1.contains(x) implies self.objects().contains(x) by {
                    if !seen.contains(x) {
                        let j = choose|j: int| 0 <= j < seen1.len() && seen1[j] == x;
                        assert(child_objs[j - seen.len()] == x);
                        assert(child_objs.contains(x));
                    }
                }
                assert forall|kk: int, x: T|
                    0 <= kk < k + 1 && #[trigger] cs[buffer_items(order)[kk] as int].objects().contains(x) implies seen1.contains(x) by {
                    if kk < k {
                        let j = choose|j: int| 0 <= j < seen.len() && seen[j] == x;
                        assert(seen1[j] == x);
                    } else {
                        let j = choose|j: int| 0 <= j < child_objs.len() && child_objs[j] == x;
                        assert(seen1[seen.len() + j] == x);
                    }
                }
                vstd::seq_lib::lemma_multiset_commutative(seen, child_objs);
                assert(buffer_items(order).take(k + 1).drop_last() =~= buffer_items(order).take(k as int));
                assert(buffer_items(order).take(k + 1).last() == c);
                assert(bag_of(cs, buffer_items(order).take(k + 1)) == bag_of(cs, buffer_items(order).take(k as int)).add(bag(child_objs)));
                seen = seen1;
            }
            k += 1;
        }
        proof {
            let objs = self.objects();
            assert forall|x: T| objs.contains(x) implies #[trigger] seen.contains(x) by {
                lemma_objects_of_member(cs, x);
                let c = choose|c: int| 0 <= c < cs.len() && (#[trigger] cs[c]).objects().contains(x);
                assert(buffer_items(order).contains(c as usize));
                let kk = choose|kk: int| 0 <= kk < n && buffer_items(order)[kk] == c as usize;
                assert(cs[buffer_items(order)[kk] as int].objects().contains(x));
            }
            if nearest_distance is Some {
                assert forall|j: int| 0 <= j < objs.len() implies (#[trigger] objs[j]).distance2_spec(p@)
                    >= nearest_distance->0 by {
                    assert(objs.contains(objs[j]));
                    assert(seen.contains(objs[j]));
                }
                assert forall|y: T| #[trigger] seen.contains(y) <==> objs.contains(y) by {
                }
                assert(buffer_items(order).take(n as int) =~= buffer_items(order));
                lemma_bag_of_perm(cs, buffer_items(order), identity(n as nat));
                lemma_bag_of_identity(cs, n as nat);
                assert(cs.take(n as int) =~= cs);
                assert(bag(seen) == bag(objs));
            } else {
                if objs.len() > 0 {
                    assert(objs.contains(objs[0]));
                    assert(seen.contains(objs[0]));
                }
            }
        }
        nearest_distance
    }
}

/// The objects of `s` are in ascending order of squared distance from `p`.
pub open spec fn sorted_by_dist<T: SpatialObject>(s: Seq<T>, p: Seq<i32>) -> bool {
    forall|i: int, j: int|
        0 <= i <= j < s.len() ==> (#[trigger] s[i]).distance2_spec(p) <= (#[trigger] s[j]).distance2_spec(p)
}

/// `r1` holds, in ascending order of distance from `p`, the `n` nearest of
/// the objects of `r0` and `s` together (all of them when there are fewer):
/// taken from them, and no object left out is nearer than the last one.
pub open spec fn knn_ok<T: SpatialObject>(s: Seq<T>, p: Seq<i32>, n: nat, r0: Seq<T>, r1: Seq<T>) -> bool {
    &&& sorted_by_dist(r1, p)
    &&& r1.len() == if r0.len() + s.len() <= n {
        r0.len() + s.len()
    } else {
        n
    }
    &&& bag(r1).subset_of(bag(r0).add(bag(s)))
    &&& r1.len() < n ==> bag(r1) == bag(r0).add(bag(s))
    &&& r1.len() == n ==> forall|x: T|
        bag(r0).add(bag(s)).count(x) > #[trigger] bag(r1).count(x) ==> x.distance2_spec(p) >= r1.last().distance2_spec(p)
    &&& r0.len() == n && n > 0 ==> r1.last().distance2_spec(p) <= r0.last().distance2_spec(p)
}

proof fn lemma_knn_compose<T: SpatialObject>(s1: Seq<T>, s2: Seq<T>, p: Seq<i32>, n: nat, r0: Seq<T>, r: Seq<T>, r1: Seq<T>)
    requires
        n > 0,
        knn_ok(s1, p, n, r0, r),
        knn_ok(s2, p, n, r, r1),
    ensures
        knn_ok(s1 + s2, p, n, r0, r1),
{
    broadcast use vstd::multiset::group_multiset_axioms;

    vstd::seq_lib::lemma_multiset_commutative(s1, s2);
    assert(bag(s1 + s2) == bag(s1).add(bag(s2)));
    let all = bag(r0).add(bag(s1 + s2));
    assert(all =~= bag(r0).add(bag(s1)).add(bag(s2)));
    assert(bag(r1).subset_of(all)) by {
        assert forall|x: T| #[trigger] bag(r1).count(x) <= all.count(x) by {
            assert(bag(r1).count(x) <= bag(r).add(bag(s2)).count(x));
            assert(bag(r).count(x) <= bag(r0).add(bag(s1)).count(x));
        }
    }
    if r1.len() == n {
        assert forall|x: T| all.count(x) > #[trigger] bag(r1).count(x) implies x.distance2_spec(p) >= r1.last().distance2_spec(p) by {
            if bag(r).add(bag(s2)).count(x) > bag(r1).count(x) {
            } else {
                assert(bag(r0).add(bag(s1)).count(x) > bag(r).count(x));
                if r.len() < n {
                    assert(bag(r) == bag(r0).add(bag(s1)));
                } else {
                    assert(x.distance2_spec(p) >= r.last().distance2_spec(p));
                }
            }
        }
    }
}

impl<T: SpatialObject> DirectoryNodeData<T> {
    /// First position in the sorted `result` whose object is further from
    /// `p` than `d`.
    fn insertion_index(result: &Vec<&T>, p: &Vec<i32>, d: u128) -> (idx: usize)
        requires
            p@.len() == T::dim_spec(),
            sorted_by_dist(derefs(result@), p@),
        ensures
            idx <= result@.len(),
            forall|i: int| 0 <= i < idx ==> (#[trigger] derefs(result@)[i]).distance2_spec(p@) <= d,
            forall|i: int| idx <= i < result@.len() ==> (#[trigger] derefs(result@)[i]).distance2_spec(p@) > d,
    {
        let mut i: usize = 0;
        while i < result.len()
            invariant
                p@.len() == T::dim_spec(),
                sorted_by_dist(derefs(result@), p@),
                i <= result@.len(),
                forall|j: int| 0 <= j < i ==> (#[trigger] derefs(result@)[j]).distance2_spec(p@) <= d,
            decreases result@.len() - i,
        {
            let e: &T = result[i];
            if e.distance2(p) > d {
                proof {
                    assert forall|j: int| i <= j < result@.len() implies (#[trigger] derefs(result@)[j]).distance2_spec(p@) > d by {
                        assert(derefs(result@)[i as int] == *e);
                    }
                }
                return i;
            }
            assert(derefs(result@)[i as int] == *e);
            i += 1;
        }
        i
    }

    /// Merges the objects below this directory into `result`, which keeps
    /// the `n` nearest to `p` in ascending order of distance. A child is
    /// skipped when `result` is full and its rectangle is no nearer than the
    /// last kept object.
    pub fn nearest_n_neighbors<'a>(&'a self, p: &Vec<i32>, n: usize, result: &mut Vec<&'a T>)
        requires
            self.wf(self.options),
            p@.len() == T::dim_spec(),
            n > 0,
            old(result)@.len() <= n,
            sorted_by_dist(derefs(old(result)@), p@),
        ensures
            knn_ok(self.objects(), p@, n as nat, derefs(old(result)@), derefs(final(result)@)),
        decreases self,
    {
        let ghost cs = self.children@;
        let ghost r0 = derefs(result@);
        proof {
            lemma_knn_empty(r0, p@, n as nat);
            assert(cs.take(0) =~= Seq::<RTreeNode<T>>::empty());
            assert(objects_of(cs.take(0)) =~= Seq::<T>::empty());
        }
        let mut i: usize = 0;
        while i < self.children.len()
            invariant
                self.wf(self.options),
                p@.len() == T::dim_spec(),
                n > 0,
                cs == self.children@,
                i <= cs.len(),
                r0 == derefs(old(result)@),
                knn_ok(objects_of(cs.take(i as int)), p@, n as nat, r0, derefs(result@)),
            decreases cs.len() - i,
        {
            let ghost rb = derefs(result@);
            let ghost child_objs = cs[i as int].objects();
            proof {
                assert(node_ok(self.depth, self.options, cs[i as int]));
                lemma_child_mbr(self.depth, self.options, cs[i as int]);
            }
            let min_dist = self.children[i].mbr().min_dist2(p);
            let full = result.len() == n;
            let prune = full && min_dist >= result[result.len() - 1].distance2(p);
            if prune {
                proof {
                    assert(derefs(result@).last() == *result@[result@.len() - 1]);
                    assert forall|j: int| 0 <= j < child_objs.len() implies (#[trigger] child_objs[j]).distance2_spec(p@)
                        >= rb.last().distance2_spec(p@) by {
                        match cs[i as int] {
                            RTreeNode::DirectoryNode(cd) => {
                                assert(cd.objects().contains(child_objs[j]));
                                lemma_object_dist(cd, child_objs[j], p@);
                            },
                            RTreeNode::Leaf(t) => {
                                assert(child_objs =~= seq![t]);
                                t.lemma_distance_bound(p@);
                            },
                        }
                    }
                    lemma_knn_skip(child_objs, p@, n as nat, rb);
                }
            } else {
                match &self.children[i] {
                    RTreeNode::DirectoryNode(data) => {
                        assert(child_objs == data.objects());
                        data.nearest_n_neighbors(p, n, result);
                    },
                    RTreeNode::Leaf(b) => {
                        proof {
                            assert(child_objs =~= seq![*b]);
                        }
                        let distance = b.distance2(p);
                        if result.len() != n || distance < result[result.len() - 1].distance2(p) {
                            let ghost popped = rb;
                            if result.len() == n {
                                result.pop();
                                proof {
                                    assert(rb =~= derefs(result@).push(rb.last()));
                                }
                            }
                            let ghost rm = derefs(result@);
                            proof {
                                assert forall|a: int, c: int| 0 <= a <= c < rm.len() implies (#[trigger] rm[a]).distance2_spec(p@)
                                    <= (#[trigger] rm[c]).distance2_spec(p@) by {
                                    assert(rm[a] == rb[a] && rm[c] == rb[c]);
                                }
                            }
                            let index = DirectoryNodeData::<T>::insertion_index(result, p, distance);
                            result.insert(index, b);
                            proof {
                                assert(derefs(result@) =~= rm.insert(index as int, *b));
                                lemma_knn_leaf_insert(*b, p@, n as nat, rb, rm, index as int, derefs(result@));
                            }
                        } else {
                            proof {
                                assert(derefs(result@).last() == *result@[result@.len() - 1]);
                                lemma_knn_skip(child_objs, p@, n as nat, rb);
                            }
                        }
                    },
                }
            }
            proof {
                crate::query::lemma_prefix_step(cs, i as int);
                lemma_knn_compose(objects_of(cs.take(i as int)), child_objs, p@, n as nat, r0, rb, derefs(result@));
            }
            i += 1;
        }
        assert(cs.take(cs.len() as int) =~= cs);
    }
}

proof fn lemma_knn_empty<T: SpatialObject>(r0: Seq<T>, p: Seq<i32>, n: nat)
    requires
        r0.len() <= n,
        sorted_by_dist(r0, p),
    ensures
        knn_ok(Seq::<T>::empty(), p, n, r0, r0),
{
    broadcast use vstd::multiset::group_multiset_axioms;
    broadcast use vstd::seq_lib::group_to_multiset_ensures;

    assert(bag(Seq::<T>::empty()) =~= Multiset::<T>::empty());
    assert(bag(r0).add(bag(Seq::<T>::empty())) =~= bag(r0));
}

/// Objects no nearer than the last of a full result leave it unchanged.
proof fn lemma_knn_skip<T: SpatialObject>(s: Seq<T>, p: Seq<i32>, n: nat, r: Seq<T>)
    requires
        n > 0,
        r.len() == n,
        sorted_by_dist(r, p),
        forall|j: int| 0 <= j < s.len() ==> (#[trigger] s[j]).distance2_spec(p) >= r.last().distance2_spec(p),
    ensures
        knn_ok(s, p, n, r, r),
{
    broadcast use vstd::multiset::group_multiset_axioms;
    broadcast use vstd::seq_lib::group_to_multiset_ensures;

    assert forall|x: T| bag(r).add(bag(s)).count(x) > #[trigger] bag(r).count(x) implies x.distance2_spec(p)
        >= r.last().distance2_spec(p) by {
        assert(bag(s).count(x) > 0);
        assert(s.contains(x));
    }
}

/// Inserting `b` into the result (after dropping its last object when it is
/// full) at the position that keeps it sorted.
proof fn lemma_knn_leaf_insert<T: SpatialObject>(b: T, p: Seq<i32>, n: nat, rb: Seq<T>, rm: Seq<T>, idx: int, r1: Seq<T>)
    requires
        n > 0,
        rb.len() <= n,
        sorted_by_dist(rb, p),
        rb.len() < n ==> rm == rb,
        rb.len() == n ==> rb == rm.push(rb.last()) && b.distance2_spec(p) < rb.last().distance2_spec(p),
        0 <= idx <= rm.len(),
        forall|i: int| 0 <= i < idx ==> (#[trigger] rm[i]).distance2_spec(p) <= b.distance2_spec(p),
        forall|i: int| idx <= i < rm.len() ==> (#[trigger] rm[i]).distance2_spec(p) > b.distance2_spec(p),
        r1 == rm.insert(idx, b),
    ensures
        knn_ok(seq![b], p, n, rb, r1),
{
    broadcast use vstd::multiset::group_multiset_axioms;
    broadcast use vstd::seq_lib::group_to_multiset_ensures;

    vstd::seq_lib::to_multiset_insert(rm, idx, b);
    assert(seq![b] =~= Seq::<T>::empty().push(b));
    assert(bag(seq![b]) =~= Multiset::<T>::empty().insert(b));
    assert(sorted_by_dist(rm, p)) by {
        if rb.len() == n {
            assert forall|i: int, j: int| 0 <= i <= j < rm.len() implies (#[trigger] rm[i]).distance2_spec(p) <= (
            #[trigger] rm[j]).distance2_spec(p) by {
                assert(rm[i] == rb[i] && rm[j] == rb[j]);
            }
        }
    }
    assert forall|i: int, j: int| 0 <= i <= j < r1.len() implies (#[trigger] r1[i]).distance2_spec(p) <= (
    #[trigger] r1[j]).distance2_spec(p) by {
        if i < idx {
            assert(r1[i] == rm[i]);
        } else if i > idx {
            assert(r1[i] == rm[i - 1]);
        }
        if j < idx {
            assert(r1[j] == rm[j]);
        } else if j > idx {
            assert(r1[j] == rm[j - 1]);
        }
    }
    if rb.len() < n {
        assert(bag(r1) =~= bag(rb).add(bag(seq![b])));
    } else {
        let l = rb.last();
        vstd::seq_lib::to_multiset_build(rm, l);
        assert forall|x: T| #[trigger] bag(r1).count(x) <= bag(rb).add(bag(seq![b])).count(x) by {}
        assert(bag(r1).subset_of(bag(rb).add(bag(seq![b]))));
        assert forall|i: int| 0 <= i < r1.len() implies (#[trigger] r1[i]).distance2_spec(p) <= l.distance2_spec(p) by {
            if i < idx {
                assert(r1[i] == rm[i]);
                assert(rm[i] == rb[i]);
            } else if i > idx {
                assert(r1[i] == rm[i - 1]);
                assert(rm[i - 1] == rb[i - 1]);
            }
        }
        assert(r1.last() == r1[r1.len() - 1]);
        assert forall|x: T| bag(rb).add(bag(seq![b])).count(x) > #[trigger] bag(r1).count(x) implies x.distance2_spec(p)
            >= r1.last().distance2_spec(p) by {
            if x != l {
                assert(bag(rb).count(x) == bag(rm).count(x));
            }
        }
    }
}

} // verus!
