use vstd::prelude::*;

use crate::insert::all_ok;
use crate::node::{
    DirectoryNodeData, RTreeNode, bag, lemma_bag_insert, lemma_bag_remove, lemma_objects_of_member,
    node_ok, objects_of,
};
use crate::object::SpatialObject;
use crate::query::lemma_member_of_child;

verus! {

impl<T: SpatialObject> DirectoryNodeData<T> {
    /// Index of the first child with an object equal to `obj` below it.
    fn find_equal(&self, obj: &T) -> (r: usize)
        requires
            self.wf(self.options),
            exists|j: int| 0 <= j < self.objects().len() && (#[trigger] self.objects()[j]).eq_spec(obj),
        ensures
            r < self.children@.len(),
            exists|j: int|
                0 <= j < self.children@[r as int].objects().len() && (
                #[trigger] self.children@[r as int].objects()[j]).eq_spec(obj),
    {
        let ghost cs = self.children@;
        let mut i: usize = 0;
        while i < self.children.len()
            invariant
                self.wf(self.options),
                cs == self.children@,
                i <= cs.len(),
                exists|j: int| 0 <= j < self.objects().len() && (#[trigger] self.objects()[j]).eq_spec(obj),
                forall|k: int, j: int|
                    0 <= k < i && 0 <= j < cs[k].objects().len() ==> !(#[trigger] cs[k].objects()[j]).eq_spec(obj),
            decreases cs.len() - i,
        {
            proof {
                assert(node_ok(self.depth, self.options, cs[i as int]));
            }
            let hit = match &self.children[i] {
                RTreeNode::DirectoryNode(data) => {
                    proof {
                        assert(cs[i as int].objects() == data.objects());
                    }
                    data.contains(obj)
                },
                RTreeNode::Leaf(t) => {
                    let e = t.equals(obj);
                    proof {
                        assert(cs[i as int].objects() =~= seq![*t]);
                        assert(cs[i as int].objects()[0] == *t);
                    }
                    e
                },
            };
            if hit {
                return i;
            }
            i += 1;
        }
        proof {
            let j = choose|j: int| 0 <= j < self.objects().len() && (#[trigger] self.objects()[j]).eq_spec(obj);
            let o = self.objects()[j];
            assert(objects_of(cs).contains(o));
            lemma_objects_of_member(cs, o);
            let k = choose|k: int| 0 <= k < cs.len() && (#[trigger] cs[k]).objects().contains(o);
            let jj = choose|jj: int| 0 <= jj < cs[k].objects().len() && cs[k].objects()[jj] == o;
            assert(!cs[k].objects()[jj].eq_spec(obj));
        }
        0
    }

    /// Index of the first child with an object containing `p` below it.
    pub(crate) fn find_containing(&self, p: &Vec<i32>) -> (r: usize)
        requires
            self.wf(self.options),
            p@.len() == T::dim_spec(),
            exists|j: int| 0 <= j < self.objects().len() && (#[trigger] self.objects()[j]).contains_spec(p@),
        ensures
            r < self.children@.len(),
            exists|j: int|
                0 <= j < self.children@[r as int].objects().len() && (
                #[trigger] self.children@[r as int].objects()[j]).contains_spec(p@),
    {
        let ghost cs = self.children@;
        let mut i: usize = 0;
        while i < self.children.len()
            invariant
                self.wf(self.options),
                p@.len() == T::dim_spec(),
                cs == self.children@,
                i <= cs.len(),
                exists|j: int| 0 <= j < self.objects().len() && (#[trigger] self.objects()[j]).contains_spec(p@),
                forall|k: int, j: int|
                    0 <= k < i && 0 <= j < cs[k].objects().len() ==> !(#[trigger] cs[k].objects()[j]).contains_spec(p@),
            decreases cs.len() - i,
        {
            proof {
                assert(node_ok(self.depth, self.options, cs[i as int]));
            }
            let hit = match &self.children[i] {
                RTreeNode::DirectoryNode(data) => {
                    let f = data.lookup(p);
                    proof {
                        if f is Some {
                            let o = *f->0;
                            let j = choose|j: int| 0 <= j < data.objects().len() && data.objects()[j] == o;
                            assert(cs[i as int].objects()[j].contains_spec(p@));
                        }
                    }
                    proof {
                        assert(cs[i as int].objects() == data.objects());
                    }
                    f.is_some()
                },
                RTreeNode::Leaf(t) => {
                    let e = t.contains(p);
                    proof {
                        assert(cs[i as int].objects() =~= seq![*t]);
                        assert(cs[i as int].objects()[0] == *t);
                    }
                    e
                },
            };
            if hit {
                return i;
            }
            i += 1;
        }
        proof {
            let j = choose|j: int| 0 <= j < self.objects().len() && (#[trigger] self.objects()[j]).contains_spec(p@);
            let o = self.objects()[j];
            assert(objects_of(cs).contains(o));
            lemma_objects_of_member(cs, o);
            let k = choose|k: int| 0 <= k < cs.len() && (#[trigger] cs[k]).objects().contains(o);
            let jj = choose|jj: int| 0 <= jj < cs[k].objects().len() && cs[k].objects()[jj] == o;
            assert(!cs[k].objects()[jj].contains_spec(p@));
        }
        0
    }

    /// Removes one object equal to `to_remove`, dropping directories that
    /// become empty and recomputing the rectangles on the way; `false`, with
    /// nothing changed, when there is none.
    pub fn remove(&mut self, to_remove: &T) -> (r: bool)
        requires
            old(self).wf(old(self).options),
        ensures
            final(self).wf(old(self).options),
            final(self).depth == old(self).depth,
            final(self).options == old(self).options,
            r == exists|j: int|
                0 <= j < old(self).objects().len() && (#[trigger] old(self).objects()[j]).eq_spec(
                    to_remove,
                ),
            r ==> exists|o: T|
                old(self).objects().contains(o) && o.eq_spec(to_remove) && bag(final(self).objects())
                    == bag(old(self).objects()).remove(o),
            !r ==> *final(self) == *old(self),
        decreases old(self).depth,
    {
        if !self.contains(to_remove) {
            return false;
        }
        let ghost opts = self.options;
        let ghost depth = self.depth;
        let ghost oc = self.children@;
        let i = self.find_equal(to_remove);
        let child = self.children.remove(i);
        let ghost rest = self.children@;
        proof {
            assert(node_ok(depth, opts, oc[i as int]));
            lemma_bag_remove(oc, i as int);
            assert(all_ok(depth, opts, rest)) by {
                assert forall|k: int| 0 <= k < rest.len() implies node_ok(depth, opts, #[trigger] rest[k]) by {
                    if k < i {
                        assert(rest[k] == oc[k]);
                    } else {
                        assert(rest[k] == oc[k + 1]);
                    }
                }
            }
        }
        match child {
            RTreeNode::DirectoryNode(mut data) => {
                let ghost od = data;
                let ok = data.remove(to_remove);
                let ghost o = choose|o: T|
                    od.objects().contains(o) && o.eq_spec(to_remove) && bag(data.objects()) == bag(
                        od.objects(),
                    ).remove(o);
                proof {
                    assert(oc[i as int].objects() == od.objects());
                    lemma_member_of_child(oc, i as int, o);
                    assert(bag(od.objects()).count(o) > 0) by {
                        broadcast use vstd::seq_lib::group_to_multiset_ensures;
                    }
                    assert(bag(objects_of(oc)) == bag(objects_of(rest)).add(bag(od.objects())));
                    crate::node::lemma_bag_remove_add(bag(objects_of(rest)), bag(od.objects()), o);
                }
                if data.children.len() > 0 {
                    let ghost nc = RTreeNode::DirectoryNode(data);
                    self.children.insert(i, RTreeNode::DirectoryNode(data));
                    proof {
                        lemma_bag_insert(rest, i as int, nc);
                        assert(all_ok(depth, opts, self.children@)) by {
                            assert forall|k: int| 0 <= k < self.children@.len() implies node_ok(depth, opts, #[trigger] self.children@[k]) by {
                                if k < i {
                                    assert(self.children@[k] == rest[k]);
                                } else if k > i {
                                    assert(self.children@[k] == rest[k - 1]);
                                }
                            }
                        }
                        assert(bag(objects_of(self.children@)) =~= bag(objects_of(oc)).remove(o));
                    }
                } else {
                    proof {
                        assert(data.objects() =~= Seq::<T>::empty());
                        crate::node::lemma_bag_empty::<T>();
                        assert(data.children@ =~= Seq::<RTreeNode<T>>::empty());
                        assert(objects_of(data.children@) == objects_of(Seq::<RTreeNode<T>>::empty()));
                        assert(bag(data.objects()) == vstd::multiset::Multiset::<T>::empty());
                        assert(self.children@ == rest);
                        assert(bag(objects_of(self.children@)) =~= bag(objects_of(oc)).remove(o));
                    }
                }
                self.update_mbr();
                proof {
                    assert(self.children@.len() <= oc.len());
                }
                true
            },
            RTreeNode::Leaf(t) => {
                proof {
                    assert(oc[i as int].objects() =~= seq![t]);
                    assert(t.eq_spec(to_remove));
                    lemma_member_of_child(oc, i as int, t);
                    assert(bag(seq![t]) =~= vstd::multiset::Multiset::<T>::empty().insert(t)) by {
                        broadcast use vstd::seq_lib::group_to_multiset_ensures;
                        assert(seq![t] =~= Seq::<T>::empty().push(t));
                        assert(Seq::<T>::empty().to_multiset() =~= vstd::multiset::Multiset::<T>::empty());
                    }
                    assert(bag(objects_of(self.children@)) =~= bag(objects_of(oc)).remove(t));
                }
                self.update_mbr();
                true
            },
        }
    }

    /// Removes and returns one object containing `p`, dropping directories
    /// that become empty and recomputing the rectangles on the way; `None`,
    /// with nothing changed, when no object contains `p`.
    pub fn lookup_and_remove(&mut self, p: &Vec<i32>) -> (r: Option<T>)
        requires
            old(self).wf(old(self).options),
            p@.len() == T::dim_spec(),
        ensures
            final(self).wf(old(self).options),
            final(self).depth == old(self).depth,
            final(self).options == old(self).options,
            match r {
                Some(o) => old(self).objects().contains(o) && o.contains_spec(p@) && bag(
                    final(self).objects(),
                ) == bag(old(self).objects()).remove(o),
                None => *final(self) == *old(self) && forall|j: int|
                    0 <= j < old(self).objects().len() ==> !(#[trigger] old(self).objects()[j]).contains_spec(p@),
            },
        decreases old(self).depth,
    {
        if self.lookup(p).is_none() {
            return None;
        }
        let ghost opts = self.options;
        let ghost depth = self.depth;
        let ghost oc = self.children@;
        let i = self.find_containing(p);
        let child = self.children.remove(i);
        let ghost rest = self.children@;
        proof {
            assert(node_ok(depth, opts, oc[i as int]));
            lemma_bag_remove(oc, i as int);
            assert(all_ok(depth, opts, rest)) by {
                assert forall|k: int| 0 <= k < rest.len() implies node_ok(depth, opts, #[trigger] rest[k]) by {
                    if k < i {
                        assert(rest[k] == oc[k]);
                    } else {
                        assert(rest[k] == oc[k + 1]);
                    }
                }
            }
        }
        match child {
            RTreeNode::DirectoryNode(mut data) => {
                let ghost od = data;
                let found = data.lookup_and_remove(p);
                proof {
                    assert(oc[i as int].objects() == od.objects());
                    if found is None {
                        let j = choose|j: int|
                            0 <= j < oc[i as int].objects().len() && (#[trigger] oc[i as int].objects()[j]).contains_spec(p@);
                        assert(!od.objects()[j].contains_spec(p@));
                    }
                }
                let o = found.unwrap();
                proof {
                    assert(oc[i as int].objects() == od.objects());
                    lemma_member_of_child(oc, i as int, o);
                    assert(bag(od.objects()).count(o) > 0) by {
                        broadcast use vstd::seq_lib::group_to_multiset_ensures;
                    }
                    assert(bag(objects_of(oc)) == bag(objects_of(rest)).add(bag(od.objects())));
                    crate::node::lemma_bag_remove_add(bag(objects_of(rest)), bag(od.objects()), o);
                }
                if data.children.len() > 0 {
                    let ghost nc = RTreeNode::DirectoryNode(data);
                    self.children.insert(i, RTreeNode::DirectoryNode(data));
                    proof {
                        lemma_bag_insert(rest, i as int, nc);
                        assert(all_ok(depth, opts, self.children@)) by {
                            assert forall|k: int| 0 <= k < self.children@.len() implies node_ok(depth, opts, #[trigger] self.children@[k]) by {
                                if k < i {
                                    assert(self.children@[k] == rest[k]);
                                } else if k > i {
                                    assert(self.children@[k] == rest[k - 1]);
                                }
                            }
                        }
                        assert(bag(objects_of(self.children@)) =~= bag(objects_of(oc)).remove(o));
                    }
                } else {
                    proof {
                        assert(data.objects() =~= Seq::<T>::empty());
                        crate::node::lemma_bag_empty::<T>();
                        assert(data.children@ =~= Seq::<RTreeNode<T>>::empty());
                        assert(objects_of(data.children@) == objects_of(Seq::<RTreeNode<T>>::empty()));
                        assert(bag(data.objects()) == vstd::multiset::Multiset::<T>::empty());
                        assert(self.children@ == rest);
                        assert(bag(objects_of(self.children@)) =~= bag(objects_of(oc)).remove(o));
                    }
                }
                self.update_mbr();
                Some(o)
            },
            RTreeNode::Leaf(t) => {
                proof {
                    assert(oc[i as int].objects() =~= seq![t]);
                    assert(t.contains_spec(p@));
                    lemma_member_of_child(oc, i as int, t);
                    assert(bag(seq![t]) =~= vstd::multiset::Multiset::<T>::empty().insert(t)) by {
                        broadcast use vstd::seq_lib::group_to_multiset_ensures;
                        assert(seq![t] =~= Seq::<T>::empty().push(t));
                        assert(Seq::<T>::empty().to_multiset() =~= vstd::multiset::Multiset::<T>::empty());
                    }
                    assert(bag(objects_of(self.children@)) =~= bag(objects_of(oc)).remove(t));
                }
                self.update_mbr();
                Some(t)
            },
        }
    }
}

} // verus!
