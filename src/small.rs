use vstd::prelude::*;

use smallvec::SmallVec;

verus! {

/// A buffer of child indices that stays on the stack while it is short.
#[verifier::external_body]
pub struct IndexBuffer {
    items: SmallVec<[usize; 8]>,
}

/// The indices in a buffer, in order.
pub uninterp spec fn buffer_items(b: IndexBuffer) -> Seq<usize>;

impl IndexBuffer {
    /// Relies on `SmallVec::new`: a new buffer holds no items.
    #[verifier::external_body]
    pub(crate) fn new() -> (r: IndexBuffer)
        ensures
            buffer_items(r) == Seq::<usize>::empty(),
    {
        IndexBuffer { items: SmallVec::new() }
    }

    /// Relies on `SmallVec::push`: appends one item (it panics only when the
    /// length would pass `usize::MAX`).
    #[verifier::external_body]
    pub(crate) fn push(&mut self, x: usize)
        requires
            buffer_items(*old(self)).len() < usize::MAX,
        ensures
            buffer_items(*final(self)) == buffer_items(*old(self)).push(x),
    {
        self.items.push(x)
    }

    /// Relies on `SmallVec::len`: the number of items.
    #[verifier::external_body]
    pub(crate) fn len(&self) -> (r: usize)
        ensures
            r == buffer_items(*self).len(),
    {
        self.items.len()
    }

    /// Relies on indexing a `SmallVec` (through its slice): the item at `i`.
    #[verifier::external_body]
    pub(crate) fn get(&self, i: usize) -> (r: usize)
        requires
            i < buffer_items(*self).len(),
        ensures
            r == buffer_items(*self)[i as int],
    {
        self.items[i]
    }
}

} // verus!
