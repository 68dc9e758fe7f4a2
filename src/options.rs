use vstd::prelude::*;

verus! {

/// Fan-out parameters of an r*-tree: the largest and smallest number of
/// children of a directory, and how many children a forced reinsertion ejects.
#[derive(Clone, Copy, Debug, PartialEq, Eq, Structural)]
pub struct RTreeOptions {
    pub max_size: usize,
    pub min_size: usize,
    pub reinsertion_count: usize,
}

impl RTreeOptions {
    /// The triple is usable: `0 < min_size < max_size` and
    /// `0 < reinsertion_count < max_size`.
    pub open spec fn valid(&self) -> bool {
        &&& 0 < self.min_size < self.max_size
        &&& 0 < self.reinsertion_count < self.max_size
        &&& self.max_size < usize::MAX
    }

    /// The default triple: `max_size = 6`, `min_size = 3`, `reinsertion_count = 2`.
    pub open spec fn default_spec() -> RTreeOptions {
        RTreeOptions { max_size: 6, min_size: 3, reinsertion_count: 2 }
    }

    /// Default options: `max_size = 6`, `min_size = 3`, `reinsertion_count = 2`.
    pub fn new() -> (r: RTreeOptions)
        ensures
            r == RTreeOptions::default_spec(),
            r.valid(),
    {
        RTreeOptions { max_size: 6, min_size: 3, reinsertion_count: 2 }
    }

    /// The same options with `max_size` replaced; it must stay above
    /// `min_size` (and leave room for one more child).
    pub fn set_max_size(self, max_size: usize) -> (r: RTreeOptions)
        requires
            max_size > self.min_size,
            max_size > self.reinsertion_count,
            max_size < usize::MAX,
        ensures
            r == (RTreeOptions { max_size, ..self }),
    {
        let mut s = self;
        s.max_size = max_size;
        s
    }

    /// The same options with `min_size` replaced; it must stay below
    /// `max_size`.
    pub fn set_min_size(self, min_size: usize) -> (r: RTreeOptions)
        requires
            self.max_size > min_size,
        ensures
            r == (RTreeOptions { min_size, ..self }),
    {
        let mut s = self;
        s.min_size = min_size;
        s
    }

    /// The same options with `reinsertion_count` replaced; it must lie
    /// strictly between zero and `max_size`.
    pub fn set_reinsertion_count(self, reinsertion_count: usize) -> (r: RTreeOptions)
        requires
            0 < reinsertion_count < self.max_size,
        ensures
            r == (RTreeOptions { reinsertion_count, ..self }),
    {
        let mut s = self;
        s.reinsertion_count = reinsertion_count;
        s
    }
}

impl Default for RTreeOptions {
    fn default() -> (r: RTreeOptions)
        ensures
            r == RTreeOptions::default_spec(),
    {
        RTreeOptions::new()
    }
}

} // verus!
