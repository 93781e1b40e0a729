//! The size and alignment of a request for memory.

use vstd::prelude::*;
use crate::align::is_power_of_two;

verus! {

/// A size and an alignment that belong together: the alignment is a power of
/// two, and the size, rounded up to the alignment, does not exceed `isize::MAX`.
#[derive(Clone, Copy, Debug, PartialEq, Eq)]
pub struct Layout {
    size: usize,
    align: usize,
}

/// The error of [`Layout::from_size_align`]: the two numbers do not form a layout.
#[derive(Clone, Copy, Debug, PartialEq, Eq)]
pub struct LayoutError;

impl Layout {
    /// Whether `size` and `align` form a layout.
    pub open spec fn valid(size: usize, align: usize) -> bool {
        is_power_of_two(align) && size + align - 1 <= isize::MAX
    }

    pub closed spec fn spec_size(&self) -> usize {
        self.size
    }

    pub closed spec fn spec_align(&self) -> usize {
        self.align
    }

    /// Holds of every layout that executable code can get hold of.
    #[verifier::type_invariant]
    pub open spec fn wf(&self) -> bool {
        Layout::valid(self.spec_size(), self.spec_align())
    }

    /// Builds a layout, or says that `size` and `align` do not form one.
    pub fn from_size_align(size: usize, align: usize) -> (r: Result<Layout, LayoutError>)
        ensures
            r is Ok <==> Layout::valid(size, align),
            r matches Ok(l) ==> l.size() == size && l.align() == align && l.wf(),
    {
        if align == 0 || align & (align - 1) != 0 {
            return Err(LayoutError);
        }
        let max: usize = isize::MAX as usize;
        if align - 1 > max || size > max - (align - 1) {
            return Err(LayoutError);
        }
        Ok(Layout { size, align })
    }

    /// The number of bytes asked for.
    #[verifier::when_used_as_spec(spec_size)]
    pub fn size(&self) -> (r: usize)
        ensures
            r == self.size(),
    {
        self.size
    }

    /// The alignment asked for, a power of two.
    #[verifier::when_used_as_spec(spec_align)]
    pub fn align(&self) -> (r: usize)
        ensures
            r == self.align(),
            is_power_of_two(r),
    {
        proof {
            use_type_invariant(self);
        }
        self.align
    }
}

} // verus!
