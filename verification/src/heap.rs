//! The heap: a region of memory, the list of its holes, and the rounding that
//! every request goes through before the list sees it.

use vstd::prelude::*;
use crate::align::{
    is_power_of_two, lemma_align_up_is_smallest, lemma_mask_rounds_down, spec_align_down,
    spec_align_up,
};
use crate::carve::{lemma_carve_within, lemma_first_fit_from};
use crate::coalesce::lemma_freed_within;
use crate::hole::{
    carve, first_fit, freed, holes_wf, releasable, total, wasted, within, Hole, HoleList,
    HOLE_ALIGN, MIN_SIZE,
};
use crate::layout::Layout;

verus! {

/// The error of an allocation: no hole can hold the block.
#[derive(Clone, Copy, Debug, PartialEq, Eq)]
pub struct AllocError;

/// The size that a request for `size` bytes is served with: at least
/// [`MIN_SIZE`], and rounded up to a multiple of [`HOLE_ALIGN`].
pub open spec fn effective_size(size: int) -> int {
    spec_align_up(if size < MIN_SIZE { MIN_SIZE as int } else { size }, HOLE_ALIGN as int)
}

/// The size that a request is served with is the smallest multiple of
/// [`HOLE_ALIGN`] that is neither below the size asked for nor below
/// [`MIN_SIZE`].
pub proof fn lemma_effective_size(size: int, x: int)
    requires
        size >= 0,
    ensures
        effective_size(size) >= MIN_SIZE,
        size <= effective_size(size) < size + HOLE_ALIGN || effective_size(size) == MIN_SIZE,
        effective_size(size) % (HOLE_ALIGN as int) == 0,
        x % (HOLE_ALIGN as int) == 0 && x >= size && x >= MIN_SIZE ==> x >= effective_size(size),
{
    let raised = if size < MIN_SIZE { MIN_SIZE as int } else { size };
    lemma_align_up_is_smallest(raised, HOLE_ALIGN as int, x);
}

/// The size that a request of this layout is served with.
fn block_size(layout: Layout) -> (r: usize)
    ensures
        r == effective_size(layout.size() as int),
        r >= MIN_SIZE,
        r >= layout.size(),
{
    proof {
        use_type_invariant(&layout);
    }
    let mut size = layout.size();
    if size < HoleList::min_size() {
        size = HoleList::min_size();
    }
    assert(is_power_of_two(HOLE_ALIGN)) by (bit_vector);
    align_up(size, HOLE_ALIGN)
}

/// A fixed size heap backed by a list of free memory blocks.
pub struct Heap {
    bottom: usize,
    size: usize,
    holes: HoleList,
}

impl View for Heap {
    type V = Seq<Hole>;

    /// The holes of the heap, in address order.
    closed spec fn view(&self) -> Seq<Hole> {
        self.holes@
    }
}

impl Heap {
    pub closed spec fn spec_bottom(&self) -> usize {
        self.bottom
    }

    pub closed spec fn spec_size(&self) -> usize {
        self.size
    }

    pub open spec fn spec_top(&self) -> usize {
        (self.bottom() + self.size()) as usize
    }

    /// The invariant of the heap, which every operation keeps: the holes form a
    /// well-formed list, the region ends within the address space, and every
    /// hole lies within the region.
    pub open spec fn wf(&self) -> bool {
        &&& holes_wf(self@)
        &&& self.bottom() + self.size() <= usize::MAX
        &&& within(self@, self.bottom() as int, self.bottom() + self.size())
    }

    /// Whether the heap manages no memory yet.
    pub open spec fn is_empty(&self) -> bool {
        self.size() == 0 && self@.len() == 0
    }

    /// Creates an empty heap. All allocate calls will return an error.
    pub fn empty() -> (r: Heap)
        ensures
            r.is_empty(),
            r.bottom() == 0,
            r.wf(),
    {
        Heap { bottom: 0, size: 0, holes: HoleList::empty() }
    }

    /// Initializes an empty heap with the `size` bytes at `bottom`: records the
    /// region and makes it one hole.
    pub fn init(&mut self, bottom: usize, size: usize)
        requires
            old(self).is_empty(),
            size >= MIN_SIZE,
            bottom + size <= usize::MAX,
        ensures
            final(self).bottom() == bottom,
            final(self).size() == size,
            final(self)@ == seq![Hole { addr: bottom, size }],
            final(self).wf(),
    {
        self.bottom = bottom;
        self.size = size;
        self.holes = HoleList::new(bottom, size);
    }

    /// Allocates a chunk of the given size with the given alignment. Returns the
    /// address of the beginning of that chunk if it was successful, else an
    /// error. The size is raised to [`MIN_SIZE`] and rounded up to a multiple
    /// of [`HOLE_ALIGN`] first. The list of holes is then scanned in address
    /// order, and the first hole that is big enough is used.
    pub fn allocate_first_fit(&mut self, layout: Layout) -> (r: Result<usize, AllocError>)
        requires
            old(self).wf(),
        ensures
            final(self).wf(),
            final(self).bottom() == old(self).bottom(),
            final(self).size() == old(self).size(),
            r is Ok <==> exists|i: int|
                0 <= i < old(self)@.len() && (#[trigger] old(self)@[i]).fits(
                    effective_size(layout.size() as int),
                    layout.align() as int,
                ),
            r is Err ==> final(self)@ == old(self)@,
            r matches Ok(addr) ==> {
                let size = effective_size(layout.size() as int);
                let align = layout.align() as int;
                let k = first_fit(old(self)@, size, align);
                &&& 0 <= k < old(self)@.len()
                &&& forall|j: int| 0 <= j < k ==> !(#[trigger] old(self)@[j]).fits(size, align)
                &&& addr == old(self)@[k].aligned_start(align)
                &&& final(self)@ == carve(old(self)@, k, size, align)
                &&& total(final(self)@) == total(old(self)@) - size - wasted(old(self)@[k], size, align)
                &&& addr % layout.align() == 0
                &&& old(self).bottom() <= addr
                &&& addr + size <= old(self).top()
                &&& size >= MIN_SIZE
                &&& size >= layout.size()
                &&& releasable(final(self)@, addr as int, size)
            },
            layout.size() > old(self).size() ==> r is Err,
    {
        let size = block_size(layout);
        let align = layout.align();
        proof {
            let s = self@;
            lemma_first_fit_from(s, 0, size as int, align as int);
            let k = first_fit(s, size as int, align as int);
            if k < s.len() {
                lemma_carve_within(
                    s,
                    k,
                    size as int,
                    align as int,
                    self.bottom() as int,
                    self.bottom() + self.size(),
                );
                lemma_align_up_is_smallest(s[k].addr as int, align as int, 0);
            }
            assert forall|i: int| 0 <= i < s.len() && (#[trigger] s[i]).fits(
                size as int,
                align as int,
            ) implies layout.size() <= self.size() by {
                lemma_align_up_is_smallest(s[i].addr as int, align as int, 0);
            }
        }
        self.holes.allocate_first_fit(size, align)
    }

    /// Frees the given allocation. `ptr` must be an address returned by a call
    /// to [`Heap::allocate_first_fit`] with identical size and alignment that has
    /// not been freed since. All that the heap itself can ask of the block is
    /// that it lies within the region and shares no byte with a hole;
    /// [`Heap::can_deallocate`] tests that.
    ///
    /// The freed block is put at its place in the list of holes. If it touches
    /// the hole in front of it or the hole behind it, the blocks are merged.
    pub fn deallocate(&mut self, ptr: usize, layout: Layout)
        requires
            old(self).wf(),
            releasable(old(self)@, ptr as int, effective_size(layout.size() as int)),
            old(self).bottom() <= ptr,
            ptr + effective_size(layout.size() as int) <= old(self).top(),
        ensures
            final(self).wf(),
            final(self).bottom() == old(self).bottom(),
            final(self).size() == old(self).size(),
            final(self)@ == freed(old(self)@, ptr as int, effective_size(layout.size() as int)),
            total(final(self)@) == total(old(self)@) + effective_size(layout.size() as int),
    {
        let size = block_size(layout);
        proof {
            lemma_freed_within(
                self@,
                ptr as int,
                size as int,
                self.bottom() as int,
                self.bottom() + self.size(),
            );
        }
        self.holes.deallocate(ptr, size);
    }

    /// Returns the bottom address of the heap.
    #[verifier::when_used_as_spec(spec_bottom)]
    pub fn bottom(&self) -> (r: usize)
        ensures
            r == self.bottom(),
    {
        self.bottom
    }

    /// Returns the size of the heap.
    #[verifier::when_used_as_spec(spec_size)]
    pub fn size(&self) -> (r: usize)
        ensures
            r == self.size(),
    {
        self.size
    }

    /// Return the top address of the heap.
    #[verifier::when_used_as_spec(spec_top)]
    pub fn top(&self) -> (r: usize)
        requires
            self.wf(),
        ensures
            r == self.bottom() + self.size(),
    {
        self.bottom + self.size
    }

    /// Extends the size of the heap by creating a new hole at the end: the `by`
    /// bytes behind the top of the heap, merged with the last hole where that
    /// one reaches the top.
    pub fn extend(&mut self, by: usize)
        requires
            old(self).wf(),
            by >= MIN_SIZE,
            old(self).top() + by <= usize::MAX,
        ensures
            final(self).wf(),
            final(self).bottom() == old(self).bottom(),
            final(self).size() == old(self).size() + by,
            final(self)@ == freed(old(self)@, old(self).top() as int, by as int),
            total(final(self)@) == total(old(self)@) + by,
            old(self)@.len() == 0 ==> final(self)@ == seq![Hole { addr: old(self).top(), size: by }],
    {
        let top = self.top();
        proof {
            lemma_freed_within(
                self@,
                top as int,
                by as int,
                self.bottom() as int,
                self.bottom() + self.size() + by,
            );
            if self@.len() == 0 {
                assert(freed(self@, top as int, by as int) =~= seq![Hole { addr: top, size: by }]);
            }
        }
        self.holes.deallocate(top, by);
        self.size += by;
    }

    /// Whether the block at `ptr` that `layout` describes can be freed: whether
    /// it lies within the heap and shares no byte with a hole.
    pub fn can_deallocate(&self, ptr: usize, layout: Layout) -> (r: bool)
        requires
            self.wf(),
        ensures
            r == {
                &&& releasable(self@, ptr as int, effective_size(layout.size() as int))
                &&& self.bottom() <= ptr
                &&& ptr + effective_size(layout.size() as int) <= self.top()
            },
    {
        let size = block_size(layout);
        let top = self.top();
        self.holes.is_releasable(ptr, size) && self.bottom <= ptr && ptr <= top && size <= top - ptr
    }

    /// Whether the heap can be extended by `by` bytes: whether they are enough
    /// to form a hole and end within the address space.
    pub fn can_extend(&self, by: usize) -> (r: bool)
        requires
            self.wf(),
        ensures
            r == (by >= MIN_SIZE && self.top() + by <= usize::MAX),
    {
        by >= HoleList::min_size() && by <= usize::MAX - self.top()
    }

    /// Allocates as [`Heap::allocate_first_fit`] does, and returns the address
    /// zero where that returns an error.
    pub fn allocate_or_null(&mut self, layout: Layout) -> (r: usize)
        requires
            old(self).wf(),
        ensures
            final(self).wf(),
            final(self).bottom() == old(self).bottom(),
            final(self).size() == old(self).size(),
            ({
                let size = effective_size(layout.size() as int);
                let align = layout.align() as int;
                let k = first_fit(old(self)@, size, align);
                if k < old(self)@.len() {
                    &&& r == old(self)@[k].aligned_start(align)
                    &&& final(self)@ == carve(old(self)@, k, size, align)
                    &&& releasable(final(self)@, r as int, size)
                } else {
                    &&& r == 0
                    &&& final(self)@ == old(self)@
                }
            }),
    {
        proof {
            lemma_first_fit_from(
                self@,
                0,
                effective_size(layout.size() as int),
                layout.align() as int,
            );
        }
        match self.allocate_first_fit(layout) {
            Ok(allocation) => allocation,
            Err(_) => 0,
        }
    }

    /// The holes of the heap, in address order.
    pub fn holes(&self) -> (r: &Vec<Hole>)
        ensures
            r@ == self@,
    {
        self.holes.holes()
    }
}

/// Align downwards. Returns the greatest `x` with alignment `align` so that
/// `x <= addr`. The alignment must be a power of two, or zero, which leaves the
/// address as it is.
pub fn align_down(addr: usize, align: usize) -> (r: usize)
    requires
        align == 0 || is_power_of_two(align),
    ensures
        r == spec_align_down(addr as int, align as int),
        align != 0 ==> r % align == 0 && r <= addr < r + align,
{
    if align == 0 {
        addr
    } else {
        proof {
            lemma_mask_rounds_down(addr, align);
            crate::align::lemma_align_down_is_greatest(addr as int, align as int, 0);
        }
        addr & !(align - 1)
    }
}

/// Align upwards. Returns the smallest `x` with alignment `align` so that
/// `x >= addr`. The alignment must be a power of two. With an alignment of zero
/// the result is what aligning `addr - 1` downwards gives: `addr - 1`.
pub fn align_up(addr: usize, align: usize) -> (r: usize)
    requires
        align == 0 || is_power_of_two(align),
        1 <= addr + align <= usize::MAX + 1,
    ensures
        r == spec_align_up(addr as int, align as int),
        align != 0 ==> r % align == 0 && addr <= r < addr + align,
{
    proof {
        if align != 0 {
            lemma_align_up_is_smallest(addr as int, align as int, 0);
        }
    }
    if align == 0 {
        align_down(addr - 1, align)
    } else {
        align_down(addr + (align - 1), align)
    }
}

} // verus!
