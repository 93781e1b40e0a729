//! The registry of free blocks: holes in ascending address order, never
//! overlapping and never touching.

use vstd::prelude::*;
use crate::align::{lemma_align_up_adds_padding, spec_align_up};
use crate::carve::{
    lemma_carve_total, lemma_carve_wf, lemma_carved_block_is_releasable, lemma_first_fit_from,
};
use crate::coalesce::{lemma_freed_total, lemma_freed_wf, lemma_slot_separates};
use crate::heap::AllocError;

verus! {

/// The smallest block that the registry keeps track of: two machine words of
/// the target, the room that the size of a hole and the address of the next hole
/// take.
pub const MIN_SIZE: usize = 8;

/// The alignment that the size of every block is rounded up to: one machine
/// word of the target.
pub const HOLE_ALIGN: usize = 4;

/// A contiguous run of free memory: `size` bytes that start at `addr`.
#[derive(Clone, Copy, Debug, PartialEq, Eq, Structural)]
pub struct Hole {
    pub addr: usize,
    pub size: usize,
}

impl Hole {
    /// The first address behind the hole.
    pub open spec fn end(self) -> int {
        self.addr + self.size
    }

    /// Whether the byte at address `x` belongs to the hole.
    pub open spec fn contains(self, x: int) -> bool {
        self.addr <= x < self.end()
    }

    /// Where a block of alignment `align` would start in this hole.
    pub open spec fn aligned_start(self, align: int) -> int {
        spec_align_up(self.addr as int, align)
    }

    /// Whether a block of `size` bytes with alignment `align` fits in this hole.
    pub open spec fn fits(self, size: int, align: int) -> bool {
        self.aligned_start(align) + size <= self.end()
    }

    /// The bytes of this hole that lie in front of a block of alignment `align`.
    pub open spec fn front(self, align: int) -> int {
        self.aligned_start(align) - self.addr
    }

    /// The bytes of this hole that lie behind a block of `size` bytes with
    /// alignment `align`.
    pub open spec fn back(self, size: int, align: int) -> int {
        self.end() - (self.aligned_start(align) + size)
    }
}

/// What a residual of `len` bytes gives back to the registry: itself where it
/// can be kept, nothing where it is too small.
pub open spec fn kept(len: int) -> int {
    if len >= MIN_SIZE {
        len
    } else {
        0
    }
}

/// The bytes of hole `h` that are neither handed out nor kept when a block of
/// `size` bytes with alignment `align` is carved from it.
pub open spec fn wasted(h: Hole, size: int, align: int) -> int {
    (h.front(align) - kept(h.front(align))) + (h.back(size, align) - kept(h.back(size, align)))
}

/// The invariant of a hole list: every hole is large enough to be kept and ends
/// within the address space, and each hole lies strictly behind the end of the
/// one before it, so that no two overlap or touch.
pub open spec fn holes_wf(s: Seq<Hole>) -> bool {
    &&& forall|i: int| 0 <= i < s.len() ==> (#[trigger] s[i]).size >= MIN_SIZE && s[i].end() <= usize::MAX
    &&& forall|i: int, j: int| 0 <= i < j < s.len() ==> (#[trigger] s[i]).end() < (#[trigger] s[j]).addr
}

/// Whether every hole of the list lies within the addresses from `lo` up to,
/// but not including, `hi`.
pub open spec fn within(s: Seq<Hole>, lo: int, hi: int) -> bool {
    forall|i: int| 0 <= i < s.len() ==> lo <= (#[trigger] s[i]).addr && s[i].end() <= hi
}

/// Whether the byte at address `x` is free.
pub open spec fn covers(s: Seq<Hole>, x: int) -> bool {
    exists|i: int| 0 <= i < s.len() && (#[trigger] s[i]).contains(x)
}

/// The number of free bytes.
pub open spec fn total(s: Seq<Hole>) -> int
    decreases s.len(),
{
    if s.len() == 0 {
        0
    } else {
        total(s.drop_last()) + s.last().size
    }
}

/// The index of the first hole at or behind `from` in which the block fits, or
/// the length of the list where there is none.
pub open spec fn first_fit_from(s: Seq<Hole>, from: int, size: int, align: int) -> int
    decreases s.len() - from,
{
    if from >= s.len() {
        s.len() as int
    } else if s[from].fits(size, align) {
        from
    } else {
        first_fit_from(s, from + 1, size, align)
    }
}

/// The index of the first hole, in address order, in which the block fits, or
/// the length of the list where there is none.
pub open spec fn first_fit(s: Seq<Hole>, size: int, align: int) -> int {
    first_fit_from(s, 0, size, align)
}

/// The hole that is left in front of a block of alignment `align` taken from
/// `h`, where those bytes are enough to be kept.
pub open spec fn front_residual(h: Hole, align: int) -> Option<Hole> {
    if h.front(align) >= MIN_SIZE {
        Some(Hole { addr: h.addr, size: h.front(align) as usize })
    } else {
        None
    }
}

/// The hole that is left behind a block of `size` bytes with alignment `align`
/// taken from `h`, where those bytes are enough to be kept.
pub open spec fn back_residual(h: Hole, size: int, align: int) -> Option<Hole> {
    if h.back(size, align) >= MIN_SIZE {
        Some(
            Hole {
                addr: (h.aligned_start(align) + size) as usize,
                size: h.back(size, align) as usize,
            },
        )
    } else {
        None
    }
}

/// The holes that an optional hole stands for: one or none.
pub open spec fn as_seq(o: Option<Hole>) -> Seq<Hole> {
    match o {
        Some(h) => seq![h],
        None => seq![],
    }
}

/// The residuals of hole `h` that the registry keeps, in address order, once a
/// block of `size` bytes with alignment `align` is taken from it.
pub open spec fn residuals(h: Hole, size: int, align: int) -> Seq<Hole> {
    as_seq(front_residual(h, align)) + as_seq(back_residual(h, size, align))
}

/// The list after a block of `size` bytes with alignment `align` is taken from
/// hole `k`: the hole gives way to its residuals.
pub open spec fn carve(s: Seq<Hole>, k: int, size: int, align: int) -> Seq<Hole> {
    s.subrange(0, k) + residuals(s[k], size, align) + s.subrange(k + 1, s.len() as int)
}

/// Whether the block of `size` bytes at `addr` can be given back: it is large
/// enough to be kept, ends within the address space, and shares no byte with a
/// hole.
pub open spec fn releasable(s: Seq<Hole>, addr: int, size: int) -> bool {
    &&& size >= MIN_SIZE
    &&& 0 <= addr
    &&& addr + size <= usize::MAX
    &&& forall|i: int| 0 <= i < s.len() ==> (#[trigger] s[i]).end() <= addr || addr + size <= s[i].addr
}

/// The index of the first hole at or behind `from` that starts behind `addr`,
/// or the length of the list where there is none.
pub open spec fn slot_from(s: Seq<Hole>, from: int, addr: int) -> int
    decreases s.len() - from,
{
    if from >= s.len() {
        s.len() as int
    } else if s[from].addr > addr {
        from
    } else {
        slot_from(s, from + 1, addr)
    }
}

/// The place of a block at `addr` in the list: the number of holes in front of it.
pub open spec fn slot(s: Seq<Hole>, addr: int) -> int {
    slot_from(s, 0, addr)
}

/// The list after the block of `size` bytes at `addr` is given back: the block
/// becomes a hole at its place, merged with the hole that ends where it starts
/// and with the hole that starts where it ends, if there are such.
pub open spec fn freed(s: Seq<Hole>, addr: int, size: int) -> Seq<Hole> {
    let k = slot(s, addr);
    let joins_prev = k > 0 && s[k - 1].end() == addr;
    let joins_next = k < s.len() && s[k].addr == addr + size;
    let lo = if joins_prev { k - 1 } else { k };
    let hi = if joins_next { k + 1 } else { k };
    let start = if joins_prev { s[k - 1].addr as int } else { addr };
    let stop = if joins_next { s[k].end() } else { addr + size };
    s.subrange(0, lo).push(Hole { addr: start as usize, size: (stop - start) as usize })
        + s.subrange(hi, s.len() as int)
}

/// How a hole answers a request: the block that is handed out, and what is
/// left of the hole in front of it and behind it.
#[derive(Clone, Copy, Debug, PartialEq, Eq)]
pub struct Allocation {
    pub info: Hole,
    pub front_padding: Option<Hole>,
    pub back_padding: Option<Hole>,
}

/// Splits `hole` into the bytes in front of the block, the block, and the bytes
/// behind it, if a block of `size` bytes with alignment `align` fits in it. A
/// part in front or behind that is too small to be kept is not reported.
pub fn split_hole(hole: Hole, size: usize, align: usize) -> (r: Option<Allocation>)
    requires
        align > 0,
        hole.end() <= usize::MAX,
    ensures
        r is Some <==> hole.fits(size as int, align as int),
        r matches Some(a) ==> {
            &&& a.info.addr == hole.aligned_start(align as int)
            &&& a.info.size == size
            &&& a.front_padding == front_residual(hole, align as int)
            &&& a.back_padding == back_residual(hole, size as int, align as int)
        },
{
    proof {
        lemma_align_up_adds_padding(hole.addr as int, align as int);
    }
    let rem: usize = hole.addr % align;
    let pad: usize = if rem == 0 {
        0
    } else {
        align - rem
    };
    if pad > hole.size {
        return None;
    }
    let avail: usize = hole.size - pad;
    if avail < size {
        return None;
    }
    let start: usize = hole.addr + pad;
    let rest: usize = avail - size;
    let front_padding = if pad >= MIN_SIZE {
        Some(Hole { addr: hole.addr, size: pad })
    } else {
        None
    };
    let back_padding = if rest >= MIN_SIZE {
        Some(Hole { addr: start + size, size: rest })
    } else {
        None
    };
    Some(Allocation { info: Hole { addr: start, size }, front_padding, back_padding })
}

/// A sorted list of holes.
pub struct HoleList {
    holes: Vec<Hole>,
}

impl View for HoleList {
    type V = Seq<Hole>;

    closed spec fn view(&self) -> Seq<Hole> {
        self.holes@
    }
}

impl HoleList {
    /// The invariant of the list, which every operation keeps.
    pub open spec fn wf(&self) -> bool {
        holes_wf(self@)
    }

    /// Creates a list without holes: every allocation from it fails.
    pub fn empty() -> (r: HoleList)
        ensures
            r@ == Seq::<Hole>::empty(),
            r.wf(),
    {
        HoleList { holes: Vec::new() }
    }

    /// Creates a list whose only hole spans the `hole_size` bytes at `hole_addr`.
    pub fn new(hole_addr: usize, hole_size: usize) -> (r: HoleList)
        requires
            hole_size >= MIN_SIZE,
            hole_addr + hole_size <= usize::MAX,
        ensures
            r@ == seq![Hole { addr: hole_addr, size: hole_size }],
            r.wf(),
    {
        let mut holes: Vec<Hole> = Vec::new();
        holes.push(Hole { addr: hole_addr, size: hole_size });
        assert(holes@ =~= seq![Hole { addr: hole_addr, size: hole_size }]);
        HoleList { holes }
    }

    /// The minimal size of a block. Smaller allocations and deallocations are
    /// not allowed.
    pub fn min_size() -> (r: usize)
        ensures
            r == MIN_SIZE,
    {
        MIN_SIZE
    }

    /// Puts the holes that `front` and `back` stand for in the place of hole `k`.
    fn replace_hole(&mut self, k: usize, front: Option<Hole>, back: Option<Hole>)
        requires
            k < old(self)@.len(),
        ensures
            final(self)@ == old(self)@.subrange(0, k as int) + (as_seq(front) + as_seq(back)) + old(
                self,
            )@.subrange(k + 1, old(self)@.len() as int),
    {
        let ghost before = self.holes@;
        let ghost after = before.subrange(0, k as int) + (as_seq(front) + as_seq(back))
            + before.subrange(k + 1, before.len() as int);
        match (front, back) {
            (Some(f), Some(b)) => {
                self.holes[k] = b;
                self.holes.insert(k, f);
            },
            (Some(f), None) => {
                self.holes[k] = f;
            },
            (None, Some(b)) => {
                self.holes[k] = b;
            },
            (None, None) => {
                self.holes.remove(k);
            },
        }
        assert(self.holes@ =~= after);
    }

    /// Searches the list for a hole that can hold a block of `size` bytes with
    /// alignment `align`, and takes the block from the first such hole in address
    /// order. What is left of the hole in front of the block and behind it stays
    /// in the list where it is at least [`MIN_SIZE`] bytes; a smaller rest is
    /// given up. Returns the address of the block, or an error if no hole can
    /// hold it; the list is then unchanged.
    pub fn allocate_first_fit(&mut self, size: usize, align: usize) -> (r: Result<usize, AllocError>)
        requires
            old(self).wf(),
            size >= MIN_SIZE,
            align > 0,
        ensures
            final(self).wf(),
            r is Ok <==> exists|i: int|
                0 <= i < old(self)@.len() && (#[trigger] old(self)@[i]).fits(size as int, align as int),
            r is Ok <==> first_fit(old(self)@, size as int, align as int) < old(self)@.len(),
            r is Err ==> final(self)@ == old(self)@,
            r matches Ok(addr) ==> {
                let k = first_fit(old(self)@, size as int, align as int);
                &&& addr == old(self)@[k].aligned_start(align as int)
                &&& final(self)@ == carve(old(self)@, k, size as int, align as int)
                &&& total(final(self)@) == total(old(self)@) - size - wasted(
                    old(self)@[k],
                    size as int,
                    align as int,
                )
                &&& releasable(final(self)@, addr as int, size as int)
            },
    {
        let ghost s = self@;
        let n = self.holes.len();
        let mut i: usize = 0;
        proof {
            lemma_first_fit_from(s, 0, size as int, align as int);
        }
        while i < n
            invariant
                self@ == s,
                s == old(self)@,
                holes_wf(s),
                n == s.len(),
                0 <= i <= n,
                align > 0,
                size >= MIN_SIZE,
                first_fit(s, size as int, align as int) == first_fit_from(
                    s,
                    i as int,
                    size as int,
                    align as int,
                ),
            decreases n - i,
        {
            let hole = self.holes[i];
            assert(hole == s[i as int]);
            match split_hole(hole, size, align) {
                Some(found) => {
                    self.replace_hole(i, found.front_padding, found.back_padding);
                    proof {
                        assert(first_fit_from(s, i as int, size as int, align as int) == i);
                        lemma_carve_wf(s, i as int, size as int, align as int);
                        lemma_carve_total(s, i as int, size as int, align as int);
                        lemma_carved_block_is_releasable(s, i as int, size as int, align as int);
                    }
                    return Ok(found.info.addr);
                },
                None => {
                    assert(first_fit_from(s, i as int, size as int, align as int)
                        == first_fit_from(s, i + 1, size as int, align as int));
                },
            }
            i += 1;
        }
        assert(first_fit_from(s, n as int, size as int, align as int) == n);
        Err(AllocError)
    }

    /// Whether the block of `size` bytes at `addr` can be given back: whether it
    /// is large enough, ends within the address space and shares no byte with
    /// a hole.
    pub fn is_releasable(&self, addr: usize, size: usize) -> (r: bool)
        requires
            self.wf(),
        ensures
            r == releasable(self@, addr as int, size as int),
    {
        if size < MIN_SIZE || size > usize::MAX - addr {
            return false;
        }
        let n = self.holes.len();
        let mut i: usize = 0;
        while i < n
            invariant
                self.wf(),
                n == self@.len(),
                0 <= i <= n,
                addr + size <= usize::MAX,
                forall|j: int|
                    0 <= j < i ==> (#[trigger] self@[j]).end() <= addr || addr + size <= self@[j].addr,
            decreases n - i,
        {
            let hole = self.holes[i];
            if hole.addr + hole.size > addr && addr + size > hole.addr {
                return false;
            }
            i += 1;
        }
        true
    }

    /// Gives the block of `size` bytes at `addr` back to the list. The block
    /// becomes a hole at its place in address order, and is merged with the hole
    /// in front of it and with the hole behind it where it touches them.
    pub fn deallocate(&mut self, addr: usize, size: usize)
        requires
            old(self).wf(),
            releasable(old(self)@, addr as int, size as int),
        ensures
            final(self).wf(),
            final(self)@ == freed(old(self)@, addr as int, size as int),
            total(final(self)@) == total(old(self)@) + size,
    {
        let ghost s = self@;
        let n = self.holes.len();
        let mut k: usize = 0;
        while k < n && self.holes[k].addr <= addr
            invariant
                self@ == s,
                n == s.len(),
                0 <= k <= n,
                slot(s, addr as int) == slot_from(s, k as int, addr as int),
            decreases n - k,
        {
            k += 1;
        }
        proof {
            assert(slot(s, addr as int) == k);
            lemma_slot_separates(s, addr as int, size as int);
            lemma_freed_wf(s, addr as int, size as int);
            lemma_freed_total(s, addr as int, size as int);
            if k > 0 {
                assert(s[k - 1].end() <= addr);
            }
            if k < n {
                assert(addr + size <= s[k as int].addr);
            }
        }
        let joins_prev = k > 0 && self.holes[k - 1].addr + self.holes[k - 1].size == addr;
        let joins_next = k < n && self.holes[k].addr == addr + size;
        if joins_prev && joins_next {
            let prev = self.holes[k - 1];
            let next = self.holes[k];
            self.holes[k - 1] = Hole { addr: prev.addr, size: prev.size + size + next.size };
            self.holes.remove(k);
        } else if joins_prev {
            let prev = self.holes[k - 1];
            self.holes[k - 1] = Hole { addr: prev.addr, size: prev.size + size };
        } else if joins_next {
            let next = self.holes[k];
            self.holes[k] = Hole { addr, size: size + next.size };
        } else {
            self.holes.insert(k, Hole { addr, size });
        }
        assert(self.holes@ =~= freed(s, addr as int, size as int));
    }

    /// The holes, in address order.
    pub fn holes(&self) -> (r: &Vec<Hole>)
        ensures
            r@ == self@,
    {
        &self.holes
    }
}

} // verus!
