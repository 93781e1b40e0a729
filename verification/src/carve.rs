//! What taking a block from a hole does to the list of holes.

use vstd::prelude::*;
use crate::align::lemma_align_up_adds_padding;
use crate::hole::{
    as_seq, back_residual, carve, covers, first_fit_from, front_residual, holes_wf, releasable,
    residuals, total, wasted, within, Hole, MIN_SIZE,
};
use crate::total::{lemma_total_as_seq, lemma_total_concat, lemma_total_split};

verus! {

/// `first_fit_from` names the first hole that fits: none before it does, and it
/// does where it lies within the list.
pub proof fn lemma_first_fit_from(s: Seq<Hole>, from: int, size: int, align: int)
    requires
        0 <= from <= s.len(),
    ensures
        from <= first_fit_from(s, from, size, align) <= s.len(),
        forall|j: int| from <= j < first_fit_from(s, from, size, align) ==> !(#[trigger] s[j]).fits(size, align),
        first_fit_from(s, from, size, align) < s.len() ==> s[first_fit_from(s, from, size, align)].fits(size, align),
    decreases s.len() - from,
{
    if from < s.len() && !s[from].fits(size, align) {
        lemma_first_fit_from(s, from + 1, size, align);
    }
}

/// What the list holds after a block is taken from hole `k`, index by index:
/// the holes in front of `k`, the residuals of hole `k`, which lie within it
/// and beside the block, and the holes behind `k`.
pub proof fn lemma_carve_index(s: Seq<Hole>, k: int, size: int, align: int)
    requires
        holes_wf(s),
        0 <= k < s.len(),
        s[k].fits(size, align),
        size > 0,
        align > 0,
    ensures
        ({
            let h = s[k];
            let start = h.aligned_start(align);
            let res = residuals(h, size, align);
            let c = carve(s, k, size, align);
            let r = res.len() as int;
            &&& h.addr <= start
            &&& start + size <= h.end()
            &&& 0 <= r <= 2
            &&& r == (if h.front(align) >= MIN_SIZE { 1int } else { 0 }) + (if h.back(size, align)
                >= MIN_SIZE { 1int } else { 0 })
            &&& c.len() == s.len() - 1 + r
            &&& forall|i: int| 0 <= i < k ==> #[trigger] c[i] == s[i]
            &&& forall|i: int| k <= i < k + r ==> #[trigger] c[i] == res[i - k]
            &&& forall|i: int| k + r <= i < c.len() ==> #[trigger] c[i] == s[i - r + 1]
            &&& h.front(align) >= MIN_SIZE ==> res[0] == Hole {
                addr: h.addr,
                size: h.front(align) as usize,
            } && res[0].end() == start
            &&& h.back(size, align) >= MIN_SIZE ==> res[r - 1] == Hole {
                addr: (start + size) as usize,
                size: h.back(size, align) as usize,
            } && res[r - 1].addr == start + size && res[r - 1].end() == h.end()
        }),
{
    lemma_align_up_adds_padding(s[k].addr as int, align);
}

/// Taking a block from a hole in which it fits keeps the list well formed.
pub proof fn lemma_carve_wf(s: Seq<Hole>, k: int, size: int, align: int)
    requires
        holes_wf(s),
        0 <= k < s.len(),
        s[k].fits(size, align),
        size > 0,
        align > 0,
    ensures
        holes_wf(carve(s, k, size, align)),
{
    let h = s[k];
    let res = residuals(h, size, align);
    let c = carve(s, k, size, align);
    let r = res.len() as int;
    lemma_align_up_adds_padding(h.addr as int, align);
    assert forall|i: int| 0 <= i < r implies h.addr <= (#[trigger] res[i]).addr && res[i].end()
        <= h.end() && res[i].size >= MIN_SIZE by {}
    assert forall|i: int, j: int| 0 <= i < j < r implies (#[trigger] res[i]).end() < (
    #[trigger] res[j]).addr by {}
    assert forall|i: int| 0 <= i < c.len() implies (#[trigger] c[i]).size >= MIN_SIZE && c[i].end()
        <= usize::MAX by {
        if i < k {
            assert(c[i] == s[i]);
        } else if i < k + r {
            assert(c[i] == res[i - k]);
        } else {
            assert(c[i] == s[i - r + 1]);
        }
    }
    assert forall|i: int, j: int| 0 <= i < j < c.len() implies (#[trigger] c[i]).end() < (
    #[trigger] c[j]).addr by {
        let lo_end = if i < k {
            s[i].end()
        } else if i < k + r {
            res[i - k].end()
        } else {
            s[i - r + 1].end()
        };
        let hi_addr = if j < k {
            s[j].addr
        } else if j < k + r {
            res[j - k].addr
        } else {
            s[j - r + 1].addr
        };
        assert(c[i].end() == lo_end);
        assert(c[j].addr == hi_addr);
    }
}

/// Taking a block from a hole leaves every hole within the bounds that held
/// the list before.
pub proof fn lemma_carve_within(s: Seq<Hole>, k: int, size: int, align: int, lo: int, hi: int)
    requires
        holes_wf(s),
        within(s, lo, hi),
        0 <= k < s.len(),
        s[k].fits(size, align),
        size > 0,
        align > 0,
    ensures
        within(carve(s, k, size, align), lo, hi),
{
    let h = s[k];
    let res = residuals(h, size, align);
    let c = carve(s, k, size, align);
    let r = res.len() as int;
    lemma_align_up_adds_padding(h.addr as int, align);
    assert forall|i: int| 0 <= i < c.len() implies lo <= (#[trigger] c[i]).addr && c[i].end()
        <= hi by {
        if i < k {
            assert(c[i] == s[i]);
        } else if i < k + r {
            assert(c[i] == res[i - k]);
        } else {
            assert(c[i] == s[i - r + 1]);
        }
    }
}

/// Taking a block from a hole takes the block and the hole's unkept parts from
/// the free bytes, and nothing else.
pub proof fn lemma_carve_total(s: Seq<Hole>, k: int, size: int, align: int)
    requires
        holes_wf(s),
        0 <= k < s.len(),
        s[k].fits(size, align),
        size > 0,
        align > 0,
    ensures
        total(carve(s, k, size, align)) == total(s) - size - wasted(s[k], size, align),
{
    let h = s[k];
    let a = s.subrange(0, k);
    let b = s.subrange(k + 1, s.len() as int);
    let res = residuals(h, size, align);
    lemma_align_up_adds_padding(h.addr as int, align);
    lemma_total_split(s, k);
    lemma_total_concat(a + res, b);
    lemma_total_concat(a, res);
    lemma_total_concat(as_seq(front_residual(h, align)), as_seq(back_residual(h, size, align)));
    lemma_total_as_seq(front_residual(h, align));
    lemma_total_as_seq(back_residual(h, size, align));
}

/// The block that was just taken from the list can be given back: it is large
/// enough and shares no byte with a hole that is left.
pub proof fn lemma_carved_block_is_releasable(s: Seq<Hole>, k: int, size: int, align: int)
    requires
        holes_wf(s),
        0 <= k < s.len(),
        s[k].fits(size, align),
        size >= MIN_SIZE,
        align > 0,
    ensures
        releasable(carve(s, k, size, align), s[k].aligned_start(align), size),
{
    lemma_carve_index(s, k, size, align);
    let h = s[k];
    let start = h.aligned_start(align);
    let c = carve(s, k, size, align);
    let res = residuals(h, size, align);
    let r = res.len() as int;
    assert forall|i: int| 0 <= i < c.len() implies (#[trigger] c[i]).end() <= start || start + size
        <= c[i].addr by {
        if i < k {
            assert(c[i] == s[i]);
            assert(s[i].end() < s[k].addr);
        } else if i < k + r {
            assert(c[i] == res[i - k]);
        } else {
            assert(c[i] == s[i - r + 1]);
            assert(s[k].end() < s[i - r + 1].addr);
        }
    }
}

/// The bytes that are free after a block is taken from hole `k` are those that
/// were free before, but for that hole; of the hole, the bytes in front of
/// the block and the bytes behind it stay free where they are enough to be
/// kept.
pub proof fn lemma_carve_covers(s: Seq<Hole>, k: int, size: int, align: int, x: int)
    requires
        holes_wf(s),
        0 <= k < s.len(),
        s[k].fits(size, align),
        size > 0,
        align > 0,
    ensures
        ({
            let h = s[k];
            let start = h.aligned_start(align);
            covers(carve(s, k, size, align), x) <==> {
                ||| covers(s, x) && !h.contains(x)
                ||| h.front(align) >= MIN_SIZE && h.addr <= x < start
                ||| h.back(size, align) >= MIN_SIZE && start + size <= x < h.end()
            }
        }),
{
    lemma_carve_index(s, k, size, align);
    let h = s[k];
    let start = h.aligned_start(align);
    let c = carve(s, k, size, align);
    let res = residuals(h, size, align);
    let r = res.len() as int;
    if covers(c, x) {
        let i = choose|i: int| 0 <= i < c.len() && (#[trigger] c[i]).contains(x);
        if i < k {
            assert(s[i].contains(x));
            assert(s[i].end() < h.addr);
        } else if i < k + r {
            assert(c[i] == res[i - k]);
        } else {
            assert(s[i - r + 1].contains(x));
            assert(h.end() < s[i - r + 1].addr);
        }
    }
    if covers(s, x) && !h.contains(x) {
        let j = choose|j: int| 0 <= j < s.len() && (#[trigger] s[j]).contains(x);
        if j < k {
            assert(c[j].contains(x));
        } else {
            assert(c[j + r - 1] == s[j]);
            assert(c[j + r - 1].contains(x));
        }
    }
    if h.front(align) >= MIN_SIZE && h.addr <= x < start {
        assert(c[k] == res[0]);
        assert(c[k].contains(x));
    }
    if h.back(size, align) >= MIN_SIZE && start + size <= x < h.end() {
        assert(c[k + r - 1] == res[r - 1]);
        assert(c[k + r - 1].contains(x));
    }
}

} // verus!
