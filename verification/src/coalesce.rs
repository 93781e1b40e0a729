//! What giving blocks back does to the list of holes: neighbours merge, and
//! what was taken and given back leaves no trace.

use vstd::prelude::*;
use crate::align::lemma_align_up_adds_padding;
use crate::carve::{
    lemma_carve_index, lemma_carve_wf, lemma_carved_block_is_releasable, lemma_first_fit_from,
};
use crate::hole::{
    carve, covers, first_fit, freed, holes_wf, releasable, residuals, slot, slot_from,
    total, wasted, within, Hole, MIN_SIZE,
};
use crate::total::{lemma_total_around, lemma_total_cut, lemma_total_short};

verus! {

/// `slot_from` names the first hole that starts behind `addr`.
pub proof fn lemma_slot_from(s: Seq<Hole>, from: int, addr: int)
    requires
        0 <= from <= s.len(),
    ensures
        from <= slot_from(s, from, addr) <= s.len(),
        forall|j: int| from <= j < slot_from(s, from, addr) ==> (#[trigger] s[j]).addr <= addr,
        slot_from(s, from, addr) < s.len() ==> s[slot_from(s, from, addr)].addr > addr,
    decreases s.len() - from,
{
    if from < s.len() && s[from].addr <= addr {
        lemma_slot_from(s, from + 1, addr);
    }
}

/// An index is the slot of `addr` if no hole in front of it starts behind
/// `addr` and the hole at it, if there is one, does.
pub proof fn lemma_slot_is(s: Seq<Hole>, addr: int, p: int)
    requires
        0 <= p <= s.len(),
        forall|j: int| 0 <= j < p ==> (#[trigger] s[j]).addr <= addr,
        p < s.len() ==> s[p].addr > addr,
    ensures
        slot(s, addr) == p,
{
    lemma_slot_from_is(s, 0, addr, p);
}

/// The same, for a search that starts at `from`.
proof fn lemma_slot_from_is(s: Seq<Hole>, from: int, addr: int, p: int)
    requires
        0 <= from <= p <= s.len(),
        forall|j: int| 0 <= j < p ==> (#[trigger] s[j]).addr <= addr,
        p < s.len() ==> s[p].addr > addr,
    ensures
        slot_from(s, from, addr) == p,
    decreases p - from,
{
    if from < p {
        lemma_slot_from_is(s, from + 1, addr, p);
    }
}

/// Where a releasable block stands among the holes: every hole in front of its
/// slot ends at or before the block, and every hole from its slot on starts at
/// or behind the block's end.
pub proof fn lemma_slot_separates(s: Seq<Hole>, addr: int, size: int)
    requires
        holes_wf(s),
        releasable(s, addr, size),
    ensures
        0 <= slot(s, addr) <= s.len(),
        forall|j: int| 0 <= j < slot(s, addr) ==> (#[trigger] s[j]).end() <= addr,
        forall|j: int| slot(s, addr) <= j < s.len() ==> addr + size <= (#[trigger] s[j]).addr,
{
    let k = slot(s, addr);
    lemma_slot_from(s, 0, addr);
    assert forall|j: int| k <= j < s.len() implies addr + size <= (#[trigger] s[j]).addr by {
        if j > k {
            assert(s[k].end() < s[j].addr);
        }
    }
}

/// Whether `f` is the list `s` with the block of `size` bytes at `addr` put in
/// at index `k` and merged with the neighbours that it touches, said index by
/// index.
pub open spec fn merged_at(s: Seq<Hole>, k: int, addr: int, size: int, f: Seq<Hole>) -> bool {
    let joins_prev = k > 0 && s[k - 1].end() == addr;
    let joins_next = k < s.len() && s[k].addr == addr + size;
    let lo = if joins_prev { k - 1 } else { k };
    let hi = if joins_next { k + 1 } else { k };
    &&& f.len() == s.len() - (hi - lo) + 1
    &&& forall|i: int| 0 <= i < lo ==> #[trigger] f[i] == s[i]
    &&& f[lo].addr == (if joins_prev { s[k - 1].addr as int } else { addr })
    &&& f[lo].end() == (if joins_next { s[k].end() } else { addr + size })
    &&& forall|i: int| lo < i < f.len() ==> #[trigger] f[i] == s[i - 1 + (hi - lo)]
}

/// What the list holds after a block is given back, index by index.
pub proof fn lemma_freed_index(s: Seq<Hole>, addr: int, size: int)
    requires
        holes_wf(s),
        releasable(s, addr, size),
    ensures
        merged_at(s, slot(s, addr), addr, size, freed(s, addr, size)),
{
    lemma_slot_separates(s, addr, size);
    let k = slot(s, addr);
    if k > 0 {
        assert(s[k - 1].end() <= addr);
    }
    if k < s.len() {
        assert(addr + size <= s[k].addr);
    }
}

/// Only one list holds what the list after giving a block back holds.
pub proof fn lemma_merged_at_is_freed(s: Seq<Hole>, addr: int, size: int, f: Seq<Hole>)
    requires
        holes_wf(s),
        releasable(s, addr, size),
        merged_at(s, slot(s, addr), addr, size, f),
    ensures
        f == freed(s, addr, size),
{
    lemma_slot_separates(s, addr, size);
    lemma_freed_index(s, addr, size);
    let g = freed(s, addr, size);
    assert forall|i: int| 0 <= i < f.len() implies f[i] == g[i] by {}
    assert(f =~= g);
}

/// Giving a releasable block back keeps the list well formed.
pub proof fn lemma_freed_wf(s: Seq<Hole>, addr: int, size: int)
    requires
        holes_wf(s),
        releasable(s, addr, size),
    ensures
        holes_wf(freed(s, addr, size)),
{
    lemma_slot_separates(s, addr, size);
    lemma_freed_index(s, addr, size);
    let k = slot(s, addr);
    let joins_prev = k > 0 && s[k - 1].end() == addr;
    let joins_next = k < s.len() && s[k].addr == addr + size;
    let lo = if joins_prev { k - 1 } else { k };
    let hi = if joins_next { k + 1 } else { k };
    let f = freed(s, addr, size);
    let d = hi - lo - 1;
    assert forall|i: int| 0 <= i < f.len() implies (#[trigger] f[i]).size >= MIN_SIZE && f[i].end()
        <= usize::MAX by {
        if i < lo {
            assert(f[i] == s[i]);
        } else if i > lo {
            assert(f[i] == s[i + d]);
        }
    }
    assert forall|i: int, j: int| 0 <= i < j < f.len() implies (#[trigger] f[i]).end() < (
    #[trigger] f[j]).addr by {
        if i < lo {
            assert(f[i] == s[i]);
        } else if i > lo {
            assert(f[i] == s[i + d]);
        }
        if j < lo {
            assert(f[j] == s[j]);
        } else if j > lo {
            assert(f[j] == s[j + d]);
        }
        if i < lo && j == lo {
            if joins_prev {
                assert(s[i].end() < s[k - 1].addr);
            } else {
                assert(s[i].end() <= s[k - 1].end());
            }
        }
        if i == lo && j > lo {
            assert(s[hi].addr <= s[j + d].addr);
            if joins_next {
                assert(s[k].end() < s[hi].addr);
            }
        }
    }
}

/// Giving back a block that lies within the bounds of the list leaves every
/// hole within them.
pub proof fn lemma_freed_within(s: Seq<Hole>, addr: int, size: int, lo: int, hi: int)
    requires
        holes_wf(s),
        within(s, lo, hi),
        releasable(s, addr, size),
        lo <= addr,
        addr + size <= hi,
    ensures
        within(freed(s, addr, size), lo, hi),
{
    lemma_slot_separates(s, addr, size);
    lemma_freed_index(s, addr, size);
    let k = slot(s, addr);
    let joins_prev = k > 0 && s[k - 1].end() == addr;
    let joins_next = k < s.len() && s[k].addr == addr + size;
    let lo_i = if joins_prev { k - 1 } else { k };
    let hi_i = if joins_next { k + 1 } else { k };
    let f = freed(s, addr, size);
    assert forall|i: int| 0 <= i < f.len() implies lo <= (#[trigger] f[i]).addr && f[i].end()
        <= hi by {
        if i < lo_i {
            assert(f[i] == s[i]);
        } else if i > lo_i {
            assert(f[i] == s[i - 1 + (hi_i - lo_i)]);
        }
    }
}

/// Giving a block back adds its bytes to the free bytes, and nothing else.
pub proof fn lemma_freed_total(s: Seq<Hole>, addr: int, size: int)
    requires
        holes_wf(s),
        releasable(s, addr, size),
    ensures
        total(freed(s, addr, size)) == total(s) + size,
{
    lemma_slot_separates(s, addr, size);
    let k = slot(s, addr);
    let joins_prev = k > 0 && s[k - 1].end() == addr;
    let joins_next = k < s.len() && s[k].addr == addr + size;
    let lo = if joins_prev { k - 1 } else { k };
    let hi = if joins_next { k + 1 } else { k };
    let start = if joins_prev { s[k - 1].addr as int } else { addr };
    let stop = if joins_next { s[k].end() } else { addr + size };
    let merged = Hole { addr: start as usize, size: (stop - start) as usize };
    if k > 0 {
        assert(s[k - 1].end() <= addr);
    }
    if k < s.len() {
        assert(addr + size <= s[k].addr);
    }
    lemma_total_around(s.subrange(0, lo), merged, s.subrange(hi, s.len() as int));
    lemma_total_cut(s, lo, hi);
    lemma_total_short(s, lo, hi);
}

/// The bytes that are free after a block is given back are those that were
/// free before and those of the block.
pub proof fn lemma_freed_covers(s: Seq<Hole>, addr: int, size: int, x: int)
    requires
        holes_wf(s),
        releasable(s, addr, size),
    ensures
        covers(freed(s, addr, size), x) <==> covers(s, x) || addr <= x < addr + size,
{
    lemma_slot_separates(s, addr, size);
    lemma_freed_index(s, addr, size);
    let f = freed(s, addr, size);
    let k = slot(s, addr);
    let joins_prev = k > 0 && s[k - 1].end() == addr;
    let joins_next = k < s.len() && s[k].addr == addr + size;
    let lo = if joins_prev { k - 1 } else { k };
    let hi = if joins_next { k + 1 } else { k };
    if covers(f, x) {
        let i = choose|i: int| 0 <= i < f.len() && (#[trigger] f[i]).contains(x);
        if i < lo {
            assert(s[i].contains(x));
        } else if i > lo {
            assert(s[i - 1 + (hi - lo)].contains(x));
        } else if !(addr <= x < addr + size) {
            if x < addr {
                assert(s[k - 1].contains(x));
            } else {
                assert(s[k].contains(x));
            }
        }
    }
    if covers(s, x) {
        let j = choose|j: int| 0 <= j < s.len() && (#[trigger] s[j]).contains(x);
        if j < lo {
            assert(f[j].contains(x));
        } else if j >= hi {
            assert(f[j + 1 - (hi - lo)] == s[j]);
            assert(f[j + 1 - (hi - lo)].contains(x));
        } else {
            assert(f[lo].contains(x));
        }
    }
    if addr <= x < addr + size {
        assert(f[lo].contains(x));
    }
}

/// Two blocks of which the second starts where the first ends can each be
/// given back where their union can, and both have the place in the list that
/// the union has.
proof fn lemma_halves_are_releasable(s: Seq<Hole>, addr: int, first: int, second: int)
    requires
        holes_wf(s),
        first >= MIN_SIZE,
        second >= MIN_SIZE,
        releasable(s, addr, first + second),
    ensures
        releasable(s, addr, first),
        releasable(s, addr + first, second),
        slot(s, addr + first) == slot(s, addr),
        0 <= slot(s, addr) <= s.len(),
        forall|j: int| 0 <= j < slot(s, addr) ==> (#[trigger] s[j]).end() <= addr,
        forall|j: int|
            slot(s, addr) <= j < s.len() ==> addr + first + second <= (#[trigger] s[j]).addr,
{
    lemma_slot_separates(s, addr, first + second);
    let k = slot(s, addr);
    assert forall|j: int| 0 <= j < k implies (#[trigger] s[j]).addr <= addr + first by {
        assert(s[j].end() <= addr);
    }
    lemma_slot_is(s, addr + first, k);
}

/// Putting the upper block into a list that holds the lower one gives the list
/// that holds their union, index by index.
proof fn lemma_upper_joins_lower(
    s: Seq<Hole>,
    k: int,
    addr: int,
    first: int,
    second: int,
    s1: Seq<Hole>,
    whole: Seq<Hole>,
)
    requires
        holes_wf(s),
        first >= MIN_SIZE,
        second >= MIN_SIZE,
        0 <= k <= s.len(),
        forall|j: int| 0 <= j < k ==> (#[trigger] s[j]).end() <= addr,
        forall|j: int| k <= j < s.len() ==> addr + first + second <= (#[trigger] s[j]).addr,
        merged_at(s, k, addr, first, s1),
        merged_at(s, k, addr, first + second, whole),
    ensures
        ({
            let lo = if k > 0 && s[k - 1].end() == addr { k - 1 } else { k };
            &&& 0 <= lo < s1.len()
            &&& forall|j: int| 0 <= j < lo + 1 ==> (#[trigger] s1[j]).addr <= addr + first
            &&& lo + 1 < s1.len() ==> s1[lo + 1].addr > addr + first
            &&& forall|i: int|
                0 <= i < s1.len() ==> (#[trigger] s1[i]).end() <= addr + first || addr + first
                    + second <= s1[i].addr
            &&& merged_at(s1, lo + 1, addr + first, second, whole)
        }),
{
    let mid = addr + first;
    let joins_prev = k > 0 && s[k - 1].end() == addr;
    let joins_next = k < s.len() && s[k].addr == mid + second;
    let lo = if joins_prev { k - 1 } else { k };
    let hi = if joins_next { k + 1 } else { k };
    if k > 0 {
        assert(s[k - 1].end() <= addr);
    }
    if k < s.len() {
        assert(mid + second <= s[k].addr);
    }
    assert(s1[lo].end() == mid);
    assert forall|i: int| 0 <= i < s1.len() implies (#[trigger] s1[i]).end() <= mid || mid + second
        <= s1[i].addr by {
        if i < lo {
            assert(s1[i] == s[i]);
            assert(s[i].end() <= addr);
        } else if i > lo {
            assert(s1[i] == s[i - 1 + (k - lo)]);
        }
    }
    assert forall|j: int| 0 <= j < lo + 1 implies (#[trigger] s1[j]).addr <= mid by {
        if j < lo {
            assert(s1[j] == s[j]);
            assert(s[j].end() <= addr);
        }
    }
    if lo + 1 < s1.len() {
        assert(s1[lo + 1] == s[lo + 1 - 1 + (k - lo)]);
    }
    assert forall|i: int| 0 <= i < lo implies #[trigger] whole[i] == s1[i] by {
        assert(whole[i] == s[i]);
        assert(s1[i] == s[i]);
    }
    let hi1 = if joins_next { lo + 2 } else { lo + 1 };
    assert forall|i: int| lo < i < whole.len() implies #[trigger] whole[i] == s1[i - 1 + (hi1
        - lo)] by {
        assert(whole[i] == s[i - 1 + (hi - lo)]);
        assert(s1[i - 1 + (hi1 - lo)] == s[i - 1 + (hi1 - lo) - 1 + (k - lo)]);
    }
}

/// The lower block first, then the upper one.
proof fn lemma_lower_then_upper(s: Seq<Hole>, addr: int, first: int, second: int)
    requires
        holes_wf(s),
        first >= MIN_SIZE,
        second >= MIN_SIZE,
        releasable(s, addr, first + second),
    ensures
        releasable(freed(s, addr, first), addr + first, second),
        freed(freed(s, addr, first), addr + first, second) == freed(s, addr, first + second),
{
    lemma_halves_are_releasable(s, addr, first, second);
    let k = slot(s, addr);
    let lo = if k > 0 && s[k - 1].end() == addr { k - 1 } else { k };
    let whole = freed(s, addr, first + second);
    let s1 = freed(s, addr, first);
    lemma_freed_index(s, addr, first + second);
    lemma_freed_index(s, addr, first);
    lemma_freed_wf(s, addr, first);
    lemma_upper_joins_lower(s, k, addr, first, second, s1, whole);
    lemma_slot_is(s1, addr + first, lo + 1);
    lemma_merged_at_is_freed(s1, addr + first, second, whole);
}

/// Putting the lower block into a list that holds the upper one gives the list
/// that holds their union, index by index.
proof fn lemma_lower_joins_upper(
    s: Seq<Hole>,
    k: int,
    addr: int,
    first: int,
    second: int,
    s2: Seq<Hole>,
    whole: Seq<Hole>,
)
    requires
        holes_wf(s),
        first >= MIN_SIZE,
        second >= MIN_SIZE,
        0 <= k <= s.len(),
        forall|j: int| 0 <= j < k ==> (#[trigger] s[j]).end() <= addr,
        forall|j: int| k <= j < s.len() ==> addr + first + second <= (#[trigger] s[j]).addr,
        merged_at(s, k, addr + first, second, s2),
        merged_at(s, k, addr, first + second, whole),
    ensures
        0 <= k < s2.len(),
        forall|j: int| 0 <= j < k ==> (#[trigger] s2[j]).addr <= addr,
        s2[k].addr > addr,
        forall|i: int|
            0 <= i < s2.len() ==> (#[trigger] s2[i]).end() <= addr || addr + first <= s2[i].addr,
        merged_at(s2, k, addr, first, whole),
{
    let mid = addr + first;
    let joins_prev = k > 0 && s[k - 1].end() == addr;
    let joins_next = k < s.len() && s[k].addr == mid + second;
    let lo = if joins_prev { k - 1 } else { k };
    let hi = if joins_next { k + 1 } else { k };
    if k > 0 {
        assert(s[k - 1].end() <= addr);
    }
    if k < s.len() {
        assert(mid + second <= s[k].addr);
    }
    assert(s2[k].addr == mid);
    assert forall|i: int| 0 <= i < s2.len() implies (#[trigger] s2[i]).end() <= addr || addr + first
        <= s2[i].addr by {
        if i < k {
            assert(s2[i] == s[i]);
            assert(s[i].end() <= addr);
        } else if i > k {
            assert(s2[i] == s[i - 1 + (hi - k)]);
        }
    }
    assert forall|j: int| 0 <= j < k implies (#[trigger] s2[j]).addr <= addr by {
        assert(s2[j] == s[j]);
        assert(s[j].end() <= addr);
    }
    if k > 0 {
        assert(s2[k - 1] == s[k - 1]);
    }
    assert forall|i: int| 0 <= i < lo implies #[trigger] whole[i] == s2[i] by {
        assert(whole[i] == s[i]);
        assert(s2[i] == s[i]);
    }
    assert forall|i: int| lo < i < whole.len() implies #[trigger] whole[i] == s2[i - 1 + (k + 1
        - lo)] by {
        assert(whole[i] == s[i - 1 + (hi - lo)]);
        assert(s2[i - 1 + (k + 1 - lo)] == s[i - 1 + (k + 1 - lo) - 1 + (hi - k)]);
    }
}

/// The upper block first, then the lower one.
proof fn lemma_upper_then_lower(s: Seq<Hole>, addr: int, first: int, second: int)
    requires
        holes_wf(s),
        first >= MIN_SIZE,
        second >= MIN_SIZE,
        releasable(s, addr, first + second),
    ensures
        releasable(freed(s, addr + first, second), addr, first),
        freed(freed(s, addr + first, second), addr, first) == freed(s, addr, first + second),
{
    lemma_halves_are_releasable(s, addr, first, second);
    let k = slot(s, addr);
    let whole = freed(s, addr, first + second);
    let s2 = freed(s, addr + first, second);
    lemma_freed_index(s, addr, first + second);
    lemma_freed_index(s, addr + first, second);
    lemma_freed_wf(s, addr + first, second);
    lemma_lower_joins_upper(s, k, addr, first, second, s2, whole);
    lemma_slot_is(s2, addr, k);
    lemma_merged_at_is_freed(s2, addr, first, whole);
}

/// Giving back two blocks of which the second starts where the first ends
/// leaves one hole that spans both, whichever is given back first: the list is
/// the one that giving back their union as a single block leaves.
pub proof fn lemma_adjacent_frees_merge(s: Seq<Hole>, addr: int, first: int, second: int)
    requires
        holes_wf(s),
        first >= MIN_SIZE,
        second >= MIN_SIZE,
        releasable(s, addr, first + second),
    ensures
        releasable(s, addr, first),
        releasable(s, addr + first, second),
        releasable(freed(s, addr, first), addr + first, second),
        releasable(freed(s, addr + first, second), addr, first),
        freed(freed(s, addr, first), addr + first, second) == freed(s, addr, first + second),
        freed(freed(s, addr + first, second), addr, first) == freed(s, addr, first + second),
        holes_wf(freed(s, addr, first + second)),
        exists|i: int|
            0 <= i < freed(s, addr, first + second).len() && (#[trigger] freed(
                s,
                addr,
                first + second,
            )[i]).addr <= addr && addr + first + second <= freed(s, addr, first + second)[i].end(),
{
    lemma_halves_are_releasable(s, addr, first, second);
    lemma_lower_then_upper(s, addr, first, second);
    lemma_upper_then_lower(s, addr, first, second);
    lemma_freed_wf(s, addr, first + second);
    lemma_freed_index(s, addr, first + second);
    let k = slot(s, addr);
    let lo = if k > 0 && s[k - 1].end() == addr { k - 1 } else { k };
    let whole = freed(s, addr, first + second);
    assert(0 <= lo < whole.len() && whole[lo].addr <= addr && addr + first + second
        <= whole[lo].end());
}

/// Taking a block and giving it back restores the list, hole for hole,
/// provided that no part of the hole it came from was too small to be kept. The
/// same request then finds the same hole again.
pub proof fn lemma_allocate_free_round_trip(s: Seq<Hole>, size: int, align: int)
    requires
        holes_wf(s),
        size >= MIN_SIZE,
        align > 0,
        first_fit(s, size, align) < s.len(),
        wasted(s[first_fit(s, size, align)], size, align) == 0,
    ensures
        ({
            let k = first_fit(s, size, align);
            let start = s[k].aligned_start(align);
            let after = carve(s, k, size, align);
            &&& releasable(after, start, size)
            &&& freed(after, start, size) == s
            &&& first_fit(freed(after, start, size), size, align) == k
            &&& carve(freed(after, start, size), k, size, align) == after
        }),
{
    lemma_first_fit_from(s, 0, size, align);
    let k = first_fit(s, size, align);
    let h = s[k];
    let start = h.aligned_start(align);
    let c = carve(s, k, size, align);
    let res = residuals(h, size, align);
    let r = res.len() as int;
    lemma_carve_index(s, k, size, align);
    lemma_carve_wf(s, k, size, align);
    lemma_carved_block_is_releasable(s, k, size, align);
    let keeps_front = h.front(align) >= MIN_SIZE;
    let keeps_back = h.back(size, align) >= MIN_SIZE;
    let p = if keeps_front { k + 1 } else { k };
    assert forall|j: int| 0 <= j < p implies (#[trigger] c[j]).addr <= start by {
        if j < k {
            assert(c[j] == s[j]);
            assert(s[j].end() < s[k].addr);
        } else {
            assert(c[j] == res[j - k]);
        }
    }
    if p < c.len() {
        if keeps_back {
            assert(c[p] == res[p - k]);
        } else {
            assert(c[p] == s[p - r + 1]);
            assert(s[k].end() < s[p - r + 1].addr);
        }
    }
    lemma_slot_is(c, start, p);
    lemma_freed_index(c, start, size);
    let f = freed(c, start, size);
    if p > 0 {
        if keeps_front {
            assert(c[p - 1] == res[p - 1 - k]);
        } else {
            assert(c[p - 1] == s[p - 1]);
            assert(s[p - 1].end() < s[k].addr);
        }
    }
    assert(f.len() == s.len());
    assert forall|i: int| 0 <= i < s.len() implies #[trigger] f[i] == s[i] by {
        if i < k {
            assert(f[i] == c[i]);
            assert(c[i] == s[i]);
        } else if i > k {
            assert(f[i] == c[i - 1 + r]);
            assert(c[i - 1 + r] == s[i]);
        } else {
            assert(f[k].addr == h.addr);
            assert(f[k].end() == h.end());
        }
    }
    assert(f =~= s);
}

/// A list without holes that is given `by` bytes at `top` has exactly one
/// hole, those bytes. A request is then served from it if and only if
/// the block fits behind the padding that its alignment asks for; it does
/// where `top` has the alignment and the block is no larger than `by`.
pub proof fn lemma_first_hole_serves(top: usize, by: usize, size: int, align: int)
    requires
        by >= MIN_SIZE,
        top + by <= usize::MAX,
        align > 0,
    ensures
        ({
            let hole = Hole { addr: top, size: by };
            let list = freed(Seq::<Hole>::empty(), top as int, by as int);
            &&& list == seq![hole]
            &&& first_fit(list, size, align) < list.len() <==> hole.fits(size, align)
            &&& (top as int) % align == 0 && size <= by ==> hole.fits(size, align)
                && hole.aligned_start(align) == top
        }),
{
    let hole = Hole { addr: top, size: by };
    let list = freed(Seq::<Hole>::empty(), top as int, by as int);
    assert(list =~= seq![hole]);
    assert(list[0] == hole);
    lemma_first_fit_from(list, 0, size, align);
    lemma_align_up_adds_padding(top as int, align);
}

} // verus!
