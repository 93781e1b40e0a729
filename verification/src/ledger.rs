//! The books of a heap over any run of requests: which bytes are free, which
//! are handed out and which were given up, and that together they are always
//! the region.

use vstd::prelude::*;
use crate::carve::{
    lemma_carve_index, lemma_carve_total, lemma_carve_wf, lemma_carve_within,
    lemma_carved_block_is_releasable, lemma_first_fit_from,
};
use crate::coalesce::{
    lemma_freed_index, lemma_freed_total, lemma_freed_wf, lemma_freed_within,
    lemma_slot_separates,
};
use crate::hole::{
    carve, first_fit, freed, holes_wf, releasable, residuals, slot, total, wasted, within, Hole,
    MIN_SIZE,
};
use crate::total::{lemma_total_push, lemma_total_remove};

verus! {

/// The state of a heap as its users see it: the holes, the blocks that are
/// handed out, in the order in which they were, and the number of bytes that
/// were given up because they were too few to be kept as a hole.
pub struct Ledger {
    pub holes: Seq<Hole>,
    pub live: Seq<Hole>,
    pub lost: int,
}

/// A request to the heap: for a block of a size and an alignment, or to give
/// back the block that stands at place `which` among those handed out.
pub enum Request {
    Allocate { size: int, align: int },
    Release { which: int },
}

/// Whether two blocks share no byte.
pub open spec fn disjoint(a: Hole, b: Hole) -> bool {
    a.end() <= b.addr || b.end() <= a.addr
}

/// The ledger of a heap that was just set up over `size` bytes at `bottom`.
pub open spec fn fresh(bottom: usize, size: usize) -> Ledger {
    Ledger { holes: seq![Hole { addr: bottom, size }], live: Seq::empty(), lost: 0 }
}

/// The ledger after one request. A request that the heap does not serve (for
/// a block that fits in no hole, or to give back a block that is not handed
/// out) leaves it as it is.
pub open spec fn apply(l: Ledger, r: Request) -> Ledger {
    match r {
        Request::Allocate { size, align } => {
            let k = first_fit(l.holes, size, align);
            if size >= MIN_SIZE && align > 0 && k < l.holes.len() {
                Ledger {
                    holes: carve(l.holes, k, size, align),
                    live: l.live.push(
                        Hole {
                            addr: l.holes[k].aligned_start(align) as usize,
                            size: size as usize,
                        },
                    ),
                    lost: l.lost + wasted(l.holes[k], size, align),
                }
            } else {
                l
            }
        },
        Request::Release { which } => {
            if 0 <= which < l.live.len() {
                Ledger {
                    holes: freed(l.holes, l.live[which].addr as int, l.live[which].size as int),
                    live: l.live.remove(which),
                    lost: l.lost,
                }
            } else {
                l
            }
        },
    }
}

/// The ledger after a run of requests, served one after the other.
pub open spec fn replay(l: Ledger, rs: Seq<Request>) -> Ledger
    decreases rs.len(),
{
    if rs.len() == 0 {
        l
    } else {
        apply(replay(l, rs.drop_last()), rs.last())
    }
}

/// Whether the books of a heap over the `size` bytes at `bottom` balance: the
/// holes form a well-formed list within the region; every block that is
/// handed out lies within the region, shares no byte with a hole or with
/// another such block, and can be given back; and the free bytes, the bytes
/// handed out and the bytes given up are together the region.
pub open spec fn balanced(l: Ledger, bottom: int, size: int) -> bool {
    &&& holes_wf(l.holes)
    &&& within(l.holes, bottom, bottom + size)
    &&& forall|i: int|
        0 <= i < l.live.len() ==> bottom <= (#[trigger] l.live[i]).addr && l.live[i].end() <= bottom
            + size && releasable(l.holes, l.live[i].addr as int, l.live[i].size as int)
    &&& forall|i: int, j: int|
        0 <= i < j < l.live.len() ==> disjoint(#[trigger] l.live[i], #[trigger] l.live[j])
    &&& l.lost >= 0
    &&& total(l.holes) + total(l.live) + l.lost == size
}

/// Serving a request for a block keeps the books balanced.
proof fn lemma_allocate_keeps_balance(l: Ledger, size: int, align: int, bottom: int, total_size: int)
    requires
        balanced(l, bottom, total_size),
        bottom + total_size <= usize::MAX,
    ensures
        balanced(apply(l, Request::Allocate { size, align }), bottom, total_size),
{
    let s = l.holes;
    let k = first_fit(s, size, align);
    lemma_first_fit_from(s, 0, size, align);
    if size >= MIN_SIZE && align > 0 && k < s.len() {
        let after = apply(l, Request::Allocate { size, align });
        let c = after.holes;
        let h = s[k];
        let start = h.aligned_start(align);
        let block = Hole { addr: start as usize, size: size as usize };
        let res = residuals(h, size, align);
        let r = res.len() as int;
        lemma_carve_index(s, k, size, align);
        lemma_carve_wf(s, k, size, align);
        lemma_carve_within(s, k, size, align, bottom, bottom + total_size);
        lemma_carve_total(s, k, size, align);
        lemma_carved_block_is_releasable(s, k, size, align);
        lemma_total_push(l.live, block);
        assert(block.addr == start && block.size == size);
        assert forall|i: int| 0 <= i < after.live.len() implies bottom <= (
        #[trigger] after.live[i]).addr && after.live[i].end() <= bottom + total_size && releasable(
            c,
            after.live[i].addr as int,
            after.live[i].size as int,
        ) by {
            if i < l.live.len() {
                let b = l.live[i];
                assert(after.live[i] == b);
                assert(b.end() <= h.addr || h.end() <= b.addr);
                assert forall|m: int| 0 <= m < c.len() implies (#[trigger] c[m]).end() <= b.addr
                    || b.end() <= c[m].addr by {
                    if m < k {
                        assert(c[m] == s[m]);
                    } else if m < k + r {
                        assert(c[m] == res[m - k]);
                    } else {
                        assert(c[m] == s[m - r + 1]);
                    }
                }
            } else {
                assert(after.live[i] == block);
            }
        }
        assert forall|i: int, j: int| 0 <= i < j < after.live.len() implies disjoint(
            #[trigger] after.live[i],
            #[trigger] after.live[j],
        ) by {
            if j == l.live.len() {
                let b = l.live[i];
                assert(after.live[i] == b);
                assert(after.live[j] == block);
                assert(b.end() <= h.addr || h.end() <= b.addr);
            } else {
                assert(after.live[i] == l.live[i]);
                assert(after.live[j] == l.live[j]);
            }
        }
    }
}

/// Giving a block back keeps the books balanced.
proof fn lemma_release_keeps_balance(l: Ledger, which: int, bottom: int, total_size: int)
    requires
        balanced(l, bottom, total_size),
        bottom + total_size <= usize::MAX,
    ensures
        balanced(apply(l, Request::Release { which }), bottom, total_size),
{
    if 0 <= which < l.live.len() {
        let s = l.holes;
        let after = apply(l, Request::Release { which });
        let f = after.holes;
        let gone = l.live[which];
        let addr = gone.addr as int;
        let size = gone.size as int;
        lemma_slot_separates(s, addr, size);
        lemma_freed_index(s, addr, size);
        lemma_freed_wf(s, addr, size);
        lemma_freed_within(s, addr, size, bottom, bottom + total_size);
        lemma_freed_total(s, addr, size);
        lemma_total_remove(l.live, which);
        let k = slot(s, addr);
        let joins_prev = k > 0 && s[k - 1].end() == addr;
        let joins_next = k < s.len() && s[k].addr == addr + size;
        let lo = if joins_prev { k - 1 } else { k };
        let hi = if joins_next { k + 1 } else { k };
        assert forall|i: int| 0 <= i < after.live.len() implies bottom <= (
        #[trigger] after.live[i]).addr && after.live[i].end() <= bottom + total_size && releasable(
            f,
            after.live[i].addr as int,
            after.live[i].size as int,
        ) by {
            let src = if i < which { i } else { i + 1 };
            let b = l.live[src];
            assert(after.live[i] == b);
            assert(disjoint(b, gone)) by {
                if src < which {
                    assert(disjoint(l.live[src], l.live[which]));
                } else {
                    assert(disjoint(l.live[which], l.live[src]));
                }
            }
            assert(releasable(s, b.addr as int, b.size as int));
            assert forall|m: int| 0 <= m < f.len() implies (#[trigger] f[m]).end() <= b.addr
                || b.end() <= f[m].addr by {
                if m < lo {
                    assert(f[m] == s[m]);
                } else if m > lo {
                    assert(f[m] == s[m - 1 + (hi - lo)]);
                } else {
                    if joins_prev {
                        assert(s[k - 1].end() <= b.addr || b.end() <= s[k - 1].addr);
                    }
                    if joins_next {
                        assert(s[k].end() <= b.addr || b.end() <= s[k].addr);
                    }
                }
            }
        }
        assert forall|i: int, j: int| 0 <= i < j < after.live.len() implies disjoint(
            #[trigger] after.live[i],
            #[trigger] after.live[j],
        ) by {
            let si = if i < which { i } else { i + 1 };
            let sj = if j < which { j } else { j + 1 };
            assert(after.live[i] == l.live[si]);
            assert(after.live[j] == l.live[sj]);
            assert(disjoint(l.live[si], l.live[sj]));
        }
    }
}

/// Whatever the request, serving it keeps the books balanced.
pub proof fn lemma_apply_keeps_balance(l: Ledger, r: Request, bottom: int, size: int)
    requires
        balanced(l, bottom, size),
        bottom + size <= usize::MAX,
    ensures
        balanced(apply(l, r), bottom, size),
{
    match r {
        Request::Allocate { size: n, align } => {
            lemma_allocate_keeps_balance(l, n, align, bottom, size);
        },
        Request::Release { which } => {
            lemma_release_keeps_balance(l, which, bottom, size);
        },
    }
}

/// Whatever the run of requests, serving it keeps the books balanced.
pub proof fn lemma_replay_keeps_balance(l: Ledger, rs: Seq<Request>, bottom: int, size: int)
    requires
        balanced(l, bottom, size),
        bottom + size <= usize::MAX,
    ensures
        balanced(replay(l, rs), bottom, size),
    decreases rs.len(),
{
    if rs.len() > 0 {
        lemma_replay_keeps_balance(l, rs.drop_last(), bottom, size);
        lemma_apply_keeps_balance(replay(l, rs.drop_last()), rs.last(), bottom, size);
    }
}

/// After any run of requests to a heap that was set up over `size` bytes at
/// `bottom`, no two holes overlap or touch, no hole overlaps a block that is
/// handed out, and the free bytes, the bytes handed out and the bytes given up
/// are together `size`. Where no bytes were given up, the free bytes and the
/// bytes handed out alone are the region: no memory is made or lost.
pub proof fn lemma_no_memory_is_lost(bottom: usize, size: usize, rs: Seq<Request>)
    requires
        size >= MIN_SIZE,
        bottom + size <= usize::MAX,
    ensures
        balanced(replay(fresh(bottom, size), rs), bottom as int, size as int),
        holes_wf(replay(fresh(bottom, size), rs).holes),
        replay(fresh(bottom, size), rs).lost == 0 ==> total(replay(fresh(bottom, size), rs).holes)
            + total(replay(fresh(bottom, size), rs).live) == size,
{
    let l = fresh(bottom, size);
    assert(total(l.holes) == size) by {
        lemma_total_push(Seq::<Hole>::empty(), Hole { addr: bottom, size });
        assert(l.holes =~= Seq::<Hole>::empty().push(Hole { addr: bottom, size }));
    }
    assert(total(l.live) == 0);
    lemma_replay_keeps_balance(l, rs, bottom as int, size as int);
}

} // verus!
