//! How the number of free bytes behaves when a list of holes is cut, joined
//! or changed in one place.

use vstd::prelude::*;
use crate::hole::{as_seq, total, Hole};

verus! {

/// The free bytes of two lists laid end to end are those of the one and those
/// of the other.
pub proof fn lemma_total_concat(a: Seq<Hole>, b: Seq<Hole>)
    ensures
        total(a + b) == total(a) + total(b),
    decreases b.len(),
{
    if b.len() == 0 {
        assert(a + b =~= a);
    } else {
        assert((a + b).drop_last() =~= a + b.drop_last());
        lemma_total_concat(a, b.drop_last());
    }
}

/// A list is what lies in front of hole `k`, that hole, and what lies behind it.
pub proof fn lemma_total_split(s: Seq<Hole>, k: int)
    requires
        0 <= k < s.len(),
    ensures
        total(s) == total(s.subrange(0, k)) + s[k].size + total(s.subrange(k + 1, s.len() as int)),
{
    let a = s.subrange(0, k);
    let m = seq![s[k]];
    let b = s.subrange(k + 1, s.len() as int);
    assert(s =~= a + m + b);
    lemma_total_concat(a + m, b);
    lemma_total_concat(a, m);
    assert(m.drop_last() =~= Seq::<Hole>::empty());
    assert(total(m) == s[k].size) by {
        reveal_with_fuel(total, 2);
    }
}

/// The free bytes that an optional hole stands for.
pub proof fn lemma_total_as_seq(o: Option<Hole>)
    ensures
        total(as_seq(o)) == match o {
            Some(h) => h.size as int,
            None => 0,
        },
{
    reveal_with_fuel(total, 2);
    match o {
        Some(h) => {
            assert(seq![h].drop_last() =~= Seq::<Hole>::empty());
        },
        None => {},
    }
}

/// A hole added at the end adds its bytes.
pub proof fn lemma_total_push(s: Seq<Hole>, h: Hole)
    ensures
        total(s.push(h)) == total(s) + h.size,
{
    assert(s.push(h).drop_last() =~= s);
}

/// A hole taken out takes its bytes with it.
pub proof fn lemma_total_remove(s: Seq<Hole>, k: int)
    requires
        0 <= k < s.len(),
    ensures
        total(s.remove(k)) == total(s) - s[k].size,
{
    let a = s.subrange(0, k);
    let b = s.subrange(k + 1, s.len() as int);
    assert(s.remove(k) =~= a + b);
    lemma_total_concat(a, b);
    lemma_total_split(s, k);
}

/// The free bytes of a list, cut at two places.
pub proof fn lemma_total_cut(s: Seq<Hole>, lo: int, hi: int)
    requires
        0 <= lo <= hi <= s.len(),
    ensures
        total(s) == total(s.subrange(0, lo)) + total(s.subrange(lo, hi)) + total(
            s.subrange(hi, s.len() as int),
        ),
{
    let a = s.subrange(0, lo);
    let mid = s.subrange(lo, hi);
    let b = s.subrange(hi, s.len() as int);
    assert(s =~= a + mid + b);
    lemma_total_concat(a + mid, b);
    lemma_total_concat(a, mid);
}

/// The free bytes of a list with one hole set between two parts.
pub proof fn lemma_total_around(a: Seq<Hole>, m: Hole, b: Seq<Hole>)
    ensures
        total(a.push(m) + b) == total(a) + m.size + total(b),
{
    assert(a.push(m) =~= a + seq![m]);
    lemma_total_concat(a + seq![m], b);
    lemma_total_concat(a, seq![m]);
    lemma_total_as_seq(Some(m));
}

/// The free bytes of at most two neighbouring holes.
pub proof fn lemma_total_short(s: Seq<Hole>, lo: int, hi: int)
    requires
        0 <= lo <= hi <= s.len(),
        hi - lo <= 2,
    ensures
        total(s.subrange(lo, hi)) == (if hi - lo == 0 {
            0
        } else if hi - lo == 1 {
            s[lo].size as int
        } else {
            s[lo].size + s[lo + 1].size
        }),
{
    let mid = s.subrange(lo, hi);
    if hi - lo == 1 {
        assert(mid =~= as_seq(Some(s[lo])));
        lemma_total_as_seq(Some(s[lo]));
    } else if hi - lo == 2 {
        assert(mid =~= seq![s[lo]] + seq![s[lo + 1]]);
        lemma_total_concat(seq![s[lo]], seq![s[lo + 1]]);
        lemma_total_as_seq(Some(s[lo]));
        lemma_total_as_seq(Some(s[lo + 1]));
    }
}

} // verus!
