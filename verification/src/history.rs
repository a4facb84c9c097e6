//! Point-in-time lookup over a write history: an ordered sequence of
//! `(clnum, value)` observations, queried for the latest entry at or before
//! a given clnum.

use vstd::prelude::*;

verus! {

/// Clnums in a history never decrease (histories are appended in ingest
/// order).
pub open spec fn hist_nondecreasing<T>(h: Seq<(u32, T)>) -> bool {
    forall|i: int, j: int| 0 <= i <= j < h.len() ==> (#[trigger] h[i]).0 <= (#[trigger] h[j]).0
}

/// Clnums in a history strictly increase: at most one entry per clnum.
pub open spec fn hist_increasing<T>(h: Seq<(u32, T)>) -> bool {
    forall|i: int, j: int| 0 <= i < j < h.len() ==> (#[trigger] h[i]).0 < (#[trigger] h[j]).0
}

/// Index of the latest entry with clnum at most `c`, or -1 when there is
/// none.
pub open spec fn latest_le<T>(h: Seq<(u32, T)>, c: u32) -> int
    decreases h.len(),
{
    if h.len() == 0 {
        -1
    } else if h.last().0 <= c {
        h.len() - 1
    } else {
        latest_le(h.drop_last(), c)
    }
}

/// The value of the latest entry with clnum at most `c`.
pub open spec fn hist_lookup<T>(h: Seq<(u32, T)>, c: u32) -> Option<T> {
    if latest_le(h, c) == -1 {
        None
    } else {
        Some(h[latest_le(h, c)].1)
    }
}

/// `latest_le` indeed points at an entry with clnum at most `c`, and every
/// later entry has a larger clnum.
pub proof fn lemma_latest_le<T>(h: Seq<(u32, T)>, c: u32)
    ensures
        -1 <= latest_le(h, c) < h.len(),
        latest_le(h, c) >= 0 ==> h[latest_le(h, c)].0 <= c,
        forall|i: int| latest_le(h, c) < i < h.len() ==> (#[trigger] h[i]).0 > c,
    decreases h.len(),
{
    if h.len() > 0 && h.last().0 > c {
        lemma_latest_le(h.drop_last(), c);
        assert forall|i: int| latest_le(h, c) < i < h.len() implies (#[trigger] h[i]).0 > c by {
            if i < h.len() - 1 {
                assert(h.drop_last()[i] == h[i]);
            }
        }
    }
}

/// In a nondecreasing history, `latest_le` is the largest index whose clnum
/// is at most `c`: every entry with clnum at most `c` sits at or before it.
pub proof fn lemma_latest_le_is_largest<T>(h: Seq<(u32, T)>, c: u32)
    requires
        hist_nondecreasing(h),
    ensures
        forall|i: int| 0 <= i < h.len() && (#[trigger] h[i]).0 <= c ==> i <= latest_le(h, c),
{
    lemma_latest_le(h, c);
}

proof fn lemma_latest_le_at<T>(h: Seq<(u32, T)>, c: u32, k: int)
    requires
        0 <= k < h.len(),
        h[k].0 <= c,
        forall|i: int| k < i < h.len() ==> (#[trigger] h[i]).0 > c,
    ensures
        latest_le(h, c) == k,
    decreases h.len(),
{
    if k < h.len() - 1 {
        lemma_latest_le_at(h.drop_last(), c, k);
    }
}

proof fn lemma_latest_le_none<T>(h: Seq<(u32, T)>, c: u32)
    requires
        forall|i: int| 0 <= i < h.len() ==> (#[trigger] h[i]).0 > c,
    ensures
        latest_le(h, c) == -1,
    decreases h.len(),
{
    if h.len() > 0 {
        lemma_latest_le_none(h.drop_last(), c);
    }
}

/// Binary search for the value of the latest entry with clnum at most `c`.
pub fn lookup_le<T: Copy>(h: &Vec<(u32, T)>, c: u32) -> (r: Option<T>)
    requires
        hist_nondecreasing(h@),
    ensures
        r == hist_lookup(h@, c),
{
    let mut lo: usize = 0;
    let mut hi: usize = h.len();
    while lo < hi
        invariant
            lo <= hi <= h@.len(),
            forall|i: int| 0 <= i < lo ==> (#[trigger] h@[i]).0 <= c,
            forall|i: int| hi <= i < h@.len() ==> (#[trigger] h@[i]).0 > c,
            hist_nondecreasing(h@),
        decreases hi - lo,
    {
        let mid: usize = lo + (hi - lo) / 2;
        if h[mid].0 <= c {
            lo = mid + 1;
        } else {
            hi = mid;
        }
    }
    if lo == 0 {
        proof {
            lemma_latest_le_none(h@, c);
        }
        None
    } else {
        proof {
            lemma_latest_le_at(h@, c, lo - 1);
        }
        Some(h[lo - 1].1)
    }
}

/// Every clnum in a history stays at most `bound`.
pub open spec fn hist_bounded<T>(h: Seq<(u32, T)>, bound: u32) -> bool {
    forall|i: int| 0 <= i < h.len() ==> (#[trigger] h[i]).0 <= bound
}

} // verus!
