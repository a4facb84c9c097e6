//! The reconstruction laws: point-in-time queries agree with the change
//! log they were built from.

use vstd::prelude::*;

use crate::change::{cell_writes, covers, lemma_cell_writes_membership, lemma_cell_writes_sorted};
use crate::db::TraceDB;
use crate::history::{
    hist_lookup, hist_nondecreasing, latest_le, lemma_latest_le, lemma_latest_le_is_largest,
};
use crate::memory::hist_clnums;

verus! {

/// The byte `memory_at` reconstructs at `(a, c)` is the byte of the
/// latest memory write covering `a` with clnum at most `c`; with no such
/// write it is the static initializer, and failing that zero.
pub proof fn lemma_memory_at_is_latest_write(db: TraceDB, a: u64, c: u32)
    requires
        db.inv(),
    ensures
        ({
            let writes = cell_writes(db.changes@, a);
            let idx = latest_le(writes, c);
            &&& -1 <= idx < writes.len()
            &&& idx >= 0 ==> {
                &&& db.spec_mem_byte_at(a, c) == writes[idx].1
                &&& writes[idx].0 <= c
                &&& forall|k: int| idx < k < writes.len() ==> (#[trigger] writes[k]).0 > c
                &&& forall|k: int| 0 <= k < writes.len() && (#[trigger] writes[k]).0 <= c ==> k
                    <= idx
            }
            &&& idx == -1 ==> {
                &&& forall|k: int| 0 <= k < writes.len() ==> (#[trigger] writes[k]).0 > c
                &&& db.spec_mem_byte_at(a, c) == (match db.memory.static_of(a) {
                    Some(b) => b,
                    None => 0u8,
                })
            }
        }),
{
    lemma_cell_writes_sorted(db.changes@, a);
    assert(db.memory.hist(a) == cell_writes(db.changes@, a));
    lemma_latest_le(cell_writes(db.changes@, a), c);
    lemma_latest_le_is_largest(cell_writes(db.changes@, a), c);
}

/// The value `registers_at` reconstructs for register `r` at clnum `c` is
/// the value of the latest write to `r` with clnum at most `c`, else zero.
pub proof fn lemma_register_at_is_latest_write(db: TraceDB, r: int, c: u32)
    requires
        db.inv(),
        0 <= r < db.reg_count(),
    ensures
        ({
            let h = db.reg_hist(r);
            let idx = latest_le(h, c);
            &&& -1 <= idx < h.len()
            &&& idx >= 0 ==> {
                &&& db.spec_reg_at(r, c) == h[idx].1
                &&& h[idx].0 <= c
                &&& forall|k: int| idx < k < h.len() ==> (#[trigger] h[k]).0 > c
                &&& forall|k: int| 0 <= k < h.len() && (#[trigger] h[k]).0 <= c ==> k <= idx
            }
            &&& idx == -1 ==> db.spec_reg_at(r, c) == 0 && forall|k: int|
                0 <= k < h.len() ==> (#[trigger] h[k]).0 > c
        }),
{
    lemma_latest_le(db.reg_hist(r), c);
    lemma_latest_le_is_largest(db.reg_hist(r), c);
}

/// The memory-writes index at `a` is the sorted set of covering write
/// clnums: strictly increasing, and holding the clnum `c` exactly when
/// some memory write covering byte `a` carries it.
pub proof fn lemma_memory_write_clnums(db: TraceDB, a: u64, c: u32)
    requires
        db.inv(),
    ensures
        ({
            let ws = hist_clnums(cell_writes(db.changes@, a));
            &&& forall|i: int, j: int| 0 <= i < j < ws.len() ==> (#[trigger] ws[i]) < (
            #[trigger] ws[j])
            &&& (exists|k: int| 0 <= k < ws.len() && (#[trigger] ws[k]) == c) <==> (exists|i: int|
                0 <= i < db.changes@.len() && covers(#[trigger] db.changes@[i], a)
                    && db.changes@[i].clnum == c)
        }),
{
    lemma_cell_writes_sorted(db.changes@, a);
    let cw = cell_writes(db.changes@, a);
    let ws = hist_clnums(cw);
    assert forall|i: int, j: int| 0 <= i < j < ws.len() implies (#[trigger] ws[i]) < (
    #[trigger] ws[j]) by {
        assert(ws[i] == cw[i].0);
        assert(ws[j] == cw[j].0);
    }
    lemma_cell_writes_membership(db.changes@, a, c);
    if exists|k: int| 0 <= k < ws.len() && (#[trigger] ws[k]) == c {
        let k = choose|k: int| 0 <= k < ws.len() && (#[trigger] ws[k]) == c;
        assert(cw[k].0 == c);
    }
    if exists|k: int| 0 <= k < cw.len() && (#[trigger] cw[k]).0 == c {
        let k = choose|k: int| 0 <= k < cw.len() && (#[trigger] cw[k]).0 == c;
        assert(ws[k] == c);
    }
}

} // verus!
