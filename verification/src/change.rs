//! The change record: one observable effect of the traced program at a
//! single logical time, and the flag bits that classify it.

use vstd::prelude::*;

use crate::history::{hist_increasing, hist_nondecreasing, hist_bounded};

verus! {

/// A 64-bit guest address.
pub type Address = u64;

/// A clnum: the logical clock, one tick per executed instruction.
pub type Clnum = u32;

/// A 64-bit payload word.
pub type Data = u64;

/// Marks a well-formed change record.
pub const IS_VALID: u32 = 0x8000_0000;

/// The change writes (a register, or memory when combined with `IS_MEM`).
pub const IS_WRITE: u32 = 0x4000_0000;

/// The change touches memory; without `IS_WRITE` it records a read.
pub const IS_MEM: u32 = 0x2000_0000;

/// The change marks the start of an instruction; `address` is its program
/// counter.
pub const IS_START: u32 = 0x1000_0000;

/// The instruction at this clnum performed a system call.
pub const IS_SYSCALL: u32 = 0x0800_0000;

/// Low byte of the flags: access width in bits.
pub const SIZE_MASK: u32 = 0x0000_00FF;

/// One record of the change log: a single observable effect (instruction
/// start, register write, memory write, or memory read) at logical time
/// `clnum`.
#[derive(Clone, Copy, Debug, PartialEq, Eq, Structural)]
pub struct Change {
    pub address: u64,
    pub data: u64,
    pub clnum: u32,
    pub flags: u32,
}

/// The flags mark an instruction start.
pub open spec fn spec_is_start(flags: u32) -> bool {
    flags & IS_START != 0
}

/// The flags mark a memory write: `size_bytes(flags)` bytes of `data` go to
/// memory starting at `address`, little-endian.
pub open spec fn spec_is_mem_write(flags: u32) -> bool {
    flags & IS_MEM != 0 && flags & IS_WRITE != 0
}

/// The flags mark a register write: `address / 8` is the register index and
/// `data` the new value.
pub open spec fn spec_is_reg_write(flags: u32) -> bool {
    flags & IS_MEM == 0 && flags & IS_WRITE != 0
}

/// The flags mark an informational memory read.
pub open spec fn spec_is_mem_read(flags: u32) -> bool {
    flags & IS_MEM != 0 && flags & IS_WRITE == 0
}

/// Access width of a memory write, in bytes (the low flag byte holds bits).
pub open spec fn spec_size_bytes(flags: u32) -> u64 {
    ((flags & SIZE_MASK) / 8) as u64
}

#[verifier::when_used_as_spec(spec_is_start)]
pub fn is_start(flags: u32) -> (r: bool)
    ensures
        r == spec_is_start(flags),
{
    flags & IS_START != 0
}

#[verifier::when_used_as_spec(spec_is_mem_write)]
pub fn is_mem_write(flags: u32) -> (r: bool)
    ensures
        r == spec_is_mem_write(flags),
{
    flags & IS_MEM != 0 && flags & IS_WRITE != 0
}

#[verifier::when_used_as_spec(spec_is_reg_write)]
pub fn is_reg_write(flags: u32) -> (r: bool)
    ensures
        r == spec_is_reg_write(flags),
{
    flags & IS_MEM == 0 && flags & IS_WRITE != 0
}

#[verifier::when_used_as_spec(spec_is_mem_read)]
pub fn is_mem_read(flags: u32) -> (r: bool)
    ensures
        r == spec_is_mem_read(flags),
{
    flags & IS_MEM != 0 && flags & IS_WRITE == 0
}

#[verifier::when_used_as_spec(spec_size_bytes)]
pub fn size_bytes(flags: u32) -> (r: u64)
    ensures
        r == spec_size_bytes(flags),
{
    ((flags & SIZE_MASK) / 8) as u64
}

/// `data` shifted right by `k` whole bytes; zero once every byte is gone.
pub open spec fn shifted_data(data: u64, k: nat) -> u64
    decreases k,
{
    if k == 0 {
        data
    } else {
        shifted_data(data, (k - 1) as nat) / 256
    }
}

/// The `k`-th little-endian payload byte of a memory-write change.
pub open spec fn write_byte(data: u64, k: nat) -> u8 {
    (shifted_data(data, k) % 256) as u8
}

/// The memory-write change `ch` writes a byte at address `a`.
pub open spec fn covers(ch: Change, a: u64) -> bool {
    &&& spec_is_mem_write(ch.flags)
    &&& ch.address <= a
    &&& a - ch.address < spec_size_bytes(ch.flags)
}

/// The byte that change `ch` writes at address `a` (meaningful when
/// `covers(ch, a)`).
pub open spec fn byte_written_at(ch: Change, a: u64) -> u8 {
    write_byte(ch.data, (a - ch.address) as nat)
}

/// Clnums of a change log never decrease: the log is in ingest order.
pub open spec fn log_nondecreasing(log: Seq<Change>) -> bool {
    forall|i: int, j: int|
        0 <= i <= j < log.len() ==> #[trigger] log[i].clnum <= #[trigger] log[j].clnum
}

/// The per-byte write history that a change log induces at address `a`:
/// one `(clnum, byte)` entry per clnum carrying a memory write covering
/// `a`, in log order; a later covering write at the same clnum replaces
/// the entry (the last write wins), so clnums strictly increase.
pub open spec fn cell_writes(log: Seq<Change>, a: u64) -> Seq<(u32, u8)>
    decreases log.len(),
{
    if log.len() == 0 {
        Seq::empty()
    } else {
        let pre = cell_writes(log.drop_last(), a);
        let ch = log.last();
        if covers(ch, a) {
            if pre.len() > 0 && pre.last().0 == ch.clnum {
                pre.drop_last().push((ch.clnum, byte_written_at(ch, a)))
            } else {
                pre.push((ch.clnum, byte_written_at(ch, a)))
            }
        } else {
            pre
        }
    }
}

/// The flag word of an ingested instruction start marks a start and
/// nothing else.
pub proof fn lemma_start_flags()
    ensures
        spec_is_start(IS_VALID | IS_START),
        !spec_is_mem_write(IS_VALID | IS_START),
        !spec_is_reg_write(IS_VALID | IS_START),
        !spec_is_mem_read(IS_VALID | IS_START),
{
    assert((0x8000_0000u32 | 0x1000_0000u32) & 0x1000_0000u32 != 0) by (bit_vector);
    assert((0x8000_0000u32 | 0x1000_0000u32) & 0x2000_0000u32 == 0) by (bit_vector);
    assert((0x8000_0000u32 | 0x1000_0000u32) & 0x4000_0000u32 == 0) by (bit_vector);
}

/// Dropping the last change keeps the log in ingest order.
pub proof fn lemma_log_nondecreasing_drop_last(log: Seq<Change>)
    requires
        log.len() > 0,
        log_nondecreasing(log),
    ensures
        log_nondecreasing(log.drop_last()),
{
    assert forall|i: int, j: int| 0 <= i <= j < log.drop_last().len() implies (
    #[trigger] log.drop_last()[i]).clnum <= (#[trigger] log.drop_last()[j]).clnum by {
        assert(log.drop_last()[i] == log[i]);
        assert(log.drop_last()[j] == log[j]);
    }
}

/// The per-byte history a log in ingest order induces is strictly
/// increasing in clnum (one entry per clnum), and its clnums stay at most
/// the log's last clnum.
pub proof fn lemma_cell_writes_sorted(log: Seq<Change>, a: u64)
    requires
        log_nondecreasing(log),
    ensures
        hist_increasing(cell_writes(log, a)),
        hist_nondecreasing(cell_writes(log, a)),
        log.len() > 0 ==> hist_bounded(cell_writes(log, a), log.last().clnum),
        log.len() == 0 ==> cell_writes(log, a) == Seq::<(u32, u8)>::empty(),
    decreases log.len(),
{
    if log.len() > 0 {
        lemma_log_nondecreasing_drop_last(log);
        lemma_cell_writes_sorted(log.drop_last(), a);
        if log.len() > 1 {
            assert(log.drop_last().last() == log[log.len() - 2]);
            assert(log.drop_last().last().clnum <= log.last().clnum);
        }
        let pre = cell_writes(log.drop_last(), a);
        let ch = log.last();
        let cur = cell_writes(log, a);
        if covers(ch, a) {
            assert(hist_bounded(pre, ch.clnum)) by {
                if log.len() > 1 {
                    assert forall|k: int| 0 <= k < pre.len() implies (#[trigger] pre[k]).0
                        <= ch.clnum by {
                        assert(pre[k].0 <= log.drop_last().last().clnum);
                    }
                }
            }
            if pre.len() > 0 && pre.last().0 == ch.clnum {
                assert(cur == pre.drop_last().push((ch.clnum, byte_written_at(ch, a))));
                assert forall|i: int, j: int| 0 <= i < j < cur.len() implies (
                #[trigger] cur[i]).0 < (#[trigger] cur[j]).0 by {
                    if j < cur.len() - 1 {
                        assert(cur[i] == pre[i] && cur[j] == pre[j]);
                        assert(pre[i].0 < pre[j].0);
                    } else {
                        assert(cur[i] == pre[i]);
                        assert(pre[i].0 < pre.last().0);
                    }
                }
            } else {
                assert(cur == pre.push((ch.clnum, byte_written_at(ch, a))));
                assert forall|i: int, j: int| 0 <= i < j < cur.len() implies (
                #[trigger] cur[i]).0 < (#[trigger] cur[j]).0 by {
                    if j < cur.len() - 1 {
                        assert(pre[i].0 < pre[j].0);
                    } else {
                        assert(cur[i] == pre[i]);
                        assert(pre[i].0 <= pre.last().0);
                        assert(pre.last().0 != ch.clnum);
                        assert(pre.last().0 <= ch.clnum);
                    }
                }
            }
        }
        assert forall|i: int, j: int| 0 <= i <= j < cur.len() implies (#[trigger] cur[i]).0 <= (
        #[trigger] cur[j]).0 by {
            if i < j {
                assert(cur[i].0 < cur[j].0);
            }
        }
    }
}

/// A clnum occurs in the per-byte history at `a` exactly when some memory
/// write covering `a` carries it.
pub proof fn lemma_cell_writes_membership(log: Seq<Change>, a: u64, c: u32)
    ensures
        (exists|k: int|
            0 <= k < cell_writes(log, a).len() && (#[trigger] cell_writes(log, a)[k]).0 == c)
            <==> (exists|i: int|
            0 <= i < log.len() && covers(#[trigger] log[i], a) && log[i].clnum == c),
    decreases log.len(),
{
    if log.len() > 0 {
        lemma_cell_writes_membership(log.drop_last(), a, c);
        let pre = cell_writes(log.drop_last(), a);
        let cur = cell_writes(log, a);
        let replaced = covers(log.last(), a) && pre.len() > 0 && pre.last().0
            == log.last().clnum;
        if exists|k: int| 0 <= k < cur.len() && (#[trigger] cur[k]).0 == c {
            let k = choose|k: int| 0 <= k < cur.len() && (#[trigger] cur[k]).0 == c;
            if covers(log.last(), a) && k == cur.len() - 1 {
                assert(log[log.len() - 1].clnum == c);
            } else {
                assert(pre[k].0 == c);
                let i = choose|i: int|
                    0 <= i < log.drop_last().len() && covers(#[trigger] log.drop_last()[i], a)
                        && log.drop_last()[i].clnum == c;
                assert(log[i] == log.drop_last()[i]);
            }
        }
        if exists|i: int| 0 <= i < log.len() && covers(#[trigger] log[i], a) && log[i].clnum == c {
            let i = choose|i: int|
                0 <= i < log.len() && covers(#[trigger] log[i], a) && log[i].clnum == c;
            if i == log.len() - 1 {
                assert(cur[cur.len() - 1].0 == c);
            } else {
                assert(log.drop_last()[i] == log[i]);
                let k = choose|k: int| 0 <= k < pre.len() && (#[trigger] pre[k]).0 == c;
                if replaced && k == pre.len() - 1 {
                    assert(cur[cur.len() - 1].0 == log.last().clnum);
                    assert(pre.last().0 == c);
                } else {
                    assert(cur[k].0 == c);
                }
            }
        }
    }
}

/// Number of instruction-start records in a change log.
pub open spec fn start_count(log: Seq<Change>) -> nat
    decreases log.len(),
{
    if log.len() == 0 {
        0
    } else {
        start_count(log.drop_last()) + if spec_is_start(log.last().flags) {
            1nat
        } else {
            0nat
        }
    }
}

} // verus!
