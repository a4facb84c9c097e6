//! The trace view: a window of executed instructions starting at a given
//! clnum, each with its disassembly and first register and memory effects.

use vstd::prelude::*;

use crate::change::{
    is_mem_read, is_mem_write, is_reg_write, is_start, spec_is_mem_read, spec_is_mem_write,
    spec_is_reg_write, spec_is_start, Change,
};
use crate::db::TraceDB;
use crate::protocol::TraceEntry;
use crate::textutil::{all_zero, is_all_zero};
use crate::addr::{spec_unbias, unbias};

use vstd::slice::slice_to_vec;

verus! {

/// The first instruction-start change carrying exactly clnum `c`, in log
/// order.
pub open spec fn first_start_at(log: Seq<Change>, c: u32) -> Option<Change>
    decreases log.len(),
{
    if log.len() == 0 {
        None
    } else if spec_is_start(log[0].flags) && log[0].clnum == c {
        Some(log[0])
    } else {
        first_start_at(log.drop_first(), c)
    }
}

/// The first register write at clnum `c`: the register index
/// (`address / 8`) and the value written.
pub open spec fn first_reg_write_at(log: Seq<Change>, c: u32) -> Option<(u64, u64)>
    decreases log.len(),
{
    if log.len() == 0 {
        None
    } else if spec_is_reg_write(log[0].flags) && !spec_is_start(log[0].flags) && log[0].clnum
        == c {
        Some((log[0].address / 8, log[0].data))
    } else {
        first_reg_write_at(log.drop_first(), c)
    }
}

/// The first memory access at clnum `c`: address, payload, and whether it
/// was a write.
pub open spec fn first_mem_access_at(log: Seq<Change>, c: u32) -> Option<(u64, u64, bool)>
    decreases log.len(),
{
    if log.len() == 0 {
        None
    } else if (spec_is_mem_write(log[0].flags) || spec_is_mem_read(log[0].flags)) && log[0].clnum
        == c {
        Some((log[0].address, log[0].data, spec_is_mem_write(log[0].flags)))
    } else {
        first_mem_access_at(log.drop_first(), c)
    }
}

fn first_start_at_exec(log: &[Change], c: u32) -> (r: Option<Change>)
    ensures
        r == first_start_at(log@, c),
{
    let n = log.len();
    proof {
        assert(log@.skip(0) =~= log@);
    }
    let mut i: usize = 0;
    while i < n
        invariant
            n == log@.len(),
            i <= n,
            first_start_at(log@, c) == first_start_at(log@.skip(i as int), c),
        decreases n - i,
    {
        let ch = log[i];
        proof {
            assert(log@.skip(i as int)[0] == ch);
            assert(log@.skip(i as int).drop_first() =~= log@.skip(i as int + 1));
        }
        if is_start(ch.flags) && ch.clnum == c {
            return Some(ch);
        }
        i = i + 1;
    }
    None
}

fn first_reg_write_at_exec(log: &[Change], c: u32) -> (r: Option<(u64, u64)>)
    ensures
        r == first_reg_write_at(log@, c),
{
    let n = log.len();
    proof {
        assert(log@.skip(0) =~= log@);
    }
    let mut i: usize = 0;
    while i < n
        invariant
            n == log@.len(),
            i <= n,
            first_reg_write_at(log@, c) == first_reg_write_at(log@.skip(i as int), c),
        decreases n - i,
    {
        let ch = log[i];
        proof {
            assert(log@.skip(i as int)[0] == ch);
            assert(log@.skip(i as int).drop_first() =~= log@.skip(i as int + 1));
        }
        if is_reg_write(ch.flags) && !is_start(ch.flags) && ch.clnum == c {
            return Some((ch.address / 8, ch.data));
        }
        i = i + 1;
    }
    None
}

fn first_mem_access_at_exec(log: &[Change], c: u32) -> (r: Option<(u64, u64, bool)>)
    ensures
        r == first_mem_access_at(log@, c),
{
    let n = log.len();
    proof {
        assert(log@.skip(0) =~= log@);
    }
    let mut i: usize = 0;
    while i < n
        invariant
            n == log@.len(),
            i <= n,
            first_mem_access_at(log@, c) == first_mem_access_at(log@.skip(i as int), c),
        decreases n - i,
    {
        let ch = log[i];
        proof {
            assert(log@.skip(i as int)[0] == ch);
            assert(log@.skip(i as int).drop_first() =~= log@.skip(i as int + 1));
        }
        if (is_mem_write(ch.flags) || is_mem_read(ch.flags)) && ch.clnum == c {
            return Some((ch.address, ch.data, is_mem_write(ch.flags)));
        }
        i = i + 1;
    }
    None
}

/// Clnum `c` produces a trace row: some instruction started at `c`, and it
/// passes the user-code filter when that is requested.
pub open spec fn trace_eligible(db: TraceDB, only_user_code: bool, c: u32) -> bool {
    match first_start_at(db.changes@, c) {
        Some(ch) => !only_user_code || db.spec_is_user_code(ch.address),
        None => false,
    }
}

/// The clnums of the rows a trace-log scan returns, starting at `c`:
/// eligible clnums are taken until `count` rows are collected or the log's
/// maximum is passed; a scan that has collected nothing gives up past the
/// scan limit `lim`.
pub open spec fn spec_trace_clnums(
    db: TraceDB,
    only_user_code: bool,
    count: nat,
    c: int,
    max: int,
    lim: int,
    collected_any: bool,
) -> Seq<u32>
    decreases max + 1 - c,
{
    if count == 0 || c > max || c < 0 || c > u32::MAX || (!collected_any && c > lim) {
        Seq::empty()
    } else if trace_eligible(db, only_user_code, c as u32) {
        seq![c as u32] + spec_trace_clnums(
            db,
            only_user_code,
            (count - 1) as nat,
            c + 1,
            max,
            lim,
            true,
        )
    } else {
        spec_trace_clnums(db, only_user_code, count, c + 1, max, lim, collected_any)
    }
}

/// The clnums of a sequence of trace rows.
pub open spec fn entry_clnums(s: Seq<TraceEntry>) -> Seq<u32> {
    s.map_values(|e: TraceEntry| e.clnum)
}

/// A scan returns at most `count` rows.
pub proof fn lemma_trace_clnums_len(
    db: TraceDB,
    only_user_code: bool,
    count: nat,
    c: int,
    max: int,
    lim: int,
    any: bool,
)
    ensures
        spec_trace_clnums(db, only_user_code, count, c, max, lim, any).len() <= count,
    decreases max + 1 - c,
{
    if !(count == 0 || c > max || c < 0 || c > u32::MAX || (!any && c > lim)) {
        if trace_eligible(db, only_user_code, c as u32) {
            lemma_trace_clnums_len(db, only_user_code, (count - 1) as nat, c + 1, max, lim, true);
        } else {
            lemma_trace_clnums_len(db, only_user_code, count, c + 1, max, lim, any);
        }
    }
}

/// The row-clnum scan reads only the log, the user-code ranges, and the
/// bias: two databases agreeing there scan alike.
pub proof fn lemma_trace_clnums_same(
    a: TraceDB,
    b: TraceDB,
    only_user_code: bool,
    count: nat,
    c: int,
    max: int,
    lim: int,
    any: bool,
)
    requires
        a.changes == b.changes,
        a.user_code_ranges == b.user_code_ranges,
        a.bias == b.bias,
    ensures
        spec_trace_clnums(a, only_user_code, count, c, max, lim, any) == spec_trace_clnums(
            b,
            only_user_code,
            count,
            c,
            max,
            lim,
            any,
        ),
    decreases max + 1 - c,
{
    if !(count == 0 || c > max || c < 0 || c > u32::MAX || (!any && c > lim)) {
        assert(trace_eligible(a, only_user_code, c as u32) == trace_eligible(
            b,
            only_user_code,
            c as u32,
        ));
        if trace_eligible(a, only_user_code, c as u32) {
            lemma_trace_clnums_same(
                a,
                b,
                only_user_code,
                (count - 1) as nat,
                c + 1,
                max,
                lim,
                true,
            );
        } else {
            lemma_trace_clnums_same(a, b, only_user_code, count, c + 1, max, lim, any);
        }
    }
}

/// The row for clnum `e.clnum` is filled as the log prescribes: its
/// address comes from the start change, its text from the trace renderer,
/// and its effects are the first register write and memory access at that
/// clnum.
pub open spec fn trace_entry_ok(db: TraceDB, e: TraceEntry) -> bool {
    match first_start_at(db.changes@, e.clnum) {
        Some(ch) => {
            &&& e.address == ch.address
            &&& e.disassembly@ == db.spec_trace_disasm(ch)
            &&& e.reg_diff == first_reg_write_at(db.changes@, e.clnum)
            &&& e.mem_access == first_mem_access_at(db.changes@, e.clnum)
        },
        None => false,
    }
}

/// The trace renderer reads only the instruction caches, the memory, the
/// bias, and the backend: two databases agreeing there render alike.
proof fn lemma_trace_disasm_same(a: TraceDB, b: TraceDB, ch: Change)
    requires
        a.instructions == b.instructions,
        a.instructions_disasm == b.instructions_disasm,
        a.memory == b.memory,
        a.bias == b.bias,
        a.disassembler == b.disassembler,
    ensures
        a.spec_trace_disasm(ch) == b.spec_trace_disasm(ch),
{
    let sa = spec_unbias(ch.address, a.bias);
    assert(a.mem_window(ch.clnum, sa) =~= b.mem_window(ch.clnum, sa));
    assert(a.spec_trace_fallback(ch) == b.spec_trace_fallback(ch));
}

/// Two databases agreeing on the log, the instruction caches, the memory,
/// the bias, and the backend describe trace rows alike.
pub proof fn lemma_trace_entry_ok_same(a: TraceDB, b: TraceDB, e: TraceEntry)
    requires
        a.changes == b.changes,
        a.instructions == b.instructions,
        a.instructions_disasm == b.instructions_disasm,
        a.memory == b.memory,
        a.bias == b.bias,
        a.disassembler == b.disassembler,
    ensures
        trace_entry_ok(a, e) == trace_entry_ok(b, e),
{
    match first_start_at(a.changes@, e.clnum) {
        Some(ch) => {
            lemma_trace_disasm_same(a, b, ch);
        },
        None => {},
    }
}

impl TraceDB {
    /// Fallback text for a trace row when its cached bytes are unusable:
    /// the tracer's hint, else the disassembly of reconstructed memory at
    /// the instruction's static address.
    pub open spec fn spec_trace_fallback(&self, ch: Change) -> Seq<char> {
        match self.insn_hint(ch.clnum) {
            Some(h) => h,
            None => self.spec_disasm(
                ch.address,
                self.mem_window(ch.clnum, spec_unbias(ch.address, self.bias)),
            ),
        }
    }

    /// The text of a trace row: the cached bytes when present and nonzero,
    /// else the tracer's hint, else reconstructed memory.
    pub open spec fn spec_trace_disasm(&self, ch: Change) -> Seq<char> {
        match self.insn_bytes(ch.clnum) {
            Some(bb) => {
                if bb.len() > 0 && !all_zero(bb) {
                    self.spec_disasm(ch.address, bb)
                } else {
                    self.spec_trace_fallback(ch)
                }
            },
            None => self.spec_trace_fallback(ch),
        }
    }

    fn trace_disasm(&mut self, ch: Change) -> (r: String)
        requires
            old(self).inv(),
        ensures
            final(self).inv(),
            r@ == old(self).spec_trace_disasm(ch),
            *final(self) == (TraceDB { insn_cache: final(self).insn_cache, ..*old(self) }),
    {
        let bytes_opt: Option<Vec<u8>> = match self.instructions.get(ch.clnum) {
            Some(b) => Some(slice_to_vec(b.as_slice())),
            None => None,
        };
        match &bytes_opt {
            Some(b) => {
                if b.len() > 0 && !is_all_zero(b.as_slice()) {
                    return self.disassemble(ch.address, b.as_slice());
                }
            },
            None => {},
        }
        let hint_opt: Option<String> = match self.instructions_disasm.get(ch.clnum) {
            Some(s) => Some(s.clone()),
            None => None,
        };
        match hint_opt {
            Some(h) => {
                return h;
            },
            None => {},
        }
        let sa = unbias(ch.address, self.bias);
        let mem = self.get_memory_at(ch.clnum, sa, 16);
        proof {
            assert(mem@ =~= self.mem_window(ch.clnum, sa));
        }
        self.disassemble(ch.address, mem.as_slice())
    }

    /// Up to `count` trace rows with clnums at or after `start`, in clnum
    /// order; with `only_user_code`, rows outside registered user code are
    /// skipped. A scan that finds nothing gives up after 100000 clnums.
    pub fn get_trace_log(&mut self, start: u32, count: u32, only_user_code: bool) -> (r: Vec<
        TraceEntry,
    >)
        requires
            old(self).inv(),
        ensures
            final(self).inv(),
            *final(self) == (TraceDB { insn_cache: final(self).insn_cache, ..*old(self) }),
            entry_clnums(r@) == spec_trace_clnums(
                *old(self),
                only_user_code,
                count as nat,
                start as int,
                old(self).spec_max_clnum() as int,
                start as int + 100000,
                false,
            ),
            forall|k: int| 0 <= k < r@.len() ==> trace_entry_ok(*old(self), #[trigger] r@[k]),
    {
        let max = self.max_clnum();
        let ghost lim: int = start as int + 100000;
        let mut entries: Vec<TraceEntry> = Vec::new();
        let mut c: u64 = start as u64;
        let mut collected: u32 = 0;
        proof {
            assert(entry_clnums(entries@) =~= Seq::<u32>::empty());
        }
        while collected < count && c <= max as u64 && !(c > start as u64 + 100000 && collected
            == 0)
            invariant
                old(self).inv(),
                self.inv(),
                *self == (TraceDB { insn_cache: self.insn_cache, ..*old(self) }),
                max == old(self).spec_max_clnum(),
                lim == start as int + 100000,
                start as u64 <= c,
                collected <= count,
                collected as int == entries@.len(),
                spec_trace_clnums(
                    *old(self),
                    only_user_code,
                    count as nat,
                    start as int,
                    max as int,
                    lim,
                    false,
                ) == entry_clnums(entries@) + spec_trace_clnums(
                    *old(self),
                    only_user_code,
                    (count - collected) as nat,
                    c as int,
                    max as int,
                    lim,
                    collected > 0,
                ),
                forall|k: int|
                    0 <= k < entries@.len() ==> trace_entry_ok(*old(self), #[trigger] entries@[k]),
            decreases max as int + 1 - c as int,
        {
            let cc = c as u32;
            let start_change = first_start_at_exec(self.changes.as_slice(), cc);
            match start_change {
                Some(ch) => {
                    let keep = !only_user_code || self.is_user_code(ch.address);
                    if keep {
                        let ghost mid = *self;
                        let disassembly = self.trace_disasm(ch);
                        proof {
                            lemma_trace_disasm_same(mid, *old(self), ch);
                        }
                        let reg_diff = first_reg_write_at_exec(self.changes.as_slice(), cc);
                        let mem_access = first_mem_access_at_exec(self.changes.as_slice(), cc);
                        let e = TraceEntry {
                            clnum: cc,
                            address: ch.address,
                            disassembly,
                            reg_diff,
                            mem_access,
                        };
                        let ghost pre = entries@;
                        let ghost cold = collected;
                        entries.push(e);
                        collected = collected + 1;
                        proof {
                            assert(trace_eligible(*old(self), only_user_code, cc));
                            assert(c as int <= u32::MAX && (c as int) as u32 == cc);
                            assert(cold > 0 || c as int <= lim);
                            assert(spec_trace_clnums(
                                *old(self),
                                only_user_code,
                                (count - cold) as nat,
                                c as int,
                                max as int,
                                lim,
                                cold > 0,
                            ) == seq![cc] + spec_trace_clnums(
                                *old(self),
                                only_user_code,
                                (count - collected) as nat,
                                c as int + 1,
                                max as int,
                                lim,
                                true,
                            ));
                            assert(entry_clnums(entries@) =~= entry_clnums(pre) + seq![cc]);
                            assert(entry_clnums(pre) + (seq![cc] + spec_trace_clnums(
                                *old(self),
                                only_user_code,
                                (count - collected) as nat,
                                c as int + 1,
                                max as int,
                                lim,
                                true,
                            )) =~= (entry_clnums(pre) + seq![cc]) + spec_trace_clnums(
                                *old(self),
                                only_user_code,
                                (count - collected) as nat,
                                c as int + 1,
                                max as int,
                                lim,
                                true,
                            ));
                        }
                    } else {
                        proof {
                            assert(!trace_eligible(*old(self), only_user_code, cc));
                        }
                    }
                },
                None => {
                    proof {
                        assert(!trace_eligible(*old(self), only_user_code, cc));
                    }
                },
            }
            c = c + 1;
        }
        proof {
            assert(spec_trace_clnums(
                *old(self),
                only_user_code,
                (count - collected) as nat,
                c as int,
                max as int,
                lim,
                collected > 0,
            ) =~= Seq::<u32>::empty());
            assert(entry_clnums(entries@) + Seq::<u32>::empty() =~= entry_clnums(entries@));
        }
        entries
    }
}

} // verus!
