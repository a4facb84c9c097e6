//! The trace database: an append-only change log plus the point-in-time
//! indices reconstructed from it (per-byte memory histories, per-register
//! histories), the instruction cache, the symbol table, user-code ranges,
//! and the load bias.

use vstd::prelude::*;

use crate::addr::{spec_unbias, spec_wrap_add, unbias, wrap_add};
use crate::change::{
    cell_writes, lemma_cell_writes_sorted, log_nondecreasing, is_mem_write, is_reg_write,
    is_start, size_bytes, shifted_data, spec_is_mem_write, spec_is_reg_write, spec_is_start,
    spec_size_bytes, byte_written_at, covers, Change,
};
use crate::history::{hist_lookup, hist_nondecreasing, lookup_le};
use crate::disasm::{cache_ok, spec_render_disasm, DisasmCache, Disassembler};
use crate::kvlist::ClnumMap;
use crate::memory::{hist_clnums, MemStore};
use crate::stackvars::rewrite_stack_vars;
use crate::strutil::{chars_to_string, str_eq, string_to_chars};
use crate::textutil::{all_zero, is_all_zero};

use vstd::slice::slice_to_vec;
use vstd::string::StringExecFns;

verus! {

/// A function symbol of the loaded binary: static start address, size in
/// bytes, and name. Containment is the half-open interval
/// `[start, start + size)`.
pub struct Symbol {
    pub start: u64,
    pub size: u64,
    pub name: String,
}

/// The symbol covers static address `addr`.
pub open spec fn sym_contains(s: Symbol, addr: u64) -> bool {
    s.start <= addr && addr - s.start < s.size
}

/// Index of the first symbol covering `addr`, or -1 when none does.
pub open spec fn first_sym_containing(syms: Seq<Symbol>, addr: u64) -> int
    decreases syms.len(),
{
    if syms.len() == 0 {
        -1
    } else if sym_contains(syms[0], addr) {
        0
    } else {
        let r = first_sym_containing(syms.drop_first(), addr);
        if r == -1 {
            -1
        } else {
            r + 1
        }
    }
}

/// Index of the first symbol carrying `name`, or -1 when none does.
pub open spec fn first_sym_named(syms: Seq<Symbol>, name: Seq<char>) -> int
    decreases syms.len(),
{
    if syms.len() == 0 {
        -1
    } else if syms[0].name@ == name {
        0
    } else {
        let r = first_sym_named(syms.drop_first(), name);
        if r == -1 {
            -1
        } else {
            r + 1
        }
    }
}

/// The half-open range `r` covers address `a`.
pub open spec fn range_contains(r: (u64, u64), a: u64) -> bool {
    r.0 <= a < r.1
}

/// Runtime address `address` lies in user code under the given ranges and
/// bias: with no ranges registered everything counts; otherwise its
/// bias-normalized static address must fall in some range.
pub open spec fn user_code_spec(ranges: Seq<(u64, u64)>, bias: i64, address: u64) -> bool {
    ranges.len() == 0 || exists|k: int|
        0 <= k < ranges.len() && range_contains(#[trigger] ranges[k], spec_unbias(address, bias))
}

/// The in-memory trace database.
pub struct TraceDB {
    pub changes: Vec<Change>,
    pub memory: MemStore,
    pub registers: Vec<Vec<(u32, u64)>>,
    pub instructions: ClnumMap<Vec<u8>>,
    pub instructions_disasm: ClnumMap<String>,
    pub user_code_ranges: Vec<(u64, u64)>,
    pub entry_point: Option<u64>,
    pub bias: i64,
    pub symbols: Vec<Symbol>,
    pub insn_cache: DisasmCache,
    pub disassembler: Option<Disassembler>,
}

impl TraceDB {
    /// The change log, in ingest order.
    pub open spec fn log(&self) -> Seq<Change> {
        self.changes@
    }

    /// The dynamic write history of memory byte `a`.
    pub open spec fn mem_hist(&self, a: u64) -> Seq<(u32, u8)> {
        self.memory.hist(a)
    }

    /// The static initializer of memory byte `a`, if any.
    pub open spec fn mem_static(&self, a: u64) -> Option<u8> {
        self.memory.static_of(a)
    }

    /// The write history of register `r` (empty outside the register file).
    pub open spec fn reg_hist(&self, r: int) -> Seq<(u32, u64)> {
        if 0 <= r < self.registers@.len() {
            self.registers@[r]@
        } else {
            Seq::empty()
        }
    }

    /// Number of architectural registers tracked.
    pub open spec fn reg_count(&self) -> int {
        self.registers@.len() as int
    }

    /// The byte at address `a` as of clnum `c`: latest write at or before
    /// `c`, else the static byte, else zero.
    pub open spec fn spec_mem_byte_at(&self, a: u64, c: u32) -> u8 {
        self.memory.spec_byte_at(a, c)
    }

    /// The value of register `r` as of clnum `c`: latest write at or before
    /// `c`, else zero.
    pub open spec fn spec_reg_at(&self, r: int, c: u32) -> u64 {
        match hist_lookup(self.reg_hist(r), c) {
            Some(v) => v,
            None => 0,
        }
    }

    /// The clnum of the newest change, 0 before any change.
    pub open spec fn spec_max_clnum(&self) -> u32 {
        if self.changes@.len() == 0 {
            0
        } else {
            self.changes@.last().clnum
        }
    }

    /// Instruction bytes recorded for clnum `c`.
    pub open spec fn insn_bytes(&self, c: u32) -> Option<Seq<u8>> {
        match self.instructions.spec_get(c) {
            Some(v) => Some(v@),
            None => None,
        }
    }

    /// Tracer-supplied disassembly hint recorded for clnum `c`.
    pub open spec fn insn_hint(&self, c: u32) -> Option<Seq<char>> {
        match self.instructions_disasm.spec_get(c) {
            Some(v) => Some(v@),
            None => None,
        }
    }

    /// Well-formedness: the log is in ingest order, every memory history is
    /// exactly the per-byte projection of the log, register histories are in
    /// ingest order, and the keyed stores have unique keys.
    pub open spec fn inv(&self) -> bool {
        &&& self.memory.inv()
        &&& self.instructions.inv()
        &&& self.instructions_disasm.inv()
        &&& log_nondecreasing(self.changes@)
        &&& cache_ok(self.insn_cache, self.disassembler is Some)
        &&& forall|a: u64| #[trigger] self.memory.hist(a) == cell_writes(self.changes@, a)
        &&& forall|r: int|
            0 <= r < self.registers@.len() ==> hist_nondecreasing(
                (#[trigger] self.registers@[r])@,
            )
    }

    /// The clnum `c` may be appended next: it is at or after everything
    /// already recorded.
    pub open spec fn can_accept(&self, c: u32) -> bool {
        &&& self.changes@.len() == 0 || self.changes@.last().clnum <= c
        &&& forall|r: int|
            0 <= r < self.registers@.len() ==> ((#[trigger] self.registers@[r])@.len() == 0
                || self.registers@[r]@.last().0 <= c)
    }

    /// A fresh database tracking `reg_count` architectural registers.
    pub fn new(reg_count: usize) -> (r: TraceDB)
        ensures
            r.inv(),
            r.log() == Seq::<Change>::empty(),
            r.reg_count() == reg_count,
            forall|i: int| 0 <= i < reg_count ==> #[trigger] r.reg_hist(i) == Seq::<(
                u32,
                u64,
            )>::empty(),
            forall|a: u64| #[trigger] r.memory.hist(a) == Seq::<(u32, u8)>::empty(),
            forall|a: u64| #[trigger] r.memory.static_of(a) is None,
            forall|c: u32| #[trigger] r.instructions.spec_get(c) is None,
            forall|c: u32| #[trigger] r.instructions_disasm.spec_get(c) is None,
            r.user_code_ranges@ == Seq::<(u64, u64)>::empty(),
            r.symbols@ == Seq::<Symbol>::empty(),
            r.insn_cache.entries@ == Seq::<(u64, Vec<u8>, String)>::empty(),
            r.entry_point is None,
            r.bias == 0,
            r.spec_max_clnum() == 0,
            r.can_accept(1),
    {
        let mut regs: Vec<Vec<(u32, u64)>> = Vec::new();
        let mut i: usize = 0;
        while i < reg_count
            invariant
                i <= reg_count,
                regs@.len() == i,
                forall|k: int| 0 <= k < i ==> (#[trigger] regs@[k])@ == Seq::<(u32, u64)>::empty(),
            decreases reg_count - i,
        {
            regs.push(Vec::new());
            i = i + 1;
        }
        TraceDB {
            changes: Vec::new(),
            memory: MemStore::new(),
            registers: regs,
            instructions: ClnumMap::new(),
            instructions_disasm: ClnumMap::new(),
            user_code_ranges: Vec::new(),
            entry_point: None,
            bias: 0,
            symbols: Vec::new(),
            insn_cache: DisasmCache::new(),
            disassembler: Disassembler::new(),
        }
    }

    /// The largest clnum in the log, 0 before any change.
    pub fn max_clnum(&self) -> (r: u32)
        ensures
            r == self.spec_max_clnum(),
    {
        if self.changes.len() == 0 {
            0
        } else {
            self.changes[self.changes.len() - 1].clnum
        }
    }

    /// Record the binary's static entry point.
    pub fn set_entry_point(&mut self, ep: u64)
        ensures
            *final(self) == (TraceDB { entry_point: Some(ep), ..*old(self) }),
    {
        self.entry_point = Some(ep);
    }

    /// Record the load bias (runtime address minus static address).
    pub fn set_bias(&mut self, bias: i64)
        ensures
            *final(self) == (TraceDB { bias: bias, ..*old(self) }),
    {
        self.bias = bias;
    }

    /// The current load bias.
    pub fn get_bias(&self) -> (r: i64)
        ensures
            r == self.bias,
    {
        self.bias
    }

    /// The recorded static entry point, if any.
    pub fn get_entry_point(&self) -> (r: Option<u64>)
        ensures
            r == self.entry_point,
    {
        self.entry_point
    }

    /// Record a function symbol, replacing any earlier one with the same
    /// start address.
    pub fn add_symbol(&mut self, start: u64, size: u64, name: String)
        ensures
            exists|i: int|
                0 <= i < final(self).symbols@.len() && #[trigger] final(self).symbols@[i].start
                    == start && final(self).symbols@[i].size == size && final(self).symbols@[i].name@ == name@,
            forall|i: int|
                0 <= i < final(self).symbols@.len() && (#[trigger] final(self).symbols@[i]).start
                    != start ==> exists|j: int|
                    0 <= j < old(self).symbols@.len() && #[trigger] old(self).symbols@[j] == final(self).symbols@[i],
            *final(self) == (TraceDB { symbols: final(self).symbols, ..*old(self) }),
    {
        let n = self.symbols.len();
        let mut i: usize = 0;
        while i < n
            invariant
                n == self.symbols@.len(),
                i <= n,
                *self == *old(self),
            decreases n - i,
        {
            if self.symbols[i].start == start {
                self.symbols[i] = Symbol { start, size, name };
                proof {
                    assert(final(self).symbols@[i as int].start == start);
                    assert(forall|k: int|
                        0 <= k < final(self).symbols@.len() && k != i ==> final(self).symbols@[k]
                            == old(self).symbols@[k]);
                }
                return ;
            }
            i = i + 1;
        }
        let ghost j = self.symbols@.len();
        self.symbols.push(Symbol { start, size, name });
        proof {
            assert(final(self).symbols@[j as int].start == start);
            assert(forall|k: int|
                0 <= k < j ==> final(self).symbols@[k] == old(self).symbols@[k]);
        }
    }

    /// The symbol starting exactly at `address`: its name and offset zero.
    pub fn resolve_symbol(&self, address: u64) -> (r: Option<(String, u64)>)
        ensures
            match r {
                Some((name, off)) => off == 0 && exists|i: int|
                    0 <= i < self.symbols@.len() && (#[trigger] self.symbols@[i]).start == address
                        && self.symbols@[i].name@ == name@,
                None => forall|i: int|
                    0 <= i < self.symbols@.len() ==> (#[trigger] self.symbols@[i]).start
                        != address,
            },
    {
        let n = self.symbols.len();
        let mut i: usize = 0;
        while i < n
            invariant
                n == self.symbols@.len(),
                i <= n,
                forall|k: int| 0 <= k < i ==> (#[trigger] self.symbols@[k]).start != address,
            decreases n - i,
        {
            if self.symbols[i].start == address {
                return Some((self.symbols[i].name.clone(), 0));
            }
            i = i + 1;
        }
        None
    }

    /// The first symbol whose interval contains static address `address`:
    /// its name and the offset of `address` into it.
    pub fn find_symbol(&self, address: u64) -> (r: Option<(String, u64)>)
        ensures
            match r {
                Some((name, off)) => {
                    let i = first_sym_containing(self.symbols@, address);
                    &&& i >= 0
                    &&& name@ == self.symbols@[i].name@
                    &&& off == address - self.symbols@[i].start
                },
                None => first_sym_containing(self.symbols@, address) == -1,
            },
    {
        let n = self.symbols.len();
        let mut i: usize = 0;
        while i < n
            invariant
                n == self.symbols@.len(),
                i <= n,
                forall|k: int| 0 <= k < i ==> !sym_contains(#[trigger] self.symbols@[k], address),
            decreases n - i,
        {
            let s = &self.symbols[i];
            if s.start <= address && address - s.start < s.size {
                proof {
                    lemma_first_sym_at(self.symbols@, address, i as int);
                }
                return Some((s.name.clone(), address - s.start));
            }
            i = i + 1;
        }
        proof {
            lemma_first_sym_none(self.symbols@, address);
        }
        None
    }

    /// The start address of the first symbol with the given name.
    pub fn find_symbol_by_name(&self, target_name: &str) -> (r: Option<u64>)
        ensures
            match r {
                Some(start) => {
                    let i = first_sym_named(self.symbols@, target_name@);
                    &&& i >= 0
                    &&& self.symbols@[i].name@ == target_name@
                    &&& self.symbols@[i].start == start
                },
                None => {
                    &&& first_sym_named(self.symbols@, target_name@) == -1
                    &&& forall|i: int|
                        0 <= i < self.symbols@.len() ==> (#[trigger] self.symbols@[i]).name@
                            != target_name@
                },
            },
    {
        let n = self.symbols.len();
        let mut i: usize = 0;
        while i < n
            invariant
                n == self.symbols@.len(),
                i <= n,
                forall|k: int| 0 <= k < i ==> (#[trigger] self.symbols@[k]).name@ != target_name@,
            decreases n - i,
        {
            if str_eq(self.symbols[i].name.as_str(), target_name) {
                proof {
                    lemma_first_named_at(self.symbols@, target_name@, i as int);
                }
                return Some(self.symbols[i].start);
            }
            i = i + 1;
        }
        proof {
            lemma_first_named_none(self.symbols@, target_name@);
        }
        None
    }

    /// The clnums at which memory byte `address` was dynamically written:
    /// the sorted set, strictly increasing with one entry per clnum.
    pub fn get_memory_writes(&self, address: u64) -> (r: Vec<u32>)
        requires
            self.inv(),
        ensures
            r@ == hist_clnums(cell_writes(self.log(), address)),
    {
        self.memory.write_clnums(address)
    }

    /// Seed static memory: byte `k` of `data` initializes address
    /// `start_addr + k`.
    pub fn load_static_memory(&mut self, start_addr: u64, data: &[u8])
        requires
            old(self).inv(),
            start_addr as int + data@.len() as int <= u64::MAX as int + 1,
        ensures
            final(self).inv(),
            forall|k: int|
                0 <= k < data@.len() ==> #[trigger] final(self).memory.static_of(
                    (start_addr + k) as u64,
                ) == Some(data@[k]),
            forall|a: u64|
                (a < start_addr || a >= start_addr + data@.len()) ==> #[trigger] final(self).memory.static_of(a) == old(self).memory.static_of(a),
            forall|a: u64| #[trigger] final(self).memory.hist(a) == old(self).memory.hist(a),
            *final(self) == (TraceDB { memory: final(self).memory, ..*old(self) }),
    {
        let n = data.len();
        let mut k: usize = 0;
        while k < n
            invariant
                n == data@.len(),
                k <= n,
                start_addr as int + n as int <= u64::MAX as int + 1,
                self.memory.inv(),
                forall|j: int|
                    0 <= j < k ==> #[trigger] self.memory.static_of((start_addr + j) as u64)
                        == Some(data@[j]),
                forall|a: u64|
                    (a < start_addr || a >= start_addr + n) ==> #[trigger] self.memory.static_of(
                        a,
                    ) == old(self).memory.static_of(a),
                forall|a: u64|
                    (a >= start_addr + k && a < start_addr + n) ==> #[trigger] self.memory.static_of(
                        a,
                    ) == old(self).memory.static_of(a),
                forall|a: u64| #[trigger] self.memory.hist(a) == old(self).memory.hist(a),
                *self == (TraceDB { memory: self.memory, ..*old(self) }),
            decreases n - k,
        {
            let a = start_addr + (k as u64);
            self.memory.set_static(a, data[k]);
            k = k + 1;
        }
        proof {
            assert forall|a: u64| #[trigger] final(self).memory.hist(a) == cell_writes(
                final(self).changes@,
                a,
            ) by {
                assert(old(self).memory.hist(a) == cell_writes(old(self).changes@, a));
            }
        }
    }

    /// Register a user-code range `[start, start + size)` of static
    /// addresses.
    pub fn register_code_range(&mut self, start: u64, size: u64)
        requires
            start as int + size as int <= u64::MAX as int,
        ensures
            final(self).user_code_ranges@ == old(self).user_code_ranges@.push(
                (start, (start + size) as u64),
            ),
            *final(self) == (TraceDB { user_code_ranges: final(self).user_code_ranges, ..*old(self) }),
    {
        self.user_code_ranges.push((start, start + size));
    }

    /// Runtime address `address` lies in user code: with no ranges
    /// registered everything counts; otherwise its bias-normalized static
    /// address must fall in some range.
    pub open spec fn spec_is_user_code(&self, address: u64) -> bool {
        user_code_spec(self.user_code_ranges@, self.bias, address)
    }

    /// Whether runtime address `address` lies in registered user code.
    pub fn is_user_code(&self, address: u64) -> (r: bool)
        ensures
            r == self.spec_is_user_code(address),
    {
        let n = self.user_code_ranges.len();
        if n == 0 {
            return true;
        }
        let static_addr = unbias(address, self.bias);
        let mut k: usize = 0;
        while k < n
            invariant
                n == self.user_code_ranges@.len(),
                k <= n,
                static_addr == spec_unbias(address, self.bias),
                forall|j: int|
                    0 <= j < k ==> !range_contains(
                        #[trigger] self.user_code_ranges@[j],
                        spec_unbias(address, self.bias),
                    ),
            decreases n - k,
        {
            let (s, e) = self.user_code_ranges[k];
            if static_addr >= s && static_addr < e {
                return true;
            }
            k = k + 1;
        }
        false
    }

    /// Cache the instruction bytes executed at clnum `clnum`; empty byte
    /// strings are ignored.
    pub fn add_instruction(&mut self, clnum: u32, bytes: Vec<u8>)
        requires
            old(self).inv(),
        ensures
            final(self).inv(),
            bytes@.len() > 0 ==> final(self).insn_bytes(clnum) == Some(bytes@),
            bytes@.len() == 0 ==> final(self).insn_bytes(clnum) == old(self).insn_bytes(clnum),
            forall|c: u32|
                c != clnum ==> #[trigger] final(self).instructions.spec_get(c) == old(self).instructions.spec_get(c),
            *final(self) == (TraceDB { instructions: final(self).instructions, ..*old(self) }),
    {
        if bytes.len() > 0 {
            self.instructions.insert(clnum, bytes);
        }
    }

    /// Cache the tracer-supplied disassembly for clnum `clnum`; empty
    /// strings are ignored.
    pub fn add_instruction_disasm(&mut self, clnum: u32, disasm: String)
        requires
            old(self).inv(),
        ensures
            final(self).inv(),
            disasm@.len() > 0 ==> final(self).insn_hint(clnum) == Some(disasm@),
            disasm@.len() == 0 ==> final(self).insn_hint(clnum) == old(self).insn_hint(clnum),
            forall|c: u32|
                c != clnum ==> #[trigger] final(self).instructions_disasm.spec_get(c) == old(self).instructions_disasm.spec_get(c),
            *final(self) == (TraceDB { instructions_disasm: final(self).instructions_disasm, ..*old(self) }),
    {
        if !disasm.as_str().is_empty() {
            self.instructions_disasm.insert(clnum, disasm);
        }
    }
}

/// A register history extended by a write, unless the value repeats the
/// latest one (consecutive equal values are collapsed).
pub open spec fn dedup_push(h: Seq<(u32, u64)>, c: u32, v: u64) -> Seq<(u32, u64)> {
    if h.len() > 0 && h.last().1 == v {
        h
    } else {
        h.push((c, v))
    }
}

impl TraceDB {
    /// Append one change to the log and update the reconstruction indices:
    /// a memory write spawns one history entry per covered byte, a register
    /// write appends to that register's history.
    pub fn add_change(&mut self, change: Change)
        requires
            old(self).inv(),
            old(self).can_accept(change.clnum),
            spec_is_mem_write(change.flags) ==> change.address as int + spec_size_bytes(
                change.flags,
            ) as int <= u64::MAX as int + 1,
        ensures
            final(self).inv(),
            final(self).changes@ == old(self).changes@.push(change),
            final(self).spec_max_clnum() == change.clnum,
            final(self).registers@.len() == old(self).registers@.len(),
            spec_is_reg_write(change.flags) && change.address as int / 8 < old(self).registers@.len() ==> final(self).reg_hist(change.address as int / 8) == old(self).reg_hist(change.address as int / 8).push((change.clnum, change.data)),
            forall|r: int|
                0 <= r < old(self).registers@.len() && !(spec_is_reg_write(change.flags) && r
                    == change.address as int / 8) ==> (#[trigger] final(self).registers@[r]) == old(self).registers@[r],
            forall|a: u64| #[trigger] final(self).memory.static_of(a) == old(self).memory.static_of(a),
            final(self).can_accept(change.clnum),
            *final(self) == (TraceDB {
                changes: final(self).changes,
                memory: final(self).memory,
                registers: final(self).registers,
                ..*old(self)
            }),
    {
        let ghost pre = *self;
        self.changes.push(change);
        proof {
            assert(self.changes@.drop_last() =~= pre.changes@);
            assert forall|i: int, j: int| 0 <= i <= j < self.changes@.len() implies (
            #[trigger] self.changes@[i]).clnum <= (#[trigger] self.changes@[j]).clnum by {
                if j < self.changes@.len() - 1 {
                    assert(pre.changes@[i].clnum <= pre.changes@[j].clnum);
                } else if i < j {
                    assert(pre.changes@[i].clnum <= pre.changes@[pre.changes@.len() - 1].clnum);
                }
            }
        }
        if is_mem_write(change.flags) {
            let size = size_bytes(change.flags);
            let mut data = change.data;
            let mut i: u64 = 0;
            while i < size
                invariant
                    self.memory.inv(),
                    i <= size,
                    size == spec_size_bytes(change.flags),
                    spec_is_mem_write(change.flags),
                    change.address as int + size as int <= u64::MAX as int + 1,
                    data == shifted_data(change.data, i as nat),
                    self.changes@ == pre.changes@.push(change),
                    forall|a: u64|
                        covers(change, a) && a < change.address + i ==> #[trigger] self.memory.hist(
                            a,
                        ) == cell_writes(self.changes@, a),
                    forall|a: u64|
                        !(covers(change, a) && a < change.address + i)
                            ==> #[trigger] self.memory.hist(a) == cell_writes(pre.changes@, a),
                    forall|a: u64| #[trigger] self.memory.static_of(a) == pre.memory.static_of(a),
                    *self == (TraceDB { changes: self.changes, memory: self.memory, ..pre }),
                decreases size - i,
            {
                let a = change.address + i;
                let byte = (data % 256) as u8;
                proof {
                    assert(self.changes@.drop_last() =~= pre.changes@);
                    assert(covers(change, a));
                    assert(byte == byte_written_at(change, a));
                }
                self.memory.push_write(a, change.clnum, byte);
                proof {
                    assert(self.changes@.drop_last() =~= pre.changes@);
                    assert(self.memory.hist(a) == cell_writes(self.changes@, a));
                }
                data = data / 256;
                i = i + 1;
                proof {
                    assert(data == shifted_data(change.data, i as nat));
                }
            }
            proof {
                assert forall|a: u64| #[trigger] self.memory.hist(a) == cell_writes(
                    self.changes@,
                    a,
                ) by {
                    if covers(change, a) {
                        assert(a < change.address + size);
                    } else {
                        assert(cell_writes(self.changes@, a) == cell_writes(pre.changes@, a));
                    }
                }
            }
        } else {
            proof {
                assert forall|a: u64| #[trigger] self.memory.hist(a) == cell_writes(
                    self.changes@,
                    a,
                ) by {
                    assert(self.memory.hist(a) == cell_writes(pre.changes@, a));
                    assert(!covers(change, a));
                }
            }
            if is_reg_write(change.flags) {
                let idx64 = change.address / 8;
                if idx64 < self.registers.len() as u64 {
                    let reg_idx = idx64 as usize;
                    self.registers[reg_idx].push((change.clnum, change.data));
                }
            }
        }
    }

    /// Memory bytes at clnum `clnum`: `size` bytes starting at `addr`
    /// (addresses wrap around the 64-bit address space).
    pub fn get_memory_at(&self, clnum: u32, addr: u64, size: usize) -> (r: Vec<u8>)
        requires
            self.inv(),
        ensures
            r@.len() == size,
            forall|k: int|
                0 <= k < size ==> r@[k] == self.spec_mem_byte_at(spec_wrap_add(addr, k as u64), clnum),
    {
        let mut out: Vec<u8> = Vec::new();
        let mut k: usize = 0;
        while k < size
            invariant
                self.inv(),
                k <= size,
                out@.len() == k,
                forall|j: int|
                    0 <= j < k ==> out@[j] == self.spec_mem_byte_at(
                        spec_wrap_add(addr, j as u64),
                        clnum,
                    ),
            decreases size - k,
        {
            let a = wrap_add(addr, k as u64);
            proof {
                lemma_cell_writes_sorted(self.changes@, a);
                assert(self.memory.hist(a) == cell_writes(self.changes@, a));
            }
            let b = self.memory.byte_at(a, clnum);
            out.push(b);
            k = k + 1;
        }
        out
    }

    /// The full register file as of clnum `clnum`: for each register, the
    /// latest write at or before `clnum`, else zero.
    pub fn get_registers_at(&self, clnum: u32) -> (r: Vec<u64>)
        requires
            self.inv(),
        ensures
            r@.len() == self.reg_count(),
            forall|i: int| 0 <= i < r@.len() ==> r@[i] == self.spec_reg_at(i, clnum),
    {
        let n = self.registers.len();
        let mut out: Vec<u64> = Vec::new();
        let mut i: usize = 0;
        while i < n
            invariant
                self.inv(),
                n == self.registers@.len(),
                i <= n,
                out@.len() == i,
                forall|j: int| 0 <= j < i ==> out@[j] == self.spec_reg_at(j, clnum),
            decreases n - i,
        {
            let v = match lookup_le(&self.registers[i], clnum) {
                Some(v) => v,
                None => 0,
            };
            out.push(v);
            i = i + 1;
        }
        out
    }

    /// Record a register snapshot at clnum `clnum`: each register whose
    /// value differs from its latest recorded value gets a new history
    /// entry; the register file grows to fit the snapshot.
    pub fn update_registers(&mut self, clnum: u32, new_regs: &[u64])
        requires
            old(self).inv(),
            old(self).can_accept(clnum),
        ensures
            final(self).inv(),
            final(self).registers@.len() == if new_regs@.len() > old(self).registers@.len() {
                new_regs@.len() as int
            } else {
                old(self).registers@.len() as int
            },
            forall|i: int|
                0 <= i < new_regs@.len() ==> #[trigger] final(self).reg_hist(i) == dedup_push(
                    old(self).reg_hist(i),
                    clnum,
                    new_regs@[i],
                ),
            forall|i: int|
                new_regs@.len() <= i < final(self).registers@.len() ==> #[trigger] final(self).reg_hist(i) == old(self).reg_hist(i),
            final(self).can_accept(clnum),
            *final(self) == (TraceDB { registers: final(self).registers, ..*old(self) }),
    {
        let n = new_regs.len();
        let ghost olen = self.registers@.len();
        while self.registers.len() < n
            invariant
                olen == old(self).registers@.len(),
                self.registers@.len() >= olen,
                self.registers@.len() == olen || self.registers@.len() <= n,
                forall|j: int|
                    0 <= j < olen ==> (#[trigger] self.registers@[j]) == old(self).registers@[j],
                forall|j: int|
                    olen <= j < self.registers@.len() ==> (#[trigger] self.registers@[j])@
                        == Seq::<(u32, u64)>::empty(),
                *self == (TraceDB { registers: self.registers, ..*old(self) }),
            decreases n - self.registers@.len(),
        {
            self.registers.push(Vec::new());
        }
        let ghost grown = *self;
        let mut i: usize = 0;
        while i < n
            invariant
                n == new_regs@.len(),
                i <= n,
                n <= self.registers@.len(),
                self.registers@.len() == grown.registers@.len(),
                forall|j: int|
                    0 <= j < i ==> (#[trigger] self.registers@[j])@ == dedup_push(
                        grown.reg_hist(j),
                        clnum,
                        new_regs@[j],
                    ),
                forall|j: int|
                    i <= j < self.registers@.len() ==> (#[trigger] self.registers@[j])
                        == grown.registers@[j],
                *self == (TraceDB { registers: self.registers, ..grown }),
            decreases n - i,
        {
            let val = new_regs[i];
            let hlen = self.registers[i].len();
            let changed = if hlen > 0 {
                self.registers[i][hlen - 1].1 != val
            } else {
                true
            };
            if changed {
                self.registers[i].push((clnum, val));
            }
            i = i + 1;
        }
        proof {
            assert forall|j: int|
                0 <= j < new_regs@.len() implies #[trigger] final(self).reg_hist(j) == dedup_push(
                old(self).reg_hist(j),
                clnum,
                new_regs@[j],
            ) by {
                assert(grown.reg_hist(j) == old(self).reg_hist(j));
            }
            assert forall|r: int|
                0 <= r < self.registers@.len() implies hist_nondecreasing(
                (#[trigger] self.registers@[r])@,
            ) by {
                if r < new_regs@.len() {
                    let h = old(self).reg_hist(r);
                    if r < olen {
                        assert(hist_nondecreasing(h));
                        assert(h.len() == 0 || h.last().0 <= clnum);
                    }
                    let h2 = dedup_push(h, clnum, new_regs@[r]);
                    if h2 != h {
                        assert forall|x: int, y: int| 0 <= x <= y < h2.len() implies (
                        #[trigger] h2[x]).0 <= (#[trigger] h2[y]).0 by {
                            if y < h2.len() - 1 {
                                assert(h[x].0 <= h[y].0);
                            } else if x < y {
                                assert(h[x].0 <= h.last().0);
                            }
                        }
                    }
                } else if r < olen {
                    assert(self.registers@[r] == old(self).registers@[r]);
                    assert(hist_nondecreasing(old(self).reg_hist(r)));
                }
            }
            assert forall|a: u64| #[trigger] final(self).memory.hist(a) == cell_writes(
                final(self).changes@,
                a,
            ) by {
                assert(old(self).memory.hist(a) == cell_writes(old(self).changes@, a));
            }
        }
    }
}

/// The latest instruction-start change at or before clnum `c`.
pub open spec fn latest_start(log: Seq<Change>, c: u32) -> Option<Change>
    decreases log.len(),
{
    if log.len() == 0 {
        None
    } else if spec_is_start(log.last().flags) && log.last().clnum <= c {
        Some(log.last())
    } else {
        latest_start(log.drop_last(), c)
    }
}

impl TraceDB {
    /// The text shown for `bytes` decoded at `address` under this
    /// database's backend.
    pub open spec fn spec_disasm(&self, address: u64, bytes: Seq<u8>) -> Seq<char> {
        spec_render_disasm(self.disassembler is Some, address, bytes)
    }

    /// The reconstructed 16-byte window at static address `base` as of
    /// clnum `c`.
    pub open spec fn mem_window(&self, c: u32, base: u64) -> Seq<u8> {
        Seq::new(16, |k: int| self.spec_mem_byte_at(spec_wrap_add(base, k as u64), c))
    }

    /// Fallback text for a start change when its cached bytes are unusable:
    /// the tracer's hint, else the disassembly of reconstructed memory at
    /// the instruction's static address, else `???`.
    pub open spec fn spec_disasm_fallback(&self, ch: Change) -> Seq<char> {
        match self.insn_hint(ch.clnum) {
            Some(h) => h,
            None => {
                let window = self.mem_window(ch.clnum, spec_unbias(ch.address, self.bias));
                if !all_zero(window) {
                    self.spec_disasm(ch.address, window)
                } else {
                    "???"@
                }
            },
        }
    }

    /// The text shown for clnum `clnum`: find the latest instruction start
    /// at or before it, then use its cached bytes when present and nonzero,
    /// else the tracer's hint, else reconstructed memory, else `???`.
    pub open spec fn spec_disassembly_at(&self, clnum: u32) -> Seq<char> {
        match latest_start(self.changes@, clnum) {
            None => "???"@,
            Some(ch) => match self.insn_bytes(ch.clnum) {
                Some(bb) => {
                    if bb.len() > 0 && !all_zero(bb) {
                        self.spec_disasm(ch.address, bb)
                    } else {
                        self.spec_disasm_fallback(ch)
                    }
                },
                None => self.spec_disasm_fallback(ch),
            },
        }
    }

    /// Disassemble `bytes` at `address`, memoizing the result: empty input
    /// yields `...`, a backend failure yields `invalid`, and stack
    /// references are prettified.
    pub fn disassemble(&mut self, address: u64, bytes: &[u8]) -> (r: String)
        requires
            old(self).inv(),
        ensures
            final(self).inv(),
            r@ == old(self).spec_disasm(address, bytes@),
            *final(self) == (TraceDB { insn_cache: final(self).insn_cache, ..*old(self) }),
    {
        if bytes.len() == 0 {
            return String::from_str("...");
        }
        match self.insn_cache.get(address, bytes) {
            Some(s) => {
                return s;
            },
            None => {},
        }
        let raw: String = match &self.disassembler {
            Some(d) => match d.disassemble(bytes, address) {
                Some(t) => t,
                None => String::from_str("invalid"),
            },
            None => String::from_str("invalid"),
        };
        let chars = string_to_chars(raw.as_str());
        let rewritten = rewrite_stack_vars(chars.as_slice());
        let out = chars_to_string(&rewritten);
        self.insn_cache.put(address, slice_to_vec(bytes), out.clone());
        proof {
            assert forall|i: int| 0 <= i < self.insn_cache.entries@.len() implies (
            #[trigger] self.insn_cache.entries@[i]).2@ == spec_render_disasm(
                self.disassembler is Some,
                self.insn_cache.entries@[i].0,
                self.insn_cache.entries@[i].1@,
            ) by {
                if i < self.insn_cache.entries@.len() - 1 {
                    assert(old(self).insn_cache.entries@[i] == self.insn_cache.entries@[i]);
                }
            }
        }
        out
    }

    /// The latest instruction-start change at or before clnum `c`, if any.
    pub fn find_latest_start(&self, c: u32) -> (r: Option<Change>)
        ensures
            r == latest_start(self.changes@, c),
    {
        let n = self.changes.len();
        proof {
            assert(self.changes@.take(n as int) =~= self.changes@);
        }
        let mut i: usize = n;
        while i > 0
            invariant
                n == self.changes@.len(),
                i <= n,
                latest_start(self.changes@, c) == latest_start(self.changes@.take(i as int), c),
            decreases i,
        {
            let ch = self.changes[i - 1];
            proof {
                assert(self.changes@.take(i as int).last() == ch);
                assert(self.changes@.take(i as int).drop_last() =~= self.changes@.take(i - 1));
            }
            if is_start(ch.flags) && ch.clnum <= c {
                return Some(ch);
            }
            i = i - 1;
        }
        None
    }

    /// The disassembly text for the instruction executed at clnum `clnum`
    /// (or the latest one before it), resolved as `spec_disassembly_at`
    /// describes.
    pub fn get_disassembly_at(&mut self, clnum: u32) -> (r: String)
        requires
            old(self).inv(),
        ensures
            final(self).inv(),
            r@ == old(self).spec_disassembly_at(clnum),
            *final(self) == (TraceDB { insn_cache: final(self).insn_cache, ..*old(self) }),
    {
        let ch = match self.find_latest_start(clnum) {
            Some(ch) => ch,
            None => {
                return String::from_str("???");
            },
        };
        let bytes_opt: Option<Vec<u8>> = match self.instructions.get(ch.clnum) {
            Some(b) => Some(slice_to_vec(b.as_slice())),
            None => None,
        };
        match &bytes_opt {
            Some(b) => {
                if b.len() > 0 && !is_all_zero(b.as_slice()) {
                    return self.disassemble(ch.address, b.as_slice());
                }
            },
            None => {},
        }
        let hint_opt: Option<String> = match self.instructions_disasm.get(ch.clnum) {
            Some(s) => Some(s.clone()),
            None => None,
        };
        match hint_opt {
            Some(h) => {
                return h;
            },
            None => {},
        }
        let sa = unbias(ch.address, self.bias);
        let mem = self.get_memory_at(ch.clnum, sa, 16);
        proof {
            assert(mem@ =~= self.mem_window(ch.clnum, sa));
        }
        if !is_all_zero(mem.as_slice()) {
            return self.disassemble(ch.address, mem.as_slice());
        }
        String::from_str("???")
    }
}

proof fn lemma_first_sym_at(syms: Seq<Symbol>, addr: u64, j: int)
    requires
        0 <= j < syms.len(),
        sym_contains(syms[j], addr),
        forall|k: int| 0 <= k < j ==> !sym_contains(#[trigger] syms[k], addr),
    ensures
        first_sym_containing(syms, addr) == j,
    decreases syms.len(),
{
    if j > 0 {
        assert forall|k: int| 0 <= k < j - 1 implies !sym_contains(
            #[trigger] syms.drop_first()[k],
            addr,
        ) by {
            assert(syms.drop_first()[k] == syms[k + 1]);
        }
        assert(syms.drop_first()[j - 1] == syms[j]);
        lemma_first_sym_at(syms.drop_first(), addr, j - 1);
    }
}

proof fn lemma_first_named_at(syms: Seq<Symbol>, name: Seq<char>, j: int)
    requires
        0 <= j < syms.len(),
        syms[j].name@ == name,
        forall|k: int| 0 <= k < j ==> (#[trigger] syms[k]).name@ != name,
    ensures
        first_sym_named(syms, name) == j,
    decreases syms.len(),
{
    if j > 0 {
        assert forall|k: int| 0 <= k < j - 1 implies (#[trigger] syms.drop_first()[k]).name@
            != name by {
            assert(syms.drop_first()[k] == syms[k + 1]);
        }
        assert(syms.drop_first()[j - 1] == syms[j]);
        lemma_first_named_at(syms.drop_first(), name, j - 1);
    }
}

proof fn lemma_first_named_none(syms: Seq<Symbol>, name: Seq<char>)
    requires
        forall|k: int| 0 <= k < syms.len() ==> (#[trigger] syms[k]).name@ != name,
    ensures
        first_sym_named(syms, name) == -1,
    decreases syms.len(),
{
    if syms.len() > 0 {
        assert forall|k: int| 0 <= k < syms.drop_first().len() implies (
        #[trigger] syms.drop_first()[k]).name@ != name by {
            assert(syms.drop_first()[k] == syms[k + 1]);
        }
        lemma_first_named_none(syms.drop_first(), name);
    }
}

/// The disassembly-text resolver reads only the log, the instruction
/// caches, the memory, the bias, and the backend: two databases agreeing
/// there resolve alike.
pub proof fn lemma_disassembly_at_same(a: TraceDB, b: TraceDB, c: u32)
    requires
        a.changes == b.changes,
        a.instructions == b.instructions,
        a.instructions_disasm == b.instructions_disasm,
        a.memory == b.memory,
        a.bias == b.bias,
        a.disassembler == b.disassembler,
    ensures
        a.spec_disassembly_at(c) == b.spec_disassembly_at(c),
{
    match latest_start(a.changes@, c) {
        Some(ch) => {
            let sa = spec_unbias(ch.address, a.bias);
            assert(a.mem_window(ch.clnum, sa) =~= b.mem_window(ch.clnum, sa));
            assert(a.spec_disasm_fallback(ch) == b.spec_disasm_fallback(ch));
        },
        None => {},
    }
}

proof fn lemma_first_sym_none(syms: Seq<Symbol>, addr: u64)
    requires
        forall|k: int| 0 <= k < syms.len() ==> !sym_contains(#[trigger] syms[k], addr),
    ensures
        first_sym_containing(syms, addr) == -1,
    decreases syms.len(),
{
    if syms.len() > 0 {
        assert forall|k: int| 0 <= k < syms.drop_first().len() implies !sym_contains(
            #[trigger] syms.drop_first()[k],
            addr,
        ) by {
            assert(syms.drop_first()[k] == syms[k + 1]);
        }
        lemma_first_sym_none(syms.drop_first(), addr);
    }
}

} // verus!
