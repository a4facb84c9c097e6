//! The ingest path (one clnum per executed instruction, with the bias
//! heuristic) and the handling of client requests.

use vstd::prelude::*;

use crate::change::{
    lemma_start_flags, start_count, Change, IS_START, IS_VALID,
};
use crate::db::{dedup_push, TraceDB};
use crate::protocol::{ClientMessage, ServerMessage, TraceEvent};
use crate::tracelog::{
    entry_clnums, lemma_trace_clnums_len, lemma_trace_clnums_same, lemma_trace_entry_ok_same,
    spec_trace_clnums, trace_entry_ok,
};
use crate::memory::hist_clnums;
use crate::change::cell_writes;
use crate::slicer::spec_slice;

use vstd::slice::slice_to_vec;

verus! {

/// The clnums of the rows a slice reply carries: for each slice clnum in
/// order, the row (at most one) that a one-row trace scan from it yields.
pub open spec fn spec_slice_row_clnums(db: TraceDB, cl: Seq<u32>) -> Seq<u32>
    decreases cl.len(),
{
    if cl.len() == 0 {
        Seq::empty()
    } else {
        spec_slice_row_clnums(db, cl.drop_last()) + spec_trace_clnums(
            db,
            false,
            1nat,
            cl.last() as int,
            db.spec_max_clnum() as int,
            cl.last() as int + 100000,
            false,
        )
    }
}

/// The signed difference `pc - ep`, reduced into the 64-bit space and read
/// as a two's-complement offset.
pub open spec fn spec_bias_of(pc: u64, ep: u64) -> i64 {
    let d = (((pc as int) - (ep as int)) % 0x1_0000_0000_0000_0000) as u64;
    if d < 0x8000_0000_0000_0000 {
        d as i64
    } else {
        (d - 0x1_0000_0000_0000_0000) as i64
    }
}

/// The bias heuristic on one executed instruction: when the low 12 bits of
/// the runtime pc match the static entry point's, the difference is a
/// candidate. An exact match (bias zero) always wins; a nonzero candidate
/// is accepted only over a zero bias and only for low runtime addresses
/// (the main image rather than the dynamic linker).
pub open spec fn spec_bias_update(ep: Option<u64>, pc: u64, current: i64) -> Option<i64> {
    match ep {
        None => None,
        Some(e) => {
            if pc & 0xFFF == e & 0xFFF {
                let b = spec_bias_of(pc, e);
                if current == 0 && b != 0 {
                    if pc < 0x7000_0000_0000 {
                        Some(b)
                    } else {
                        None
                    }
                } else if b == 0 && current != 0 {
                    Some(0)
                } else {
                    None
                }
            } else {
                None
            }
        },
    }
}

/// The signed load offset suggested by one pc / entry-point pair.
pub fn bias_of(pc: u64, ep: u64) -> (r: i64)
    ensures
        r == spec_bias_of(pc, ep),
{
    let d = crate::addr::wrap_sub_u64(pc, ep);
    if d < 0x8000_0000_0000_0000 {
        d as i64
    } else {
        let m = d - 0x8000_0000_0000_0000;
        i64::MIN + (m as i64)
    }
}

impl TraceDB {
    /// The instruction-start count equals the newest clnum: one
    /// instruction per clnum, densely from 1.
    pub open spec fn starts_match_max(&self) -> bool {
        start_count(self.changes@) == self.spec_max_clnum()
    }

    /// Ingest one tracer event. An `InsnExec` takes the next clnum: it
    /// runs the bias heuristic, caches the bytes and the hint, appends the
    /// register snapshot, and records the instruction-start change. Other
    /// events leave the database unchanged. Returns whether the clock
    /// advanced.
    pub fn ingest_event(&mut self, ev: &TraceEvent) -> (advanced: bool)
        requires
            old(self).inv(),
            old(self).can_accept(old(self).spec_max_clnum()),
            old(self).spec_max_clnum() < u32::MAX,
        ensures
            final(self).inv(),
            final(self).can_accept(final(self).spec_max_clnum()),
            match *ev {
                TraceEvent::InsnExec { vcpu_index: _, pc, bytes, disasm, regs } => {
                    let c = (old(self).spec_max_clnum() + 1) as u32;
                    &&& advanced
                    &&& final(self).spec_max_clnum() == c
                    &&& final(self).changes@ == old(self).changes@.push(
                        (Change { address: pc, data: 0, clnum: c, flags: IS_VALID | IS_START }),
                    )
                    &&& start_count(final(self).changes@) == start_count(old(self).changes@) + 1
                    &&& (bytes@.len() > 0 ==> final(self).insn_bytes(c) == Some(bytes@))
                    &&& (match disasm {
                        Some(d) => d@.len() > 0 ==> final(self).insn_hint(c) == Some(d@),
                        None => final(self).insn_hint(c) == old(self).insn_hint(c),
                    })
                    &&& (regs@.len() > 0 ==> forall|i: int|
                        0 <= i < regs@.len() ==> #[trigger] final(self).reg_hist(i) == dedup_push(
                            old(self).reg_hist(i),
                            c,
                            regs@[i],
                        ))
                    &&& (regs@.len() == 0 ==> final(self).registers@ == old(self).registers@)
                    &&& final(self).bias == (match spec_bias_update(
                        old(self).entry_point,
                        pc,
                        old(self).bias,
                    ) {
                        Some(b) => b,
                        None => old(self).bias,
                    })
                    &&& final(self).memory.inv()
                    &&& (forall|a: u64| #[trigger] final(self).memory.static_of(a) == old(
                        self,
                    ).memory.static_of(a))
                    &&& final(self).symbols == old(self).symbols
                    &&& final(self).user_code_ranges == old(self).user_code_ranges
                    &&& final(self).entry_point == old(self).entry_point
                    &&& (old(self).starts_match_max() ==> final(self).starts_match_max())
                },
                _ => !advanced && *final(self) == *old(self),
            },
    {
        match ev {
            TraceEvent::InsnExec { vcpu_index: _, pc, bytes, disasm, regs } => {
                let clnum = self.max_clnum() + 1;
                match self.get_entry_point() {
                    Some(ep) => {
                        if *pc & 0xFFF == ep & 0xFFF {
                            let b = bias_of(*pc, ep);
                            let cur = self.get_bias();
                            if cur == 0 && b != 0 {
                                if *pc < 0x7000_0000_0000 {
                                    self.set_bias(b);
                                }
                            } else if b == 0 && cur != 0 {
                                self.set_bias(0);
                            }
                        }
                    },
                    None => {},
                }
                self.add_instruction(clnum, slice_to_vec(bytes.as_slice()));
                match disasm {
                    Some(d) => {
                        self.add_instruction_disasm(clnum, d.clone());
                    },
                    None => {},
                }
                let ghost s3 = *self;
                if regs.len() > 0 {
                    self.update_registers(clnum, regs.as_slice());
                }
                let ghost s4 = *self;
                let ch = Change {
                    address: *pc,
                    data: 0,
                    clnum,
                    flags: IS_VALID | IS_START,
                };
                proof {
                    lemma_start_flags();
                }
                self.add_change(ch);
                proof {
                    let s0 = *old(self);
                    let c = (s0.spec_max_clnum() + 1) as u32;
                    assert(clnum == c);
                    assert(self.spec_max_clnum() == c);
                    assert(self.changes@ == s0.changes@.push(ch));
                    assert(start_count(self.changes@) == start_count(s0.changes@) + 1) by {
                        assert(self.changes@.drop_last() =~= s0.changes@);
                    }
                    assert(bytes@.len() > 0 ==> self.insn_bytes(c) == Some(bytes@));
                    assert(match disasm {
                        Some(d) => d@.len() > 0 ==> self.insn_hint(c) == Some(d@),
                        None => self.insn_hint(c) == s0.insn_hint(c),
                    });
                    if regs@.len() > 0 {
                        assert forall|i: int| 0 <= i < regs@.len() implies #[trigger] self.reg_hist(
                            i,
                        ) == dedup_push(s0.reg_hist(i), c, regs@[i]) by {
                            assert(s4.reg_hist(i) == dedup_push(s3.reg_hist(i), c, regs@[i]));
                            assert(s3.reg_hist(i) == s0.reg_hist(i));
                            assert(self.reg_hist(i) == s4.reg_hist(i));
                        }
                    } else {
                        assert(self.registers@.len() == s0.registers@.len());
                        assert forall|i: int| 0 <= i < self.registers@.len() implies (
                        #[trigger] self.registers@[i]) == s0.registers@[i] by {
                            assert(self.registers@[i] == s4.registers@[i]);
                            assert(s4.registers@[i] == s3.registers@[i]);
                        }
                        assert(self.registers@ =~= s0.registers@);
                    }
                    assert(self.bias == (match spec_bias_update(s0.entry_point, *pc, s0.bias) {
                        Some(b) => b,
                        None => s0.bias,
                    }));
                    assert(forall|a: u64| #[trigger] self.memory.static_of(a)
                        == s0.memory.static_of(a));
                    assert(self.symbols == s0.symbols);
                    assert(self.entry_point == s0.entry_point);
                    assert(self.can_accept(self.spec_max_clnum()));
                }
                true
            },
            _ => false,
        }
    }

    /// Answer one client request against the current database state.
    pub fn handle_message(&mut self, msg: &ClientMessage) -> (r: ServerMessage)
        requires
            old(self).inv(),
        ensures
            final(self).inv(),
            *final(self) == (TraceDB { insn_cache: final(self).insn_cache, ..*old(self) }),
            match *msg {
                ClientMessage::QueryState { clnum, memory_addr } => {
                    let ma = (match memory_addr {
                        Some(a) => a,
                        None => 0u64,
                    });
                    r matches ServerMessage::StateUpdate {
                        clnum: c2,
                        registers,
                        memory,
                        memory_addr: ma2,
                        disassembly,
                    } && c2 == clnum && ma2 == ma && registers@.len() == old(self).reg_count()
                        && (forall|i: int|
                        0 <= i < registers@.len() ==> registers@[i] == old(self).spec_reg_at(
                            i,
                            clnum,
                        )) && memory@.len() == 256 && disassembly@ == old(
                        self,
                    ).spec_disassembly_at(clnum)
                },
                ClientMessage::StepForward { current } => {
                    let c = (if current >= old(self).spec_max_clnum() {
                        old(self).spec_max_clnum()
                    } else {
                        (current + 1) as u32
                    });
                    r matches ServerMessage::StateUpdate {
                        clnum: c2,
                        registers,
                        memory,
                        memory_addr: ma2,
                        disassembly,
                    } && c2 == c && ma2 == 0 && registers@.len() == old(self).reg_count() && (
                    forall|i: int|
                        0 <= i < registers@.len() ==> registers@[i] == old(self).spec_reg_at(i, c))
                        && memory@.len() == 256 && disassembly@ == old(self).spec_disassembly_at(c)
                },
                ClientMessage::StepBackward { current } => {
                    let c = (if current > 1 {
                        (current - 1) as u32
                    } else {
                        1u32
                    });
                    r matches ServerMessage::StateUpdate {
                        clnum: c2,
                        registers,
                        memory,
                        memory_addr: ma2,
                        disassembly,
                    } && c2 == c && ma2 == 0 && registers@.len() == old(self).reg_count() && (
                    forall|i: int|
                        0 <= i < registers@.len() ==> registers@[i] == old(self).spec_reg_at(i, c))
                        && memory@.len() == 256 && disassembly@ == old(self).spec_disassembly_at(c)
                },
                ClientMessage::GetTraceLog { start, count, only_user_code } => {
                    r matches ServerMessage::TraceLog { entries } && entry_clnums(entries@)
                        == spec_trace_clnums(
                        *old(self),
                        only_user_code,
                        count as nat,
                        start as int,
                        old(self).spec_max_clnum() as int,
                        start as int + 100000,
                        false,
                    ) && (forall|k: int|
                        0 <= k < entries@.len() ==> trace_entry_ok(
                            *old(self),
                            #[trigger] entries@[k],
                        ))
                },
                ClientMessage::GetCFG { only_user_code, start_from_main } => {
                    r matches ServerMessage::CFG { graph } && exists|g: crate::il::ControlFlowGraph|
                        #[trigger] crate::il::spec_mermaid(g) == graph@ && crate::cfg::cfg_well_formed(g)
                            && crate::cfg::cfg_matches(
                            *old(self),
                            only_user_code,
                            start_from_main,
                            g,
                        )
                },
                ClientMessage::GetSlice { clnum, target } => {
                    r matches ServerMessage::Slice { entries } && entry_clnums(entries@)
                        == spec_slice_row_clnums(
                        *old(self),
                        spec_slice(*old(self), clnum, target@),
                    ) && (forall|k: int|
                        0 <= k < entries@.len() ==> trace_entry_ok(
                            *old(self),
                            #[trigger] entries@[k],
                        ))
                },
                ClientMessage::GetMemoryWrites { address } => {
                    r matches ServerMessage::MemoryWrites { address: a2, writes } && a2
                        == address && writes@ == hist_clnums(
                        cell_writes(old(self).changes@, address),
                    )
                },
            },
    {
        match msg {
            ClientMessage::QueryState { clnum, memory_addr } => {
                let regs = self.get_registers_at(*clnum);
                let mem_start = match memory_addr {
                    Some(a) => *a,
                    None => 0,
                };
                let mem = self.get_memory_at(*clnum, mem_start, 256);
                let disasm = self.get_disassembly_at(*clnum);
                ServerMessage::StateUpdate {
                    clnum: *clnum,
                    registers: regs,
                    memory: mem,
                    memory_addr: mem_start,
                    disassembly: disasm,
                }
            },
            ClientMessage::StepForward { current } => {
                let max = self.max_clnum();
                let next = if *current >= max {
                    max
                } else {
                    *current + 1
                };
                let regs = self.get_registers_at(next);
                let mem = self.get_memory_at(next, 0, 256);
                let disasm = self.get_disassembly_at(next);
                ServerMessage::StateUpdate {
                    clnum: next,
                    registers: regs,
                    memory: mem,
                    memory_addr: 0,
                    disassembly: disasm,
                }
            },
            ClientMessage::StepBackward { current } => {
                let prev = if *current > 1 {
                    *current - 1
                } else {
                    1
                };
                let regs = self.get_registers_at(prev);
                let mem = self.get_memory_at(prev, 0, 256);
                let disasm = self.get_disassembly_at(prev);
                ServerMessage::StateUpdate {
                    clnum: prev,
                    registers: regs,
                    memory: mem,
                    memory_addr: 0,
                    disassembly: disasm,
                }
            },
            ClientMessage::GetTraceLog { start, count, only_user_code } => {
                let entries = self.get_trace_log(*start, *count, *only_user_code);
                ServerMessage::TraceLog { entries }
            },
            ClientMessage::GetCFG { only_user_code, start_from_main } => {
                let cfg = self.analyze_cfg(*only_user_code, *start_from_main);
                let graph = cfg.to_mermaid();
                proof {
                    assert(crate::il::spec_mermaid(cfg) == graph@ && crate::cfg::cfg_well_formed(
                        cfg,
                    ) && crate::cfg::cfg_matches(
                        *old(self),
                        *only_user_code,
                        *start_from_main,
                        cfg,
                    ));
                }
                ServerMessage::CFG { graph }
            },
            ClientMessage::GetSlice { clnum, target } => {
                let clnums = self.get_slice(*clnum, target.clone());
                proof {
                    assert(clnums@ == spec_slice(*old(self), *clnum, target@));
                }
                let mut entries: Vec<crate::protocol::TraceEntry> = Vec::new();
                let n = clnums.len();
                proof {
                    assert(entry_clnums(entries@) =~= Seq::<u32>::empty());
                    assert(clnums@.take(0) =~= Seq::<u32>::empty());
                }
                let mut k: usize = 0;
                while k < n
                    invariant
                        old(self).inv(),
                        self.inv(),
                        *self == (TraceDB { insn_cache: self.insn_cache, ..*old(self) }),
                        n == clnums@.len(),
                        k <= n,
                        entry_clnums(entries@) == spec_slice_row_clnums(
                            *old(self),
                            clnums@.take(k as int),
                        ),
                        forall|q: int|
                            0 <= q < entries@.len() ==> trace_entry_ok(
                                *old(self),
                                #[trigger] entries@[q],
                            ),
                    decreases n - k,
                {
                    let ghost mid = *self;
                    let ghost c = clnums@[k as int];
                    let ghost inner = spec_trace_clnums(
                        *old(self),
                        false,
                        1nat,
                        c as int,
                        old(self).spec_max_clnum() as int,
                        c as int + 100000,
                        false,
                    );
                    let mut rows = self.get_trace_log(clnums[k], 1, false);
                    let ghost rows0 = rows@;
                    proof {
                        lemma_trace_clnums_same(
                            mid,
                            *old(self),
                            false,
                            1nat,
                            c as int,
                            mid.spec_max_clnum() as int,
                            c as int + 100000,
                            false,
                        );
                        assert(mid.spec_max_clnum() == old(self).spec_max_clnum());
                        assert(entry_clnums(rows0) == inner);
                        lemma_trace_clnums_len(
                            *old(self),
                            false,
                            1nat,
                            c as int,
                            old(self).spec_max_clnum() as int,
                            c as int + 100000,
                            false,
                        );
                        assert(rows0.len() == entry_clnums(rows0).len());
                        assert(clnums@.take(k + 1).drop_last() =~= clnums@.take(k as int));
                        assert(clnums@.take(k + 1).last() == c);
                    }
                    let ghost pre_entries = entries@;
                    if rows.len() > 0 {
                        let row = rows.remove(0);
                        proof {
                            lemma_trace_entry_ok_same(mid, *old(self), row);
                            assert(inner =~= seq![row.clnum]) by {
                                assert(rows0.len() == 1);
                                assert(row == rows0[0]);
                                assert(inner[0] == entry_clnums(rows0)[0]);
                            }
                        }
                        entries.push(row);
                        proof {
                            assert(entry_clnums(entries@) =~= entry_clnums(pre_entries) + seq![
                                row.clnum,
                            ]);
                            assert(entry_clnums(entries@) == spec_slice_row_clnums(
                                *old(self),
                                clnums@.take(k + 1),
                            ));
                        }
                    } else {
                        proof {
                            assert(inner =~= Seq::<u32>::empty());
                            assert(entry_clnums(entries@) + Seq::<u32>::empty() =~= entry_clnums(
                                entries@,
                            ));
                            assert(entry_clnums(entries@) == spec_slice_row_clnums(
                                *old(self),
                                clnums@.take(k + 1),
                            ));
                        }
                    }
                    k = k + 1;
                }
                proof {
                    assert(clnums@.take(n as int) =~= clnums@);
                }
                ServerMessage::Slice { entries }
            },
            ClientMessage::GetMemoryWrites { address } => {
                let writes = self.get_memory_writes(*address);
                ServerMessage::MemoryWrites { address: *address, writes }
            },
        }
    }
}

} // verus!
