//! The records exchanged at the system's boundaries: tracer events coming
//! in, and client requests and server replies.

use vstd::prelude::*;

verus! {

/// One event from the tracer's per-instruction stream.
pub enum TraceEvent {
    /// The guest started on the given virtual cpu.
    Init { vcpu_index: u32 },
    /// One executed instruction: program counter, raw bytes, an optional
    /// pre-rendered disassembly, and a snapshot of the architectural
    /// registers after execution.
    InsnExec { vcpu_index: u32, pc: u64, bytes: Vec<u8>, disasm: Option<String>, regs: Vec<u64> },
    /// One memory access (informational).
    MemAccess { vcpu_index: u32, vaddr: u64, is_store: bool, value: u64 },
    /// The guest exited.
    Exit { vcpu_index: u32 },
}

/// One row of the trace view: an executed instruction with its text and
/// its first register and memory effects at that clnum.
pub struct TraceEntry {
    pub clnum: u32,
    pub address: u64,
    pub disassembly: String,
    pub reg_diff: Option<(u64, u64)>,
    pub mem_access: Option<(u64, u64, bool)>,
}

/// A request from a client.
pub enum ClientMessage {
    QueryState { clnum: u32, memory_addr: Option<u64> },
    GetTraceLog { start: u32, count: u32, only_user_code: bool },
    StepForward { current: u32 },
    StepBackward { current: u32 },
    GetCFG { only_user_code: bool, start_from_main: bool },
    GetSlice { clnum: u32, target: String },
    GetMemoryWrites { address: u64 },
}

/// A reply or broadcast to clients.
pub enum ServerMessage {
    StateUpdate {
        clnum: u32,
        registers: Vec<u64>,
        memory: Vec<u8>,
        memory_addr: u64,
        disassembly: String,
    },
    TraceEvent(TraceEvent),
    TraceLog { entries: Vec<TraceEntry> },
    MaxClnum { max: u32 },
    CFG { graph: String },
    Slice { entries: Vec<TraceEntry> },
    MemoryWrites { address: u64, writes: Vec<u32> },
}

} // verus!
