//! In-memory trace database for time-travel analysis of instruction traces.
//!
//! The engine ingests per-instruction events (program counter, instruction
//! bytes, register snapshots, memory effects), stores them as a change log
//! keyed by a logical clock ("clnum"), and answers point-in-time queries:
//! memory and register state at any past clnum, disassembly, a recovered
//! control-flow graph, memory write histories, and backwards data slices.

pub mod addr;
pub mod cfg;
pub mod change;
pub mod db;
pub mod disasm;
pub mod history;
pub mod il;
pub mod ingest;
pub mod kvlist;
pub mod laws;
pub mod memory;
pub mod protocol;
pub mod slicer;
pub mod stackvars;
pub mod strutil;
pub mod textutil;
pub mod tracelog;
pub mod vecset;

pub use change::{Address, Change, Clnum, Data, IS_MEM, IS_START, IS_SYSCALL, IS_VALID, IS_WRITE, SIZE_MASK};
pub use db::{Symbol, TraceDB};
pub use disasm::Disassembler;
pub use il::{BasicBlock, Constant, ControlFlowGraph, Edge, Expression, Instruction, Operation, Scalar};
pub use memory::MemoryCell;
pub use protocol::{ClientMessage, ServerMessage, TraceEntry, TraceEvent};
