//! State reconstruction: memory and register histories, the write index,
//! ingest counting, bias resolution, and request handling.

use koradar_core::change::is_start;
use koradar_core::{
    Change, ClientMessage, ServerMessage, TraceDB, TraceEvent, IS_MEM, IS_START, IS_VALID,
    IS_WRITE,
};

fn start_change(clnum: u32, pc: u64) -> Change {
    Change { address: pc, data: 0, clnum, flags: IS_VALID | IS_START }
}

fn mem_write(clnum: u32, addr: u64, data: u64, bits: u32) -> Change {
    Change { address: addr, data, clnum, flags: IS_VALID | IS_WRITE | IS_MEM | bits }
}

fn reg_write(clnum: u32, reg: u64, data: u64) -> Change {
    Change { address: reg * 8, data, clnum, flags: IS_VALID | IS_WRITE }
}

#[test]
fn memory_reconstruction() {
    let db = &mut TraceDB::new(16);
    db.load_static_memory(0x400, &[0xAA]);
    db.add_change(mem_write(5, 0x400, 0xBB, 8));
    db.add_change(mem_write(9, 0x400, 0xCC, 8));
    assert_eq!(db.get_memory_at(4, 0x400, 1), vec![0xAA]);
    assert_eq!(db.get_memory_at(5, 0x400, 1), vec![0xBB]);
    assert_eq!(db.get_memory_at(8, 0x400, 1), vec![0xBB]);
    assert_eq!(db.get_memory_at(9, 0x400, 1), vec![0xCC]);
}

#[test]
fn memory_untouched_is_zero() {
    let db = &mut TraceDB::new(16);
    assert_eq!(db.get_memory_at(1, 0x1234, 3), vec![0, 0, 0]);
}

#[test]
fn memory_multibyte_write_unpacks_little_endian() {
    let db = &mut TraceDB::new(16);
    db.add_change(mem_write(1, 0x500, 0xDDCC_BBAA, 32));
    assert_eq!(db.get_memory_at(1, 0x500, 4), vec![0xAA, 0xBB, 0xCC, 0xDD]);
    assert_eq!(db.get_memory_at(1, 0x504, 1), vec![0]);
}

#[test]
fn memory_write_clnums_sorted() {
    let db = &mut TraceDB::new(16);
    db.add_change(mem_write(2, 0x400, 0x11, 8));
    db.add_change(mem_write(3, 0x3FF, 0x2211, 16));
    db.add_change(mem_write(7, 0x400, 0x33, 8));
    assert_eq!(db.get_memory_writes(0x400), vec![2, 3, 7]);
    assert_eq!(db.get_memory_writes(0x3FF), vec![3]);
    assert_eq!(db.get_memory_writes(0x401), Vec::<u32>::new());
}

#[test]
fn memory_write_clnums_are_a_set() {
    let db = &mut TraceDB::new(16);
    db.add_change(mem_write(4, 0x400, 0x11, 8));
    db.add_change(mem_write(4, 0x400, 0x22, 8));
    db.add_change(mem_write(6, 0x400, 0x33, 8));
    // two covering writes at one clnum yield one index entry, and the
    // later write's byte wins at that clnum
    assert_eq!(db.get_memory_writes(0x400), vec![4, 6]);
    assert_eq!(db.get_memory_at(4, 0x400, 1), vec![0x22]);
    assert_eq!(db.get_memory_at(5, 0x400, 1), vec![0x22]);
    assert_eq!(db.get_memory_at(6, 0x400, 1), vec![0x33]);
}

#[test]
fn register_reconstruction() {
    let db = &mut TraceDB::new(16);
    db.update_registers(1, &[5, 6]);
    db.update_registers(2, &[5, 7]);
    assert_eq!(db.get_registers_at(1)[0], 5);
    assert_eq!(db.get_registers_at(1)[1], 6);
    assert_eq!(db.get_registers_at(2)[1], 7);
    assert_eq!(db.get_registers_at(9)[1], 7);
    assert_eq!(db.get_registers_at(0)[0], 0);
    // consecutive equal values are collapsed
    assert_eq!(db.registers[0].len(), 1);
    assert_eq!(db.registers[1].len(), 2);
}

#[test]
fn register_write_change_updates_history() {
    let db = &mut TraceDB::new(16);
    db.add_change(reg_write(4, 3, 0x1234));
    assert_eq!(db.get_registers_at(3)[3], 0);
    assert_eq!(db.get_registers_at(4)[3], 0x1234);
}

fn insn_event(pc: u64, bytes: Vec<u8>, regs: Vec<u64>) -> TraceEvent {
    TraceEvent::InsnExec { vcpu_index: 0, pc, bytes, disasm: None, regs }
}

#[test]
fn ingest_counts_starts() {
    let db = &mut TraceDB::new(16);
    for k in 0..3u64 {
        let advanced = db.ingest_event(&insn_event(0x1000 + 2 * k, vec![0x90, 0x90], vec![]));
        assert!(advanced);
    }
    assert_eq!(db.max_clnum(), 3);
    let starts = db.changes.iter().filter(|c| is_start(c.flags)).count();
    assert_eq!(starts, 3);
}

#[test]
fn ingest_ignores_other_events() {
    let db = &mut TraceDB::new(16);
    assert!(!db.ingest_event(&TraceEvent::Init { vcpu_index: 0 }));
    assert!(!db.ingest_event(&TraceEvent::Exit { vcpu_index: 0 }));
    assert_eq!(db.max_clnum(), 0);
}

#[test]
fn bias_resolution() {
    let db = &mut TraceDB::new(16);
    db.set_entry_point(0x401234);
    db.register_code_range(0x401000, 0x1000);
    db.ingest_event(&insn_event(0x5555_5540_1234, vec![0x90], vec![]));
    assert_eq!(db.get_bias(), 0x5555_5500_0000);
    assert!(db.is_user_code(0x5555_5540_1240));
    assert!(!db.is_user_code(0x5555_5540_0FFF));
}

#[test]
fn bias_zero_match_wins() {
    let db = &mut TraceDB::new(16);
    db.set_entry_point(0x401234);
    db.ingest_event(&insn_event(0x5555_5540_1234, vec![0x90], vec![]));
    assert_eq!(db.get_bias(), 0x5555_5500_0000);
    db.ingest_event(&insn_event(0x401234, vec![0x90], vec![]));
    assert_eq!(db.get_bias(), 0);
}

#[test]
fn user_code_with_no_ranges() {
    let db = &mut TraceDB::new(16);
    assert!(db.is_user_code(0xdeadbeef));
}

#[test]
fn symbols_lookup() {
    let db = &mut TraceDB::new(16);
    db.add_symbol(0x1000, 0x20, "alpha".to_string());
    db.add_symbol(0x2000, 0, "beta".to_string());
    assert_eq!(db.resolve_symbol(0x1000), Some(("alpha".to_string(), 0)));
    assert_eq!(db.resolve_symbol(0x1001), None);
    assert_eq!(db.find_symbol(0x101F), Some(("alpha".to_string(), 0x1F)));
    assert_eq!(db.find_symbol(0x1020), None);
    assert_eq!(db.find_symbol_by_name("beta"), Some(0x2000));
    assert_eq!(db.find_symbol_by_name("gamma"), None);
}

#[test]
fn add_symbol_replaces_same_start() {
    let db = &mut TraceDB::new(16);
    db.add_symbol(0x1000, 0x10, "old".to_string());
    db.add_symbol(0x1000, 0x20, "new".to_string());
    assert_eq!(db.find_symbol(0x1018), Some(("new".to_string(), 0x18)));
}

#[test]
fn step_messages_clamp() {
    let db = &mut TraceDB::new(16);
    db.ingest_event(&insn_event(0x1000, vec![0x90], vec![]));
    db.ingest_event(&insn_event(0x1001, vec![0x90], vec![]));
    match db.handle_message(&ClientMessage::StepForward { current: 5 }) {
        ServerMessage::StateUpdate { clnum, .. } => assert_eq!(clnum, 2),
        _ => panic!("expected a state update"),
    }
    match db.handle_message(&ClientMessage::StepForward { current: 1 }) {
        ServerMessage::StateUpdate { clnum, .. } => assert_eq!(clnum, 2),
        _ => panic!("expected a state update"),
    }
    match db.handle_message(&ClientMessage::StepBackward { current: 0 }) {
        ServerMessage::StateUpdate { clnum, .. } => assert_eq!(clnum, 1),
        _ => panic!("expected a state update"),
    }
    match db.handle_message(&ClientMessage::StepBackward { current: 2 }) {
        ServerMessage::StateUpdate { clnum, .. } => assert_eq!(clnum, 1),
        _ => panic!("expected a state update"),
    }
}

#[test]
fn memory_writes_message() {
    let db = &mut TraceDB::new(16);
    db.add_change(mem_write(4, 0x700, 0x55, 8));
    match db.handle_message(&ClientMessage::GetMemoryWrites { address: 0x700 }) {
        ServerMessage::MemoryWrites { address, writes } => {
            assert_eq!(address, 0x700);
            assert_eq!(writes, vec![4]);
        },
        _ => panic!("expected a memory-writes reply"),
    }
}
