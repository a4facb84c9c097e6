//! Backwards slicing, disassembly, stack-variable prettifying, the trace
//! view, and the text helpers.

use koradar_core::stackvars::rewrite_stack_vars;
use koradar_core::textutil::{dec_vec, hex_vec, parse_hex, to_lower};
use koradar_core::{Change, ClientMessage, ServerMessage, TraceDB, IS_MEM, IS_START, IS_VALID, IS_WRITE};

fn start_change(clnum: u32, pc: u64) -> Change {
    Change { address: pc, data: 0, clnum, flags: IS_VALID | IS_START }
}

fn reg_write(clnum: u32, reg: u64, data: u64) -> Change {
    Change { address: reg * 8, data, clnum, flags: IS_VALID | IS_WRITE }
}

fn mem_read(clnum: u32, addr: u64, data: u64) -> Change {
    Change { address: addr, data, clnum, flags: IS_VALID | IS_MEM | 64 }
}

/// clnum 3: `rax = rbx + rcx`; clnum 2: `rbx = [0x100]`; clnum 1: `rcx = 7`.
fn three_step_db() -> TraceDB {
    let mut db = TraceDB::new(16);
    // mov rcx, 7
    db.add_instruction(1, vec![0x48, 0xC7, 0xC1, 0x07, 0x00, 0x00, 0x00]);
    db.add_change(start_change(1, 0x1000));
    db.add_change(reg_write(1, 2, 7));
    // mov rbx, qword ptr [0x100]
    db.add_instruction(2, vec![0x48, 0x8B, 0x1C, 0x25, 0x00, 0x01, 0x00, 0x00]);
    db.add_change(start_change(2, 0x1007));
    db.add_change(mem_read(2, 0x100, 7));
    db.add_change(reg_write(2, 1, 7));
    // lea rax, [rbx + rcx]
    db.add_instruction(3, vec![0x48, 0x8D, 0x04, 0x0B]);
    db.add_change(start_change(3, 0x100F));
    db.add_change(reg_write(3, 0, 14));
    db
}

#[test]
fn backward_slice() {
    let db = three_step_db();
    assert_eq!(db.get_slice(3, "rax".to_string()), vec![1, 2, 3]);
}

#[test]
fn slice_message_returns_one_row_per_slice_clnum() {
    let mut db = three_step_db();
    let reply = db.handle_message(&ClientMessage::GetSlice {
        clnum: 3,
        target: "rax".to_string(),
    });
    match reply {
        ServerMessage::Slice { entries } => {
            let clnums: Vec<u32> = entries.iter().map(|e| e.clnum).collect();
            assert_eq!(clnums, vec![1, 2, 3]);
            assert_eq!(entries[0].address, 0x1000);
            assert_eq!(entries[1].address, 0x1007);
            assert_eq!(entries[2].address, 0x100F);
        }
        _ => panic!("expected a slice reply"),
    }
}

#[test]
fn backward_slice_is_case_folded() {
    let db = three_step_db();
    assert_eq!(db.get_slice(3, "RAX".to_string()), vec![1, 2, 3]);
}

#[test]
fn slice_from_memory_target() {
    let db = three_step_db();
    // Nothing before clnum 2 writes 0x100, so only the read's consumers
    // would be found from a memory seed; the address itself was never
    // written, so the slice is empty.
    assert_eq!(db.get_slice(3, "0x100".to_string()), Vec::<u32>::new());
}

#[test]
fn slice_unknown_target_is_empty() {
    let db = three_step_db();
    assert_eq!(db.get_slice(3, "bogus".to_string()), Vec::<u32>::new());
    assert_eq!(db.get_slice(3, "0xZZ".to_string()), Vec::<u32>::new());
    assert_eq!(db.get_slice(3, "0x".to_string()), Vec::<u32>::new());
}

#[test]
fn slice_is_deterministic() {
    let db = three_step_db();
    let first = db.get_slice(3, "rax".to_string());
    let second = db.get_slice(3, "rax".to_string());
    assert_eq!(first, second);
    // events past the starting clnum do not change the slice
    let mut extended = three_step_db();
    extended.add_instruction(4, vec![0x90]);
    extended.add_change(start_change(4, 0x2000));
    extended.add_change(reg_write(4, 0, 99));
    assert_eq!(extended.get_slice(3, "rax".to_string()), first);
}

#[test]
fn slice_respects_start_clnum() {
    let db = three_step_db();
    assert_eq!(db.get_slice(2, "rbx".to_string()), vec![2]);
}

#[test]
fn disassemble_texts() {
    let db = &mut TraceDB::new(16);
    assert_eq!(db.disassemble(0x1000, &[]), "...");
    assert_eq!(
        db.disassemble(0x1000, &[0x48, 0xC7, 0xC1, 0x07, 0x00, 0x00, 0x00]),
        "mov rcx, 7"
    );
    // the memoized answer is the same
    assert_eq!(
        db.disassemble(0x1000, &[0x48, 0xC7, 0xC1, 0x07, 0x00, 0x00, 0x00]),
        "mov rcx, 7"
    );
}

#[test]
fn disassemble_prettifies_stack_refs() {
    let db = &mut TraceDB::new(16);
    // mov rax, qword ptr [rbp - 0x18]
    assert_eq!(
        db.disassemble(0x1000, &[0x48, 0x8B, 0x45, 0xE8]),
        "mov rax, qword ptr var_18"
    );
}

#[test]
fn disassembly_at_uses_hint_when_bytes_missing() {
    let db = &mut TraceDB::new(16);
    db.add_instruction_disasm(1, "hinted text".to_string());
    db.add_change(start_change(1, 0x4000));
    assert_eq!(db.get_disassembly_at(1), "hinted text");
    assert_eq!(db.get_disassembly_at(9), "hinted text");
}

#[test]
fn disassembly_at_falls_back_to_static_memory() {
    let db = &mut TraceDB::new(16);
    db.set_bias(0x1000);
    // seed the instruction bytes as static memory at the static address
    db.load_static_memory(0x500, &[0x48, 0xC7, 0xC1, 0x07, 0x00, 0x00, 0x00]);
    db.add_change(start_change(1, 0x1500));
    assert_eq!(db.get_disassembly_at(1), "mov rcx, 7");
}

#[test]
fn query_state_reads_memory_window() {
    let db = &mut TraceDB::new(16);
    db.load_static_memory(0x600, &[0x11, 0x22]);
    db.add_change(reg_write(1, 0, 42));
    let msg = koradar_core::ClientMessage::QueryState { clnum: 1, memory_addr: Some(0x600) };
    match db.handle_message(&msg) {
        koradar_core::ServerMessage::StateUpdate { clnum, registers, memory, memory_addr, .. } => {
            assert_eq!(clnum, 1);
            assert_eq!(memory_addr, 0x600);
            assert_eq!(memory.len(), 256);
            assert_eq!(&memory[0..3], &[0x11, 0x22, 0x00]);
            assert_eq!(registers[0], 42);
        },
        _ => panic!("expected a state update"),
    }
}

#[test]
fn disassembly_at_without_anything() {
    let db = &mut TraceDB::new(16);
    assert_eq!(db.get_disassembly_at(1), "???");
}

#[test]
fn trace_log_rows() {
    let db = three_step_db();
    let mut db = db;
    let rows = db.get_trace_log(1, 10, false);
    assert_eq!(rows.len(), 3);
    assert_eq!(rows[0].clnum, 1);
    assert_eq!(rows[0].address, 0x1000);
    assert_eq!(rows[0].disassembly, "mov rcx, 7");
    assert_eq!(rows[0].reg_diff, Some((2, 7)));
    assert_eq!(rows[0].mem_access, None);
    assert_eq!(rows[1].mem_access, Some((0x100, 7, false)));
    assert_eq!(rows[2].clnum, 3);
}

#[test]
fn trace_log_honours_count_and_start() {
    let mut db = three_step_db();
    let rows = db.get_trace_log(2, 1, false);
    assert_eq!(rows.len(), 1);
    assert_eq!(rows[0].clnum, 2);
}

#[test]
fn rewrite_stack_vars_text() {
    let chars: Vec<char> = "cmp dword ptr [rbp - 0x4], 5".chars().collect();
    let out: String = rewrite_stack_vars(&chars).into_iter().collect();
    assert_eq!(out, "cmp dword ptr var_4, 5");
    let chars2: Vec<char> = "mov rsi, [rbp + 0x10]".chars().collect();
    let out2: String = rewrite_stack_vars(&chars2).into_iter().collect();
    assert_eq!(out2, "mov rsi, arg_10");
    let chars3: Vec<char> = "lea rax, [rbx + rcx]".chars().collect();
    let out3: String = rewrite_stack_vars(&chars3).into_iter().collect();
    assert_eq!(out3, "lea rax, [rbx + rcx]");
}

#[test]
fn text_helpers() {
    let h: String = hex_vec(0xdead).into_iter().collect();
    assert_eq!(h, "dead");
    let z: String = hex_vec(0).into_iter().collect();
    assert_eq!(z, "0");
    let d: String = dec_vec(1024).into_iter().collect();
    assert_eq!(d, "1024");
    let lower: Vec<char> = to_lower(&['R', 'a', 'X', '9']);
    assert_eq!(lower, vec!['r', 'a', 'x', '9']);
    let digits: Vec<char> = "1fF".chars().collect();
    assert_eq!(parse_hex(&digits), Some(0x1ff));
    let bad: Vec<char> = "1g".chars().collect();
    assert_eq!(parse_hex(&bad), None);
    assert_eq!(parse_hex(&[]), None);
    let big: Vec<char> = "10000000000000000".chars().collect();
    assert_eq!(parse_hex(&big), None);
    let max: Vec<char> = "ffffffffffffffff".chars().collect();
    assert_eq!(parse_hex(&max), Some(u64::MAX));
}

#[test]
fn trace_log_gives_up_past_scan_limit() {
    let db = &mut TraceDB::new(16);
    db.add_instruction(150000, vec![0x90]);
    db.add_change(start_change(150000, 0x100));
    let rows = db.get_trace_log(1, 5, false);
    assert_eq!(rows.len(), 0);
    let rows2 = db.get_trace_log(149999, 5, false);
    assert_eq!(rows2.len(), 1);
}

#[test]
fn read_registers_of_lea() {
    let db = TraceDB::new(16);
    let d = db.disassembler.as_ref().expect("backend should start");
    let reads = d.get_read_registers(&[0x48, 0x8D, 0x04, 0x0B], 0x1000).unwrap();
    assert_eq!(reads, vec![1, 2]);
}
