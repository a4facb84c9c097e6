//! Control-flow recovery scenarios and the mermaid rendering.

use koradar_core::{
    BasicBlock, Change, ClientMessage, ControlFlowGraph, Instruction, Operation, ServerMessage,
    TraceDB, IS_START, IS_VALID,
};

fn start_change(clnum: u32, pc: u64) -> Change {
    Change { address: pc, data: 0, clnum, flags: IS_VALID | IS_START }
}

fn ingest_pcs(db: &mut TraceDB, pcs: &[(u64, usize)]) {
    let mut clnum = 0u32;
    for &(pc, size) in pcs {
        clnum += 1;
        db.add_instruction(clnum, vec![0x90; size]);
        db.add_change(start_change(clnum, pc));
    }
}

fn block_addrs(b: &BasicBlock) -> Vec<u64> {
    b.instructions.iter().map(|i| i.address).collect()
}

#[test]
fn sequential_fall_through() {
    let db = &mut TraceDB::new(16);
    ingest_pcs(db, &[(0x1000, 2), (0x1002, 3), (0x1005, 1)]);
    let cfg = db.analyze_cfg(false, false);
    assert_eq!(cfg.blocks.len(), 1);
    assert_eq!(block_addrs(&cfg.blocks[0]), vec![0x1000, 0x1002, 0x1005]);
    assert_eq!(cfg.edges.len(), 0);
}

#[test]
fn simple_branch() {
    let db = &mut TraceDB::new(16);
    ingest_pcs(db, &[(0x1000, 2), (0x2000, 2), (0x2002, 2)]);
    let cfg = db.analyze_cfg(false, false);
    assert_eq!(cfg.blocks.len(), 2);
    assert_eq!(block_addrs(&cfg.blocks[0]), vec![0x1000]);
    assert_eq!(block_addrs(&cfg.blocks[1]), vec![0x2000, 0x2002]);
    assert_eq!(cfg.edges.len(), 1);
    assert_eq!((cfg.edges[0].head, cfg.edges[0].tail), (0, 1));
}

#[test]
fn loop_blocks() {
    let db = &mut TraceDB::new(16);
    ingest_pcs(db, &[(0x100, 2), (0x102, 2), (0x100, 2), (0x102, 2), (0x104, 2)]);
    let cfg = db.analyze_cfg(false, false);
    assert_eq!(cfg.blocks.len(), 2);
    assert_eq!(block_addrs(&cfg.blocks[0]), vec![0x100, 0x102]);
    assert_eq!(block_addrs(&cfg.blocks[1]), vec![0x104]);
    let mut pairs: Vec<(usize, usize)> =
        cfg.edges.iter().map(|e| (e.head, e.tail)).collect();
    pairs.sort();
    assert_eq!(pairs, vec![(0, 0), (0, 1)]);
}

#[test]
fn cfg_message_renders_recovered_graph() {
    let db = &mut TraceDB::new(16);
    ingest_pcs(db, &[(0x100, 2), (0x102, 2), (0x100, 2), (0x102, 2), (0x104, 2)]);
    let other = &mut TraceDB::new(16);
    ingest_pcs(other, &[(0x100, 2), (0x102, 2), (0x100, 2), (0x102, 2), (0x104, 2)]);
    let expected = other.analyze_cfg(false, false).to_mermaid();
    match db.handle_message(&ClientMessage::GetCFG {
        only_user_code: false,
        start_from_main: false,
    }) {
        ServerMessage::CFG { graph } => assert_eq!(graph, expected),
        _ => panic!("expected a graph reply"),
    }
}

#[test]
fn user_code_filter_drops_everything() {
    let db = &mut TraceDB::new(16);
    db.register_code_range(0x9000, 0x100);
    ingest_pcs(db, &[(0x1000, 2), (0x1002, 2)]);
    let cfg = db.analyze_cfg(true, false);
    assert_eq!(cfg.blocks.len(), 0);
    assert_eq!(cfg.edges.len(), 0);
}

#[test]
fn start_from_main_filters_prefix() {
    let db = &mut TraceDB::new(16);
    db.add_symbol(0x2000, 0x10, "main".to_string());
    ingest_pcs(db, &[(0x1000, 2), (0x2000, 2), (0x2002, 2)]);
    let cfg = db.analyze_cfg(false, true);
    assert_eq!(cfg.blocks.len(), 1);
    assert_eq!(block_addrs(&cfg.blocks[0]), vec![0x2000, 0x2002]);
}

#[test]
fn unknown_size_forces_boundary() {
    let db = &mut TraceDB::new(16);
    // no bytes are cached for clnum 1, so its size is unknown and it
    // conservatively terminates its block
    db.add_change(start_change(1, 0x100));
    db.add_instruction(2, vec![0x90; 2]);
    db.add_change(start_change(2, 0x102));
    let cfg = db.analyze_cfg(false, false);
    assert_eq!(cfg.blocks.len(), 2);
    assert_eq!(block_addrs(&cfg.blocks[0]), vec![0x100]);
    assert_eq!(block_addrs(&cfg.blocks[1]), vec![0x102]);
    assert_eq!(cfg.edges.len(), 1);
    assert_eq!((cfg.edges[0].head, cfg.edges[0].tail), (0, 1));
}

#[test]
fn mermaid_empty() {
    let cfg = ControlFlowGraph { blocks: Vec::new(), edges: Vec::new() };
    assert_eq!(
        cfg.to_mermaid(),
        "graph TD;\n    Empty[\"No User Code / Empty Trace\"];\n"
    );
}

#[test]
fn mermaid_one_block() {
    let block = BasicBlock {
        index: 0,
        instructions: vec![Instruction {
            operation: Operation::Nop,
            address: 0x40,
            mnemonic: "ret".to_string(),
            operands: "".to_string(),
        }],
        symbol: None,
        clnum: 1,
    };
    let edge = koradar_core::Edge { head: 0, tail: 0, condition: None };
    let cfg = ControlFlowGraph { blocks: vec![block], edges: vec![edge] };
    let expected = "graph TD;\n        block0[\"40<br/>40: ret \"];\n        click block0 call onCfgNodeClick(1)\n    block0 --> block0;\n";
    assert_eq!(cfg.to_mermaid(), expected);
}

#[test]
fn mermaid_symbol_group() {
    let block = BasicBlock {
        index: 0,
        instructions: vec![Instruction {
            operation: Operation::Nop,
            address: 0x10,
            mnemonic: "nop".to_string(),
            operands: "".to_string(),
        }],
        symbol: Some("do.work".to_string()),
        clnum: 2,
    };
    let cfg = ControlFlowGraph { blocks: vec![block], edges: Vec::new() };
    let expected = "graph TD;\n    subgraph cluster_do_work [\"do.work\"]\n        block0[\"10<br/>10: nop \"];\n        click block0 call onCfgNodeClick(2)\n    end\n";
    assert_eq!(cfg.to_mermaid(), expected);
}
