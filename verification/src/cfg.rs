//! Control-flow-graph recovery from the trace: leader discovery over the
//! instruction-start stream, block construction, and edge emission, each
//! pass pinned by a functional specification (`spec_cfg_pcs`, `cfg_fold`,
//! `cfg_matches`).

use vstd::prelude::*;

use crate::addr::{rebias, spec_rebias, spec_unbias, unbias};
use crate::change::{is_start, spec_is_start, Change};
use crate::db::{first_sym_containing, first_sym_named, lemma_disassembly_at_same, TraceDB};
use crate::il::{BasicBlock, ControlFlowGraph, Edge, Instruction, Operation};
use crate::kvlist::AddrMap;
use crate::stackvars::is_space;
use crate::strutil::{chars_to_string, string_to_chars};
use crate::vecset::U64Set;

use vstd::string::StringExecFns;

verus! {

/// Addresses within a block's instruction list are unique.
pub open spec fn distinct_addrs(insns: Seq<Instruction>) -> bool {
    forall|a: int, b: int|
        0 <= a < b < insns.len() ==> (#[trigger] insns[a]).address != (#[trigger] insns[b]).address
}

/// A stored block body is well formed for its start address: nonempty, it
/// begins at the start address, and no instruction address repeats.
pub open spec fn good_block(a: u64, insns: Seq<Instruction>) -> bool {
    insns.len() > 0 && insns[0].address == a && distinct_addrs(insns)
}

/// A recovered graph is well formed: every edge endpoint indexes an
/// existing block, indices are dense, every block holds at least one
/// instruction, no address repeats within a block, and blocks are sorted
/// by their first instruction's address.
pub open spec fn cfg_well_formed(g: ControlFlowGraph) -> bool {
    &&& forall|k: int|
        0 <= k < g.edges@.len() ==> (#[trigger] g.edges@[k]).head < g.blocks@.len() && (
        #[trigger] g.edges@[k]).tail < g.blocks@.len()
    &&& forall|i: int| 0 <= i < g.blocks@.len() ==> (#[trigger] g.blocks@[i]).index == i
    &&& forall|i: int|
        0 <= i < g.blocks@.len() ==> (#[trigger] g.blocks@[i]).instructions@.len() > 0
    &&& forall|i: int|
        0 <= i < g.blocks@.len() ==> distinct_addrs((#[trigger] g.blocks@[i]).instructions@)
    &&& forall|i: int, j: int|
        0 <= i < j < g.blocks@.len() ==> (#[trigger] g.blocks@[i]).instructions@[0].address < (
        #[trigger] g.blocks@[j]).instructions@[0].address
}

/// Every stored block body is well formed for its key.
pub open spec fn blocks_good(m: AddrMap<Vec<Instruction>>) -> bool {
    forall|a: u64|
        match #[trigger] m.spec_get(a) {
            Some(v) => good_block(a, v@),
            None => true,
        }
}

/// The instruction-start change passes the CFG filters: it is at or after
/// the chosen minimum clnum, and inside user code when that is requested.
pub open spec fn pc_passes(db: TraceDB, min: u32, only_user: bool, ch: Change) -> bool {
    &&& ch.clnum >= min
    &&& spec_is_start(ch.flags)
    &&& (!only_user || db.spec_is_user_code(ch.address))
}

/// The filtered instruction-start stream of a log prefix, in log order.
pub open spec fn filtered_starts(db: TraceDB, log: Seq<Change>, min: u32, only_user: bool) -> Seq<
    Change,
>
    decreases log.len(),
{
    if log.len() == 0 {
        Seq::empty()
    } else {
        let pre = filtered_starts(db, log.drop_last(), min, only_user);
        if pc_passes(db, min, only_user, log.last()) {
            pre.push(log.last())
        } else {
            pre
        }
    }
}

/// The clnum of the first instruction start at `addr`, in log order.
pub open spec fn first_start_clnum_at(log: Seq<Change>, addr: u64) -> Option<u32>
    decreases log.len(),
{
    if log.len() == 0 {
        None
    } else if spec_is_start(log[0].flags) && log[0].address == addr {
        Some(log[0].clnum)
    } else {
        first_start_clnum_at(log.drop_first(), addr)
    }
}

/// The clnum from which the CFG reads the trace: with `start_from_main`,
/// the clnum of the first execution of the loaded `main` symbol (zero when
/// `main` is absent or never ran), else zero.
pub open spec fn spec_cfg_min_clnum(db: TraceDB, start_from_main: bool) -> u32 {
    if !start_from_main {
        0
    } else {
        let i = first_sym_named(db.symbols@, "main"@);
        if i >= 0 {
            match first_start_clnum_at(db.changes@, spec_rebias(db.symbols@[i].start, db.bias)) {
                Some(c) => c,
                None => 0,
            }
        } else {
            0
        }
    }
}

/// The instruction-start stream the CFG recovery works on.
pub open spec fn spec_cfg_pcs(db: TraceDB, only_user: bool, start_from_main: bool) -> Seq<Change> {
    filtered_starts(db, db.changes@, spec_cfg_min_clnum(db, start_from_main), only_user)
}

/// The trace falls through from `curr` to `next`: `curr`'s cached bytes
/// are present and `next` starts right after them.
pub open spec fn spec_sequential(db: TraceDB, curr: Change, next: Change) -> bool {
    match db.insn_bytes(curr.clnum) {
        Some(b) => b.len() > 0 && next.address >= curr.address && next.address - curr.address
            == b.len(),
        None => false,
    }
}

/// The clnum at which `a` is first discovered as a leader among the
/// transition pairs before position `hi`, if any (pass 1 keeps the first
/// observation).
pub open spec fn leader_clnum_prefix(db: TraceDB, pcs: Seq<Change>, a: u64, hi: int) -> Option<u32>
    decreases hi,
{
    if hi <= 0 {
        None
    } else if leader_clnum_prefix(db, pcs, a, hi - 1) is Some {
        leader_clnum_prefix(db, pcs, a, hi - 1)
    } else if !spec_sequential(db, pcs[hi - 1], pcs[hi]) && pcs[hi].address == a {
        Some(pcs[hi].clnum)
    } else {
        None
    }
}

/// The clnum at which leader address `a` is first observed: the stream's
/// first pc counts, then every non-sequential transition target.
pub open spec fn spec_leader_clnum(db: TraceDB, pcs: Seq<Change>, a: u64) -> Option<u32> {
    if pcs.len() > 0 && pcs[0].address == a {
        Some(pcs[0].clnum)
    } else {
        leader_clnum_prefix(db, pcs, a, pcs.len() - 1)
    }
}

/// `a` is a leader: a block starts there.
pub open spec fn spec_is_leader(db: TraceDB, pcs: Seq<Change>, a: u64) -> bool {
    spec_leader_clnum(db, pcs, a) is Some
}

/// Some transition pair before position `hi` leaves `a` non-sequentially.
pub open spec fn term_prefix(db: TraceDB, pcs: Seq<Change>, a: u64, hi: int) -> bool {
    exists|i: int|
        0 <= i < hi && !spec_sequential(db, pcs[i], pcs[i + 1]) && (#[trigger] pcs[i]).address == a
}

/// `a` terminates a block: some occurrence of it was observed to jump.
pub open spec fn spec_is_terminator(db: TraceDB, pcs: Seq<Change>, a: u64) -> bool {
    term_prefix(db, pcs, a, pcs.len() - 1)
}

/// The first-execution clnum attached to the block at `a` (zero when `a`
/// was never discovered as a leader).
pub open spec fn spec_block_clnum(db: TraceDB, pcs: Seq<Change>, a: u64) -> u32 {
    match spec_leader_clnum(db, pcs, a) {
        Some(c) => c,
        None => 0,
    }
}

/// The first position at or after `i` that ends a whitespace run.
pub open spec fn skip_ws(v: Seq<char>, i: int) -> int
    decreases v.len() - i,
{
    if i < 0 || i >= v.len() || !is_space(v[i]) {
        i
    } else {
        skip_ws(v, i + 1)
    }
}

/// The first position at or after `i` that ends a non-whitespace run.
pub open spec fn skip_nonws(v: Seq<char>, i: int) -> int
    decreases v.len() - i,
{
    if i < 0 || i >= v.len() || is_space(v[i]) {
        i
    } else {
        skip_nonws(v, i + 1)
    }
}

/// The end of the text once trailing whitespace before `re` is dropped,
/// never below `rs`.
pub open spec fn trim_end(v: Seq<char>, rs: int, re: int) -> int
    decreases re - rs,
{
    if re <= rs || !is_space(v[re - 1]) {
        re
    } else {
        trim_end(v, rs, re - 1)
    }
}

/// The mnemonic of a disassembly text: its first whitespace-separated
/// token, `???` when there is none.
pub open spec fn spec_mnemonic_of(t: Seq<char>) -> Seq<char> {
    let s = skip_ws(t, 0);
    if s >= t.len() {
        "???"@
    } else {
        t.subrange(s, skip_nonws(t, s))
    }
}

/// The operand text of a disassembly text: what follows the mnemonic,
/// surrounding whitespace dropped.
pub open spec fn spec_operands_of(t: Seq<char>) -> Seq<char> {
    let s = skip_ws(t, 0);
    if s >= t.len() {
        Seq::empty()
    } else {
        let e = skip_nonws(t, s);
        let rs = skip_ws(t, e);
        t.subrange(rs, trim_end(t, rs, t.len() as int))
    }
}

/// The recovered form of an instruction: address, mnemonic, operand text.
pub type InsnForm = (u64, Seq<char>, Seq<char>);

/// Pass-2 state: the open block's start, its instructions, the closed
/// blocks keyed by start address, and the emitted edges as address pairs.
pub type CfgFoldState = (u64, Seq<InsnForm>, Map<u64, Seq<InsnForm>>, Seq<(u64, u64)>);

/// The recovered form of the instruction executed at `ch`.
pub open spec fn spec_insn_of(db: TraceDB, ch: Change) -> InsnForm {
    let t = db.spec_disassembly_at(ch.clnum);
    (ch.address, spec_mnemonic_of(t), spec_operands_of(t))
}

/// An executable instruction record carries the recovered form `m`.
pub open spec fn insn_matches(i: Instruction, m: InsnForm) -> bool {
    &&& i.operation is Nop
    &&& i.address == m.0
    &&& i.mnemonic@ == m.1
    &&& i.operands@ == m.2
}

/// A recorded instruction list carries the recovered forms `m`, in order.
pub open spec fn insns_match(v: Seq<Instruction>, m: Seq<InsnForm>) -> bool {
    v.len() == m.len() && forall|k: int| 0 <= k < v.len() ==> insn_matches(#[trigger] v[k], m[k])
}

/// Append an instruction unless its address is already recorded (blocks
/// are deduplicated by address, first occurrence kept).
pub open spec fn model_push(m: Seq<InsnForm>, ins: InsnForm) -> Seq<InsnForm> {
    if exists|k: int| 0 <= k < m.len() && (#[trigger] m[k]).0 == ins.0 {
        m
    } else {
        m.push(ins)
    }
}

/// Append an edge unless it is already present (edges are a set).
pub open spec fn spec_edge_insert(es: Seq<(u64, u64)>, e: (u64, u64)) -> Seq<(u64, u64)> {
    if es.contains(e) {
        es
    } else {
        es.push(e)
    }
}

/// One pass-2 step on the `i`-th filtered pc: close the open block and
/// emit a fall-into-leader edge when a new leader is reached; record the
/// instruction once per address; on a terminator, close the block and emit
/// an edge to whatever runs next.
pub open spec fn cfg_step(db: TraceDB, pcs: Seq<Change>, i: int, s: CfgFoldState) -> CfgFoldState {
    let curr = pcs[i];
    let s1 = if spec_is_leader(db, pcs, curr.address) && curr.address != s.0 {
        (
            curr.address,
            Seq::<InsnForm>::empty(),
            s.2.insert(s.0, s.1),
            spec_edge_insert(s.3, (s.0, curr.address)),
        )
    } else {
        s
    };
    let s2 = (s1.0, model_push(s1.1, spec_insn_of(db, curr)), s1.2, s1.3);
    if i + 1 < pcs.len() && spec_is_terminator(db, pcs, curr.address) {
        (
            pcs[i + 1].address,
            Seq::<InsnForm>::empty(),
            s2.2.insert(s2.0, s2.1),
            spec_edge_insert(s2.3, (s2.0, pcs[i + 1].address)),
        )
    } else {
        s2
    }
}

/// Pass-2 state after the first `i` filtered pcs.
pub open spec fn cfg_fold(db: TraceDB, pcs: Seq<Change>, i: int) -> CfgFoldState
    decreases i,
{
    if i <= 0 {
        (
            pcs[0].address,
            Seq::<InsnForm>::empty(),
            Map::<u64, Seq<InsnForm>>::empty(),
            Seq::<(u64, u64)>::empty(),
        )
    } else {
        cfg_step(db, pcs, i - 1, cfg_fold(db, pcs, i - 1))
    }
}

/// The closed blocks once the whole stream is walked and the last open
/// block is flushed.
pub open spec fn spec_cfg_blocks(db: TraceDB, pcs: Seq<Change>) -> Map<u64, Seq<InsnForm>> {
    let s = cfg_fold(db, pcs, pcs.len() as int);
    s.2.insert(s.0, s.1)
}

/// The emitted edges, as ordered deduplicated address pairs.
pub open spec fn spec_cfg_edges(db: TraceDB, pcs: Seq<Change>) -> Seq<(u64, u64)> {
    cfg_fold(db, pcs, pcs.len() as int).3
}

/// A block's start address: that of its first instruction.
pub open spec fn block_start(b: BasicBlock) -> u64 {
    b.instructions@[0].address
}

/// Some block of `blocks` starts at `a`.
pub open spec fn has_block(blocks: Seq<BasicBlock>, a: u64) -> bool {
    exists|i: int| 0 <= i < blocks.len() && block_start(#[trigger] blocks[i]) == a
}

/// The index of the block starting at `a` (meaningful when `has_block`).
pub open spec fn block_index_of(blocks: Seq<BasicBlock>, a: u64) -> int {
    choose|i: int| 0 <= i < blocks.len() && block_start(#[trigger] blocks[i]) == a
}

/// The edges re-keyed to block indices, in emission order: an edge whose
/// endpoints both name existing blocks becomes an index pair, the rest are
/// dropped.
pub open spec fn spec_edges_out(blocks: Seq<BasicBlock>, es: Seq<(u64, u64)>) -> Seq<Edge>
    decreases es.len(),
{
    if es.len() == 0 {
        Seq::empty()
    } else {
        let pre = spec_edges_out(blocks, es.drop_last());
        let e = es.last();
        if has_block(blocks, e.0) && has_block(blocks, e.1) {
            pre.push(
                Edge {
                    head: block_index_of(blocks, e.0) as usize,
                    tail: block_index_of(blocks, e.1) as usize,
                    condition: None,
                },
            )
        } else {
            pre
        }
    }
}

/// The symbol attached to the block at runtime address `a`: the name of
/// the first loaded symbol containing the bias-normalized address, if any.
pub open spec fn symbol_matches(db: TraceDB, a: u64, s: Option<String>) -> bool {
    let i = first_sym_containing(db.symbols@, spec_unbias(a, db.bias));
    match s {
        Some(n) => i >= 0 && n@ == db.symbols@[i].name@,
        None => i == -1,
    }
}

/// The executable block store carries exactly the model map: same keys,
/// and each stored body carries the model's instruction forms.
pub open spec fn map_models(m: AddrMap<Vec<Instruction>>, g: Map<u64, Seq<InsnForm>>) -> bool {
    forall|a: u64|
        match #[trigger] m.spec_get(a) {
            Some(v) => g.dom().contains(a) && insns_match(v@, g[a]),
            None => !g.dom().contains(a),
        }
}

/// The recovered graph is exactly what the two-pass recovery prescribes
/// for the filtered stream: one block per flushed start address, sorted by
/// address with dense indices, each with its deduplicated instructions,
/// containing symbol, and first-seen clnum; and the emitted edges re-keyed
/// to block indices in emission order. An empty filtered stream yields the
/// empty graph.
pub open spec fn cfg_matches(
    db: TraceDB,
    only_user: bool,
    start_from_main: bool,
    r: ControlFlowGraph,
) -> bool {
    let pcs = spec_cfg_pcs(db, only_user, start_from_main);
    if pcs.len() == 0 {
        r.blocks@.len() == 0 && r.edges@.len() == 0
    } else {
        let g = spec_cfg_blocks(db, pcs);
        &&& forall|a: u64| #[trigger] g.dom().contains(a) ==> has_block(r.blocks@, a)
        &&& forall|i: int|
            0 <= i < r.blocks@.len() ==> {
                &&& g.dom().contains(block_start(#[trigger] r.blocks@[i]))
                &&& insns_match(r.blocks@[i].instructions@, g[block_start(r.blocks@[i])])
                &&& symbol_matches(db, block_start(r.blocks@[i]), r.blocks@[i].symbol)
                &&& r.blocks@[i].clnum == spec_block_clnum(db, pcs, block_start(r.blocks@[i]))
            }
        &&& r.edges@ == spec_edges_out(r.blocks@, spec_cfg_edges(db, pcs))
    }
}

/// Pairwise-distinct edge list.
pub open spec fn edges_distinct(es: Seq<(u64, u64)>) -> bool {
    forall|p: int, q: int| 0 <= p < q < es.len() ==> (#[trigger] es[p]) != (#[trigger] es[q])
}

fn is_ws(c: char) -> (r: bool)
    ensures
        r == is_space(c),
{
    c == ' ' || c == '\t' || c == '\n' || c == '\r' || c == '\u{b}' || c == '\u{c}'
}

/// Split disassembly text into its mnemonic (first whitespace-separated
/// token, `???` when there is none) and the remaining operand text.
fn split_disasm(text: &String) -> (r: (String, String))
    ensures
        r.0@ == spec_mnemonic_of(text@),
        r.1@ == spec_operands_of(text@),
{
    let v = string_to_chars(text.as_str());
    let n = v.len();
    let mut s: usize = 0;
    while s < n && is_ws(v[s])
        invariant
            n == v@.len(),
            v@ == text@,
            s <= n,
            skip_ws(v@, 0) == skip_ws(v@, s as int),
        decreases n - s,
    {
        proof {
            assert(skip_ws(v@, s as int) == skip_ws(v@, s as int + 1));
        }
        s = s + 1;
    }
    proof {
        assert(skip_ws(v@, 0) == s as int);
    }
    if s == n {
        return (String::from_str("???"), String::new());
    }
    let mut e: usize = s;
    while e < n && !is_ws(v[e])
        invariant
            n == v@.len(),
            v@ == text@,
            s <= e <= n,
            skip_nonws(v@, s as int) == skip_nonws(v@, e as int),
        decreases n - e,
    {
        proof {
            assert(skip_nonws(v@, e as int) == skip_nonws(v@, e as int + 1));
        }
        e = e + 1;
    }
    proof {
        assert(skip_nonws(v@, s as int) == e as int);
    }
    let mut mchars: Vec<char> = Vec::new();
    proof {
        assert(mchars@ =~= v@.subrange(s as int, s as int));
    }
    let mut k: usize = s;
    while k < e
        invariant
            s <= k <= e <= n,
            n == v@.len(),
            v@ == text@,
            mchars@ == v@.subrange(s as int, k as int),
        decreases e - k,
    {
        mchars.push(v[k]);
        proof {
            assert(v@.subrange(s as int, k + 1) =~= v@.subrange(s as int, k as int).push(
                v@[k as int],
            ));
        }
        k = k + 1;
    }
    let mut rs: usize = e;
    while rs < n && is_ws(v[rs])
        invariant
            e <= rs <= n,
            n == v@.len(),
            v@ == text@,
            skip_ws(v@, e as int) == skip_ws(v@, rs as int),
        decreases n - rs,
    {
        proof {
            assert(skip_ws(v@, rs as int) == skip_ws(v@, rs as int + 1));
        }
        rs = rs + 1;
    }
    proof {
        assert(skip_ws(v@, e as int) == rs as int);
    }
    let mut re: usize = n;
    while re > rs && is_ws(v[re - 1])
        invariant
            rs <= re <= n,
            n == v@.len(),
            v@ == text@,
            trim_end(v@, rs as int, n as int) == trim_end(v@, rs as int, re as int),
        decreases re,
    {
        proof {
            assert(trim_end(v@, rs as int, re as int) == trim_end(v@, rs as int, re as int - 1));
        }
        re = re - 1;
    }
    proof {
        assert(trim_end(v@, rs as int, n as int) == re as int);
    }
    let mut ochars: Vec<char> = Vec::new();
    proof {
        assert(ochars@ =~= v@.subrange(rs as int, rs as int));
    }
    let mut k2: usize = rs;
    while k2 < re
        invariant
            rs <= k2 <= re <= n,
            n == v@.len(),
            v@ == text@,
            ochars@ == v@.subrange(rs as int, k2 as int),
        decreases re - k2,
    {
        ochars.push(v[k2]);
        proof {
            assert(v@.subrange(rs as int, k2 + 1) =~= v@.subrange(rs as int, k2 as int).push(
                v@[k2 as int],
            ));
        }
        k2 = k2 + 1;
    }
    (chars_to_string(&mchars), chars_to_string(&ochars))
}

/// Whether `insns` already records an instruction at `addr`.
fn contains_addr(insns: &Vec<Instruction>, addr: u64) -> (r: bool)
    ensures
        r == exists|i: int| 0 <= i < insns@.len() && (#[trigger] insns@[i]).address == addr,
{
    let n = insns.len();
    let mut i: usize = 0;
    while i < n
        invariant
            n == insns@.len(),
            i <= n,
            forall|k: int| 0 <= k < i ==> (#[trigger] insns@[k]).address != addr,
        decreases n - i,
    {
        if insns[i].address == addr {
            return true;
        }
        i = i + 1;
    }
    false
}

/// Record an edge unless it is already present (edges are a set).
fn edge_insert(v: &mut Vec<(u64, u64)>, e: (u64, u64))
    ensures
        final(v)@ == spec_edge_insert(old(v)@, e),
{
    let n = v.len();
    let mut i: usize = 0;
    while i < n
        invariant
            n == v@.len(),
            *v == *old(v),
            i <= n,
            forall|k: int| 0 <= k < i ==> (#[trigger] v@[k]) != e,
        decreases n - i,
    {
        if v[i].0 == e.0 && v[i].1 == e.1 {
            proof {
                assert(v@[i as int] == e);
                assert(v@.contains(e));
            }
            return ;
        }
        i = i + 1;
    }
    proof {
        assert(!v@.contains(e)) by {
            if v@.contains(e) {
                let k = choose|k: int| 0 <= k < v@.len() && v@[k] == e;
            }
        }
    }
    v.push(e);
}

/// The position of `x` in the sorted start list, if present.
fn find_index(s: &U64Set, x: u64) -> (r: Option<usize>)
    ensures
        r matches Some(i) ==> i < s.v@.len() && s.v@[i as int] == x,
        r is None ==> forall|k: int| 0 <= k < s.v@.len() ==> (#[trigger] s.v@[k]) != x,
{
    let n = s.v.len();
    let mut i: usize = 0;
    while i < n
        invariant
            n == s.v@.len(),
            i <= n,
            forall|k: int| 0 <= k < i ==> (#[trigger] s.v@[k]) != x,
        decreases n - i,
    {
        if s.v[i] == x {
            return Some(i);
        }
        i = i + 1;
    }
    None
}

impl TraceDB {
    /// The trace falls through from `curr` to `next`: `curr`'s cached
    /// bytes are present and `next` starts right after them.
    fn is_sequential(&self, curr: Change, next: Change) -> (r: bool)
        requires
            self.instructions.inv(),
        ensures
            r == spec_sequential(*self, curr, next),
    {
        match self.instructions.get(curr.clnum) {
            Some(b) => {
                let blen = b.len() as u64;
                blen > 0 && next.address >= curr.address && next.address - curr.address == blen
            },
            None => false,
        }
    }

    /// Recover the control-flow graph from the instruction-start stream:
    /// leaders are the first filtered pc and every observed jump target;
    /// an instruction observed to jump ends its block wherever it appears
    /// (an unknown-size instruction counts as a jump); blocks collect the
    /// instructions run between leaders, deduplicated by address; edges
    /// connect a closing block to what runs next.
    /// The result is pinned by `cfg_matches`: blocks come out sorted by
    /// their first instruction's address with dense indices, holding
    /// exactly the recovered instructions, symbol and first-seen clnum,
    /// and the edges are the emitted pairs re-keyed to block indices with
    /// no duplicates.
    pub fn analyze_cfg(&mut self, only_user_code: bool, start_from_main: bool) -> (r:
        ControlFlowGraph)
        requires
            old(self).inv(),
        ensures
            final(self).inv(),
            *final(self) == (TraceDB { insn_cache: final(self).insn_cache, ..*old(self) }),
            cfg_well_formed(r),
            cfg_matches(*old(self), only_user_code, start_from_main, r),
            forall|p: int, q: int|
                0 <= p < q < r.edges@.len() ==> !((#[trigger] r.edges@[p]).head == (
                #[trigger] r.edges@[q]).head && r.edges@[p].tail == r.edges@[q].tail),
            (!only_user_code && !start_from_main && exists|i: int|
                0 <= i < old(self).changes@.len() && spec_is_start(
                    (#[trigger] old(self).changes@[i]).flags,
                )) ==> r.blocks@.len() > 0,
    {
        let ghost db0 = *old(self);
        let mut min_clnum: u32 = 0;
        if start_from_main {
            match self.find_symbol_by_name("main") {
                Some(static_addr) => {
                    let run_addr = rebias(static_addr, self.bias);
                    let n0 = self.changes.len();
                    proof {
                        assert(self.changes@.skip(0) =~= self.changes@);
                    }
                    let mut i0: usize = 0;
                    let mut found = false;
                    while i0 < n0 && !found
                        invariant
                            n0 == self.changes@.len(),
                            i0 <= n0,
                            *self == db0,
                            !found ==> min_clnum == 0 && first_start_clnum_at(self.changes@, run_addr)
                                == first_start_clnum_at(self.changes@.skip(i0 as int), run_addr),
                            found ==> first_start_clnum_at(self.changes@, run_addr) == Some(
                                min_clnum,
                            ),
                        decreases n0 - i0,
                    {
                        let ch = self.changes[i0];
                        proof {
                            assert(self.changes@.skip(i0 as int)[0] == ch);
                            assert(self.changes@.skip(i0 as int).drop_first()
                                =~= self.changes@.skip(i0 as int + 1));
                        }
                        if ch.address == run_addr && is_start(ch.flags) {
                            min_clnum = ch.clnum;
                            found = true;
                        }
                        i0 = i0 + 1;
                    }
                    proof {
                        if !found {
                            assert(self.changes@.skip(n0 as int) =~= Seq::<Change>::empty());
                            assert(first_start_clnum_at(self.changes@, run_addr) is None);
                        }
                        assert(min_clnum == spec_cfg_min_clnum(db0, start_from_main));
                    }
                },
                None => {
                    proof {
                        assert(min_clnum == spec_cfg_min_clnum(db0, start_from_main));
                    }
                },
            }
        }
        proof {
            assert(min_clnum == spec_cfg_min_clnum(db0, start_from_main));
        }
        let mut pcs: Vec<Change> = Vec::new();
        let n = self.changes.len();
        proof {
            assert(pcs@ =~= filtered_starts(db0, self.changes@.take(0), min_clnum, only_user_code));
        }
        let mut i: usize = 0;
        while i < n
            invariant
                old(self).inv(),
                self.inv(),
                *self == *old(self),
                db0 == *old(self),
                n == self.changes@.len(),
                i <= n,
                min_clnum == spec_cfg_min_clnum(db0, start_from_main),
                pcs@ == filtered_starts(
                    db0,
                    self.changes@.take(i as int),
                    min_clnum,
                    only_user_code,
                ),
                (!only_user_code && min_clnum == 0) ==> ((exists|k: int|
                    0 <= k < i && spec_is_start((#[trigger] self.changes@[k]).flags)) ==> pcs@.len()
                    > 0),
            decreases n - i,
        {
            let ch = self.changes[i];
            proof {
                assert(self.changes@.take(i as int + 1).drop_last() =~= self.changes@.take(
                    i as int,
                ));
                assert(self.changes@.take(i as int + 1).last() == ch);
            }
            if ch.clnum >= min_clnum && is_start(ch.flags) {
                if !only_user_code || self.is_user_code(ch.address) {
                    pcs.push(ch);
                    proof {
                        assert(pc_passes(db0, min_clnum, only_user_code, ch));
                    }
                } else {
                    proof {
                        assert(!pc_passes(db0, min_clnum, only_user_code, ch));
                    }
                }
            } else {
                proof {
                    assert(!pc_passes(db0, min_clnum, only_user_code, ch));
                }
            }
            i = i + 1;
        }
        proof {
            assert(self.changes@.take(n as int) =~= self.changes@);
            assert(pcs@ == spec_cfg_pcs(db0, only_user_code, start_from_main));
        }
        if pcs.len() == 0 {
            proof {
                if !only_user_code && !start_from_main {
                    if exists|k: int|
                        0 <= k < self.changes@.len() && spec_is_start(
                            (#[trigger] self.changes@[k]).flags,
                        ) {
                        assert(pcs@.len() > 0);
                    }
                }
            }
            return ControlFlowGraph { blocks: Vec::new(), edges: Vec::new() };
        }

        let mut block_starts = U64Set::new();
        let mut terminators = U64Set::new();
        let mut first_clnum: AddrMap<u32> = AddrMap::new();
        block_starts.insert(pcs[0].address);
        first_clnum.insert_if_absent(pcs[0].address, pcs[0].clnum);
        let np = pcs.len();
        proof {
            assert forall|a: u64| #[trigger] block_starts.set_of().contains(a) <==> (a
                == pcs@[0].address || leader_clnum_prefix(db0, pcs@, a, 0) is Some) by {}
            assert forall|a: u64| #[trigger] first_clnum.spec_get(a) == (if pcs@[0].address == a {
                Some(pcs@[0].clnum)
            } else {
                leader_clnum_prefix(db0, pcs@, a, 0)
            }) by {}
        }
        let mut i1: usize = 0;
        while i1 < np - 1
            invariant
                old(self).inv(),
                self.inv(),
                *self == *old(self),
                db0 == *old(self),
                np == pcs@.len(),
                np > 0,
                i1 <= np - 1,
                block_starts.inv(),
                terminators.inv(),
                first_clnum.inv(),
                forall|a: u64| #[trigger]
                    block_starts.set_of().contains(a) <==> (a == pcs@[0].address
                        || leader_clnum_prefix(db0, pcs@, a, i1 as int) is Some),
                forall|a: u64| #[trigger]
                    terminators.set_of().contains(a) <==> term_prefix(db0, pcs@, a, i1 as int),
                forall|a: u64| #[trigger]
                    first_clnum.spec_get(a) == (if pcs@[0].address == a {
                        Some(pcs@[0].clnum)
                    } else {
                        leader_clnum_prefix(db0, pcs@, a, i1 as int)
                    }),
            decreases np - i1,
        {
            let curr = pcs[i1];
            let next = pcs[i1 + 1];
            let seq_step = self.is_sequential(curr, next);
            proof {
                assert(seq_step == spec_sequential(db0, pcs@[i1 as int], pcs@[i1 + 1]));
            }
            if !seq_step {
                let ghost bs0 = block_starts;
                let ghost tm0 = terminators;
                let ghost fc0 = first_clnum;
                block_starts.insert(next.address);
                first_clnum.insert_if_absent(next.address, next.clnum);
                terminators.insert(curr.address);
                proof {
                    assert forall|a: u64| #[trigger] block_starts.set_of().contains(a) <==> (a
                        == pcs@[0].address || leader_clnum_prefix(db0, pcs@, a, i1 + 1) is Some) by {
                        if a == next.address {
                            assert(leader_clnum_prefix(db0, pcs@, a, i1 + 1) is Some);
                        } else {
                            assert(leader_clnum_prefix(db0, pcs@, a, i1 + 1)
                                == leader_clnum_prefix(db0, pcs@, a, i1 as int));
                            assert(block_starts.set_of().contains(a) == bs0.set_of().contains(a));
                        }
                    }
                    assert forall|a: u64| #[trigger] terminators.set_of().contains(a)
                        <==> term_prefix(db0, pcs@, a, i1 + 1) by {
                        if a == curr.address {
                            assert(!spec_sequential(db0, pcs@[i1 as int], pcs@[i1 + 1])
                                && pcs@[i1 as int].address == a);
                            assert(term_prefix(db0, pcs@, a, i1 + 1));
                        } else {
                            assert(terminators.set_of().contains(a) == tm0.set_of().contains(a));
                            assert(term_prefix(db0, pcs@, a, i1 + 1) == term_prefix(
                                db0,
                                pcs@,
                                a,
                                i1 as int,
                            )) by {
                                if term_prefix(db0, pcs@, a, i1 + 1) {
                                    let w = choose|w: int|
                                        0 <= w < i1 + 1 && !spec_sequential(
                                            db0,
                                            pcs@[w],
                                            pcs@[w + 1],
                                        ) && (#[trigger] pcs@[w]).address == a;
                                    assert(w < i1);
                                }
                            }
                        }
                    }
                    assert forall|a: u64| #[trigger] first_clnum.spec_get(a) == (if pcs@[0].address
                        == a {
                        Some(pcs@[0].clnum)
                    } else {
                        leader_clnum_prefix(db0, pcs@, a, i1 + 1)
                    }) by {
                        if a == next.address {
                            if pcs@[0].address == a {
                                assert(fc0.spec_get(a) is Some);
                                assert(fc0.has(a));
                                assert(first_clnum.spec_get(a) == fc0.spec_get(a));
                            } else {
                                match fc0.spec_get(a) {
                                    Some(c) => {
                                        assert(fc0.has(a));
                                        assert(first_clnum.spec_get(a) == fc0.spec_get(a));
                                        assert(leader_clnum_prefix(db0, pcs@, a, i1 + 1)
                                            == leader_clnum_prefix(db0, pcs@, a, i1 as int));
                                    },
                                    None => {
                                        assert(!fc0.has(a));
                                        assert(first_clnum.spec_get(a) == Some(next.clnum));
                                        assert(leader_clnum_prefix(db0, pcs@, a, i1 as int)
                                            is None);
                                        assert(leader_clnum_prefix(db0, pcs@, a, i1 + 1) == Some(
                                            pcs@[i1 + 1].clnum,
                                        ));
                                    },
                                }
                            }
                        } else {
                            assert(first_clnum.spec_get(a) == fc0.spec_get(a));
                            assert(leader_clnum_prefix(db0, pcs@, a, i1 + 1)
                                == leader_clnum_prefix(db0, pcs@, a, i1 as int));
                        }
                    }
                }
            } else {
                proof {
                    assert forall|a: u64| #[trigger] block_starts.set_of().contains(a) <==> (a
                        == pcs@[0].address || leader_clnum_prefix(db0, pcs@, a, i1 + 1) is Some) by {
                        assert(leader_clnum_prefix(db0, pcs@, a, i1 + 1) == leader_clnum_prefix(
                            db0,
                            pcs@,
                            a,
                            i1 as int,
                        ));
                    }
                    assert forall|a: u64| #[trigger] terminators.set_of().contains(a)
                        <==> term_prefix(db0, pcs@, a, i1 + 1) by {
                        assert(term_prefix(db0, pcs@, a, i1 + 1) == term_prefix(
                            db0,
                            pcs@,
                            a,
                            i1 as int,
                        )) by {
                            if term_prefix(db0, pcs@, a, i1 + 1) {
                                let w = choose|w: int|
                                    0 <= w < i1 + 1 && !spec_sequential(db0, pcs@[w], pcs@[w + 1])
                                        && (#[trigger] pcs@[w]).address == a;
                                assert(w < i1);
                            }
                        }
                    }
                    assert forall|a: u64| #[trigger] first_clnum.spec_get(a) == (if pcs@[0].address
                        == a {
                        Some(pcs@[0].clnum)
                    } else {
                        leader_clnum_prefix(db0, pcs@, a, i1 + 1)
                    }) by {
                        assert(leader_clnum_prefix(db0, pcs@, a, i1 + 1) == leader_clnum_prefix(
                            db0,
                            pcs@,
                            a,
                            i1 as int,
                        ));
                    }
                }
            }
            i1 = i1 + 1;
        }
        proof {
            assert(i1 == np - 1);
            assert forall|a: u64| #[trigger] block_starts.set_of().contains(a) == spec_is_leader(
                db0,
                pcs@,
                a,
            ) by {}
            assert forall|a: u64| #[trigger] terminators.set_of().contains(a)
                == spec_is_terminator(db0, pcs@, a) by {}
            assert forall|a: u64| #[trigger] first_clnum.spec_get(a) == spec_leader_clnum(
                db0,
                pcs@,
                a,
            ) by {}
        }

        let mut final_blocks: AddrMap<Vec<Instruction>> = AddrMap::new();
        let mut starts_list = U64Set::new();
        let mut edge_list: Vec<(u64, u64)> = Vec::new();
        let mut current_start: u64 = pcs[0].address;
        let mut current: Vec<Instruction> = Vec::new();
        proof {
            assert(insns_match(current@, cfg_fold(db0, pcs@, 0).1));
            assert(map_models(final_blocks, cfg_fold(db0, pcs@, 0).2)) by {
                assert forall|a: u64|
                    match #[trigger] final_blocks.spec_get(a) {
                        Some(v) => cfg_fold(db0, pcs@, 0).2.dom().contains(a) && insns_match(
                            v@,
                            cfg_fold(db0, pcs@, 0).2[a],
                        ),
                        None => !cfg_fold(db0, pcs@, 0).2.dom().contains(a),
                    } by {
                    assert(final_blocks.spec_get(a) is None);
                    assert(!Map::<u64, Seq<InsnForm>>::empty().dom().contains(a));
                }
            }
            assert(edge_list@ =~= cfg_fold(db0, pcs@, 0).3);
        }
        let mut i2: usize = 0;
        while i2 < np
            invariant
                old(self).inv(),
                self.inv(),
                *self == (TraceDB { insn_cache: self.insn_cache, ..*old(self) }),
                db0 == *old(self),
                np == pcs@.len(),
                np > 0,
                i2 <= np,
                block_starts.inv(),
                final_blocks.inv(),
                starts_list.inv(),
                blocks_good(final_blocks),
                forall|a: u64| #![all_triggers] starts_list.set_of().contains(a)
                    == final_blocks.has(a),
                current@.len() == 0 ==> i2 < np && current_start == pcs@[i2 as int].address,
                current@.len() > 0 ==> good_block(current_start, current@),
                forall|a: u64| #[trigger]
                    block_starts.set_of().contains(a) == spec_is_leader(db0, pcs@, a),
                forall|a: u64| #[trigger]
                    terminators.set_of().contains(a) == spec_is_terminator(db0, pcs@, a),
                forall|a: u64| #[trigger]
                    first_clnum.spec_get(a) == spec_leader_clnum(db0, pcs@, a),
                first_clnum.inv(),
                current_start == cfg_fold(db0, pcs@, i2 as int).0,
                insns_match(current@, cfg_fold(db0, pcs@, i2 as int).1),
                map_models(final_blocks, cfg_fold(db0, pcs@, i2 as int).2),
                edge_list@ == cfg_fold(db0, pcs@, i2 as int).3,
                edges_distinct(edge_list@),
            decreases np - i2,
        {
            let ghost s0 = cfg_fold(db0, pcs@, i2 as int);
            let curr = pcs[i2];
            let ghost s1 = (if spec_is_leader(db0, pcs@, curr.address) && curr.address != s0.0 {
                (
                    curr.address,
                    Seq::<InsnForm>::empty(),
                    s0.2.insert(s0.0, s0.1),
                    spec_edge_insert(s0.3, (s0.0, curr.address)),
                )
            } else {
                s0
            });
            if block_starts.contains(curr.address) && curr.address != current_start {
                let ghost mgold = final_blocks;
                proof {
                    assert(current@.len() > 0) by {
                        if current@.len() == 0 {
                            assert(current_start == pcs@[i2 as int].address);
                        }
                    }
                }
                let ghost key = current_start;
                final_blocks.insert(current_start, current);
                starts_list.insert(current_start);
                proof {
                    lemma_blocks_good_insert(mgold, final_blocks, current_start);
                    assert forall|a: u64| #![all_triggers] starts_list.set_of().contains(a)
                        == final_blocks.has(a) by {
                        if a == key {
                            assert(final_blocks.spec_get(a) is Some);
                        } else {
                            assert(final_blocks.spec_get(a) == mgold.spec_get(a));
                        }
                    }
                    assert(map_models(final_blocks, s1.2)) by {
                        assert forall|a: u64|
                            match #[trigger] final_blocks.spec_get(a) {
                                Some(v) => s1.2.dom().contains(a) && insns_match(v@, s1.2[a]),
                                None => !s1.2.dom().contains(a),
                            } by {
                            if a == key {
                                assert(final_blocks.spec_get(a) == Some(current));
                                assert(s1.2[a] == s0.1);
                            } else {
                                assert(final_blocks.spec_get(a) == mgold.spec_get(a));
                                assert(s1.2.dom().contains(a) == s0.2.dom().contains(a));
                                if s0.2.dom().contains(a) {
                                    assert(s1.2[a] == s0.2[a]);
                                }
                            }
                        }
                    }
                }
                edge_insert(&mut edge_list, (current_start, curr.address));
                current_start = curr.address;
                current = Vec::new();
                proof {
                    lemma_edge_insert_distinct(s0.3, (key, curr.address));
                    assert(current_start == s1.0);
                    assert(insns_match(current@, s1.1));
                    assert(edge_list@ == s1.3);
                }
            } else {
                proof {
                    assert(s1 == s0);
                }
            }
            let ghost mid = *self;
            let text = self.get_disassembly_at(curr.clnum);
            proof {
                lemma_disassembly_at_same(mid, db0, curr.clnum);
                assert(text@ == db0.spec_disassembly_at(curr.clnum));
            }
            let sp = split_disasm(&text);
            let ghost ins_model = spec_insn_of(db0, curr);
            let ghost s2 = (s1.0, model_push(s1.1, ins_model), s1.2, s1.3);
            let dup = contains_addr(&current, curr.address);
            proof {
                assert(dup == (exists|k: int|
                    0 <= k < s1.1.len() && (#[trigger] s1.1[k]).0 == curr.address)) by {
                    if dup {
                        let w = choose|w: int|
                            0 <= w < current@.len() && (#[trigger] current@[w]).address
                                == curr.address;
                        assert(insn_matches(current@[w], s1.1[w]));
                        assert(s1.1[w].0 == curr.address);
                    }
                    if exists|k: int| 0 <= k < s1.1.len() && (#[trigger] s1.1[k]).0 == curr.address {
                        let w = choose|w: int|
                            0 <= w < s1.1.len() && (#[trigger] s1.1[w]).0 == curr.address;
                        assert(insn_matches(current@[w], s1.1[w]));
                        assert(current@[w].address == curr.address);
                    }
                }
            }
            if !dup {
                let ghost pre = current@;
                current.push(
                    Instruction {
                        operation: Operation::Nop,
                        address: curr.address,
                        mnemonic: sp.0,
                        operands: sp.1,
                    },
                );
                proof {
                    assert(current@[pre.len() as int].address == curr.address);
                    assert(distinct_addrs(current@)) by {
                        assert forall|a: int, b: int|
                            0 <= a < b < current@.len() implies (#[trigger] current@[a]).address
                            != (#[trigger] current@[b]).address by {
                            if b < pre.len() {
                                assert(pre[a].address != pre[b].address);
                            } else {
                                assert(pre[a] == current@[a]);
                            }
                        }
                    }
                    assert(s2.1 == s1.1.push(ins_model));
                    assert(insns_match(current@, s2.1)) by {
                        assert forall|k: int| 0 <= k < current@.len() implies insn_matches(
                            #[trigger] current@[k],
                            s2.1[k],
                        ) by {
                            if k < pre.len() {
                                assert(current@[k] == pre[k]);
                                assert(s2.1[k] == s1.1[k]);
                            } else {
                                assert(insn_matches(current@[k], ins_model));
                            }
                        }
                    }
                }
            } else {
                proof {
                    assert(s2.1 == s1.1);
                }
            }
            let do_jump = i2 + 1 < np && terminators.contains(curr.address);
            let ghost s3 = (if i2 + 1 < np && spec_is_terminator(db0, pcs@, curr.address) {
                (
                    pcs@[i2 + 1].address,
                    Seq::<InsnForm>::empty(),
                    s2.2.insert(s2.0, s2.1),
                    spec_edge_insert(s2.3, (s2.0, pcs@[i2 + 1].address)),
                )
            } else {
                s2
            });
            if do_jump {
                edge_insert(&mut edge_list, (current_start, pcs[i2 + 1].address));
                let ghost mgold = final_blocks;
                let ghost key = current_start;
                final_blocks.insert(current_start, current);
                starts_list.insert(current_start);
                proof {
                    lemma_blocks_good_insert(mgold, final_blocks, current_start);
                    assert forall|a: u64| #![all_triggers] starts_list.set_of().contains(a)
                        == final_blocks.has(a) by {
                        if a == key {
                            assert(final_blocks.spec_get(a) is Some);
                        } else {
                            assert(final_blocks.spec_get(a) == mgold.spec_get(a));
                        }
                    }
                    assert(map_models(final_blocks, s3.2)) by {
                        assert forall|a: u64|
                            match #[trigger] final_blocks.spec_get(a) {
                                Some(v) => s3.2.dom().contains(a) && insns_match(v@, s3.2[a]),
                                None => !s3.2.dom().contains(a),
                            } by {
                            if a == key {
                                assert(final_blocks.spec_get(a) == Some(current));
                                assert(s3.2[a] == s2.1);
                            } else {
                                assert(final_blocks.spec_get(a) == mgold.spec_get(a));
                                assert(s3.2.dom().contains(a) == s2.2.dom().contains(a));
                                if s2.2.dom().contains(a) {
                                    assert(s3.2[a] == s2.2[a]);
                                }
                            }
                        }
                    }
                    lemma_edge_insert_distinct(s2.3, (key, pcs@[i2 + 1].address));
                }
                current_start = pcs[i2 + 1].address;
                current = Vec::new();
                proof {
                    assert(current_start == pcs@[i2 + 1].address);
                    assert(current_start == s3.0);
                    assert(insns_match(current@, s3.1));
                    assert(edge_list@ == s3.3);
                }
            } else {
                proof {
                    assert(s3 == s2);
                }
            }
            i2 = i2 + 1;
            proof {
                assert(cfg_fold(db0, pcs@, i2 as int) == cfg_step(db0, pcs@, i2 - 1, s0));
                assert(cfg_step(db0, pcs@, i2 - 1, s0) == s3);
            }
        }
        let ghost sfin = cfg_fold(db0, pcs@, np as int);
        let ghost gfin = spec_cfg_blocks(db0, pcs@);
        let ghost mgold = final_blocks;
        proof {
            assert(current@.len() > 0);
        }
        let ghost key = current_start;
        final_blocks.insert(current_start, current);
        starts_list.insert(current_start);
        proof {
            lemma_blocks_good_insert(mgold, final_blocks, current_start);
            assert forall|a: u64| #![all_triggers] starts_list.set_of().contains(a)
                == final_blocks.has(a) by {
                if a == key {
                    assert(final_blocks.spec_get(a) is Some);
                } else {
                    assert(final_blocks.spec_get(a) == mgold.spec_get(a));
                }
            }
            assert forall|k: int|
                0 <= k < starts_list.v@.len() implies final_blocks.has(
                #[trigger] starts_list.v@[k],
            ) by {
                assert(starts_list.v@.contains(starts_list.v@[k]));
                assert(starts_list.set_of().contains(starts_list.v@[k]));
            }
            assert(starts_list.v@.len() > 0) by {
                assert(starts_list.set_of().contains(key));
                assert(starts_list.v@.contains(key));
            }
            assert(gfin == sfin.2.insert(sfin.0, sfin.1));
            assert(map_models(final_blocks, gfin)) by {
                assert forall|a: u64|
                    match #[trigger] final_blocks.spec_get(a) {
                        Some(v) => gfin.dom().contains(a) && insns_match(v@, gfin[a]),
                        None => !gfin.dom().contains(a),
                    } by {
                    if a == key {
                        assert(final_blocks.spec_get(a) == Some(current));
                        assert(gfin[a] == sfin.1);
                    } else {
                        assert(final_blocks.spec_get(a) == mgold.spec_get(a));
                        assert(gfin.dom().contains(a) == sfin.2.dom().contains(a));
                        if sfin.2.dom().contains(a) {
                            assert(gfin[a] == sfin.2[a]);
                        }
                    }
                }
            }
            assert forall|a: u64| #[trigger] starts_list.set_of().contains(a) == gfin.dom().contains(
                a,
            ) by {
                if final_blocks.has(a) {
                    assert(final_blocks.spec_get(a) is Some);
                } else {
                    assert(final_blocks.spec_get(a) is None);
                }
            }
            assert(edge_list@ == spec_cfg_edges(db0, pcs@));
        }
        let ghost mfull = final_blocks;

        let mut blocks: Vec<BasicBlock> = Vec::new();
        let ns = starts_list.v.len();
        let mut idx: usize = 0;
        while idx < ns
            invariant
                old(self).inv(),
                self.inv(),
                *self == (TraceDB { insn_cache: self.insn_cache, ..*old(self) }),
                db0 == *old(self),
                np == pcs@.len(),
                np > 0,
                ns == starts_list.v@.len(),
                idx <= ns,
                starts_list.inv(),
                final_blocks.inv(),
                first_clnum.inv(),
                blocks_good(final_blocks),
                blocks_good(mfull),
                map_models(mfull, spec_cfg_blocks(db0, pcs@)),
                forall|a: u64| #[trigger]
                    starts_list.set_of().contains(a) == spec_cfg_blocks(db0, pcs@).dom().contains(
                        a,
                    ),
                forall|a: u64| #[trigger]
                    first_clnum.spec_get(a) == spec_leader_clnum(db0, pcs@, a),
                blocks@.len() == idx,
                forall|k: int|
                    idx <= k < ns ==> final_blocks.spec_get(#[trigger] starts_list.v@[k])
                        == mfull.spec_get(starts_list.v@[k]) && mfull.has(starts_list.v@[k]),
                forall|k: int| 0 <= k < idx ==> (#[trigger] blocks@[k]).index == k,
                forall|k: int|
                    0 <= k < idx ==> good_block(
                        starts_list.v@[k],
                        (#[trigger] blocks@[k]).instructions@,
                    ),
                forall|k: int|
                    0 <= k < idx ==> insns_match(
                        (#[trigger] blocks@[k]).instructions@,
                        spec_cfg_blocks(db0, pcs@)[starts_list.v@[k]],
                    ),
                forall|k: int|
                    0 <= k < idx ==> symbol_matches(
                        db0,
                        starts_list.v@[k],
                        (#[trigger] blocks@[k]).symbol,
                    ),
                forall|k: int|
                    0 <= k < idx ==> (#[trigger] blocks@[k]).clnum == spec_block_clnum(
                        db0,
                        pcs@,
                        starts_list.v@[k],
                    ),
            decreases ns - idx,
        {
            let st = starts_list.v[idx];
            let ghost mpre = final_blocks;
            let insns = final_blocks.take(st).unwrap();
            proof {
                assert(mpre.spec_get(st) == mfull.spec_get(st));
                assert(good_block(st, insns@)) by {
                    assert(mfull.spec_get(st) == Some(insns));
                }
                assert(insns_match(insns@, spec_cfg_blocks(db0, pcs@)[st])) by {
                    assert(mfull.spec_get(st) == Some(insns));
                }
                assert(spec_cfg_blocks(db0, pcs@).dom().contains(st)) by {
                    assert(mfull.spec_get(st) == Some(insns));
                }
            }
            let static_addr = unbias(st, self.bias);
            let symbol = match self.find_symbol(static_addr) {
                Some((name, _)) => Some(name),
                None => None,
            };
            proof {
                assert(self.symbols@ == db0.symbols@);
                assert(symbol_matches(db0, st, symbol));
            }
            let clnum = match first_clnum.get(st) {
                Some(c) => *c,
                None => 0,
            };
            proof {
                assert(clnum == spec_block_clnum(db0, pcs@, st));
            }
            blocks.push(BasicBlock { index: idx, instructions: insns, symbol, clnum });
            proof {
                assert forall|k: int|
                    idx + 1 <= k < ns implies final_blocks.spec_get(#[trigger] starts_list.v@[k])
                    == mfull.spec_get(starts_list.v@[k]) && mfull.has(starts_list.v@[k]) by {
                    assert(starts_list.v@[idx as int] < starts_list.v@[k]);
                    assert(starts_list.v@[k] != st);
                    assert(final_blocks.spec_get(starts_list.v@[k]) == mpre.spec_get(
                        starts_list.v@[k],
                    ));
                }
            }
            idx = idx + 1;
        }

        let mut edges: Vec<Edge> = Vec::new();
        let ne = edge_list.len();
        proof {
            assert(edges@ =~= spec_edges_out(blocks@, edge_list@.take(0)));
        }
        let mut k: usize = 0;
        while k < ne
            invariant
                ne == edge_list@.len(),
                k <= ne,
                ns == starts_list.v@.len(),
                blocks@.len() == ns,
                starts_list.inv(),
                forall|q: int|
                    0 <= q < ns ==> good_block(
                        starts_list.v@[q],
                        (#[trigger] blocks@[q]).instructions@,
                    ),
                edges@ == spec_edges_out(blocks@, edge_list@.take(k as int)),
                forall|q: int|
                    0 <= q < edges@.len() ==> (#[trigger] edges@[q]).head < ns && (
                    #[trigger] edges@[q]).tail < ns,
            decreases ne - k,
        {
            let (src, dst) = edge_list[k];
            proof {
                assert(edge_list@.take(k + 1).drop_last() =~= edge_list@.take(k as int));
                assert(edge_list@.take(k + 1).last() == (src, dst));
            }
            let oh = find_index(&starts_list, src);
            let ot = find_index(&starts_list, dst);
            match (oh, ot) {
                (Some(h), Some(t)) => {
                    proof {
                        assert(block_start(blocks@[h as int]) == src);
                        assert(block_start(blocks@[t as int]) == dst);
                        assert(has_block(blocks@, src));
                        assert(has_block(blocks@, dst));
                        assert(block_index_of(blocks@, src) == h as int) by {
                            let w = block_index_of(blocks@, src);
                            assert(0 <= w < blocks@.len() && block_start(blocks@[w]) == src);
                            assert(starts_list.v@[w] == src);
                            if w != h as int {
                                assert(starts_list.v@[w] != starts_list.v@[h as int]);
                            }
                        }
                        assert(block_index_of(blocks@, dst) == t as int) by {
                            let w = block_index_of(blocks@, dst);
                            assert(0 <= w < blocks@.len() && block_start(blocks@[w]) == dst);
                            assert(starts_list.v@[w] == dst);
                            if w != t as int {
                                assert(starts_list.v@[w] != starts_list.v@[t as int]);
                            }
                        }
                    }
                    edges.push(Edge { head: h, tail: t, condition: None });
                    proof {
                        assert(edges@ =~= spec_edges_out(blocks@, edge_list@.take(k + 1)));
                    }
                },
                _ => {
                    proof {
                        assert(!(has_block(blocks@, src) && has_block(blocks@, dst))) by {
                            if oh is None {
                                if has_block(blocks@, src) {
                                    let w = choose|w: int|
                                        0 <= w < blocks@.len() && block_start(
                                            #[trigger] blocks@[w],
                                        ) == src;
                                    assert(starts_list.v@[w] == src);
                                }
                            } else {
                                assert(ot is None);
                                if has_block(blocks@, dst) {
                                    let w = choose|w: int|
                                        0 <= w < blocks@.len() && block_start(
                                            #[trigger] blocks@[w],
                                        ) == dst;
                                    assert(starts_list.v@[w] == dst);
                                }
                            }
                        }
                        assert(edges@ =~= spec_edges_out(blocks@, edge_list@.take(k + 1)));
                    }
                },
            }
            k = k + 1;
        }
        proof {
            assert(edge_list@.take(ne as int) =~= edge_list@);
        }
        let r = ControlFlowGraph { blocks, edges };
        proof {
            assert forall|i: int, j: int| 0 <= i < j < r.blocks@.len() implies (
            #[trigger] r.blocks@[i]).instructions@[0].address < (
            #[trigger] r.blocks@[j]).instructions@[0].address by {
                assert(r.blocks@[i].instructions@[0].address == starts_list.v@[i]);
                assert(r.blocks@[j].instructions@[0].address == starts_list.v@[j]);
            }
            assert(cfg_matches(db0, only_user_code, start_from_main, r)) by {
                let g = spec_cfg_blocks(db0, pcs@);
                assert forall|a: u64| #[trigger] g.dom().contains(a) implies has_block(
                    r.blocks@,
                    a,
                ) by {
                    assert(starts_list.set_of().contains(a));
                    assert(starts_list.v@.contains(a));
                    let w = choose|w: int|
                        0 <= w < starts_list.v@.len() && starts_list.v@[w] == a;
                    assert(block_start(r.blocks@[w]) == a);
                }
                assert forall|i: int| 0 <= i < r.blocks@.len() implies {
                    &&& g.dom().contains(block_start(#[trigger] r.blocks@[i]))
                    &&& insns_match(r.blocks@[i].instructions@, g[block_start(r.blocks@[i])])
                    &&& symbol_matches(db0, block_start(r.blocks@[i]), r.blocks@[i].symbol)
                    &&& r.blocks@[i].clnum == spec_block_clnum(
                        db0,
                        pcs@,
                        block_start(r.blocks@[i]),
                    )
                } by {
                    assert(block_start(r.blocks@[i]) == starts_list.v@[i]);
                    assert(starts_list.v@.contains(starts_list.v@[i]));
                    assert(starts_list.set_of().contains(starts_list.v@[i]));
                }
            }
            assert(edges_distinct(edge_list@));
            lemma_edges_out_distinct(r.blocks@, edge_list@);
            assert forall|p: int, q: int| 0 <= p < q < r.edges@.len() implies !((
            #[trigger] r.edges@[p]).head == (#[trigger] r.edges@[q]).head && r.edges@[p].tail
                == r.edges@[q].tail) by {}
        }
        r
    }
}

/// Inserting a well-formed block keeps every stored block well formed.
proof fn lemma_blocks_good_insert(
    pre: AddrMap<Vec<Instruction>>,
    post: AddrMap<Vec<Instruction>>,
    a: u64,
)
    requires
        blocks_good(pre),
        post.spec_get(a) matches Some(v) && good_block(a, v@),
        forall|x: u64| x != a ==> #[trigger] post.spec_get(x) == pre.spec_get(x),
    ensures
        blocks_good(post),
{
    assert forall|x: u64|
        match #[trigger] post.spec_get(x) {
            Some(v) => good_block(x, v@),
            None => true,
        } by {
        if x != a {
            assert(post.spec_get(x) == pre.spec_get(x));
            assert(match pre.spec_get(x) {
                Some(v) => good_block(x, v@),
                None => true,
            });
        }
    }
}

/// Deduplicated insertion keeps an edge list free of repeats.
proof fn lemma_edge_insert_distinct(es: Seq<(u64, u64)>, e: (u64, u64))
    requires
        edges_distinct(es),
    ensures
        edges_distinct(spec_edge_insert(es, e)),
{
    if !es.contains(e) {
        let es2 = es.push(e);
        assert forall|p: int, q: int| 0 <= p < q < es2.len() implies (#[trigger] es2[p]) != (
        #[trigger] es2[q]) by {
            if q < es.len() {
                assert(es[p] != es[q]);
            } else {
                if es2[p] == e {
                    assert(es.contains(e)) by {
                        assert(es[p] == e);
                    }
                }
            }
        }
    }
}

/// An edge of `es` whose endpoints both name blocks maps to this index
/// pair.
spec fn edge_from(blocks: Seq<BasicBlock>, e: (u64, u64), o: Edge) -> bool {
    &&& has_block(blocks, e.0)
    &&& has_block(blocks, e.1)
    &&& o.head as int == block_index_of(blocks, e.0)
    &&& o.tail as int == block_index_of(blocks, e.1)
}

/// Re-keying a repeat-free edge list over address-sorted blocks yields
/// index pairs without repeats, each drawn from some listed edge.
proof fn lemma_edges_out_distinct(blocks: Seq<BasicBlock>, es: Seq<(u64, u64)>)
    requires
        edges_distinct(es),
        blocks.len() <= usize::MAX,
        forall|i: int, j: int|
            0 <= i < j < blocks.len() ==> block_start(#[trigger] blocks[i]) < block_start(
                #[trigger] blocks[j],
            ),
    ensures
        forall|q: int|
            0 <= q < spec_edges_out(blocks, es).len() ==> exists|j: int|
                0 <= j < es.len() && edge_from(
                    blocks,
                    #[trigger] es[j],
                    #[trigger] spec_edges_out(blocks, es)[q],
                ),
        forall|p: int, q: int|
            0 <= p < q < spec_edges_out(blocks, es).len() ==> !((#[trigger] spec_edges_out(
                blocks,
                es,
            )[p]).head == (#[trigger] spec_edges_out(blocks, es)[q]).head && spec_edges_out(
                blocks,
                es,
            )[p].tail == spec_edges_out(blocks, es)[q].tail),
    decreases es.len(),
{
    if es.len() > 0 {
        assert(edges_distinct(es.drop_last())) by {
            assert forall|p: int, q: int|
                0 <= p < q < es.drop_last().len() implies (#[trigger] es.drop_last()[p]) != (
            #[trigger] es.drop_last()[q]) by {
                assert(es.drop_last()[p] == es[p]);
                assert(es.drop_last()[q] == es[q]);
            }
        }
        lemma_edges_out_distinct(blocks, es.drop_last());
        let pre = spec_edges_out(blocks, es.drop_last());
        let cur = spec_edges_out(blocks, es);
        let e = es.last();
        if has_block(blocks, e.0) && has_block(blocks, e.1) {
            let en = Edge {
                head: block_index_of(blocks, e.0) as usize,
                tail: block_index_of(blocks, e.1) as usize,
                condition: None,
            };
            assert(cur == pre.push(en));
            assert(0 <= block_index_of(blocks, e.0) < blocks.len());
            assert(0 <= block_index_of(blocks, e.1) < blocks.len());
            assert(edge_from(blocks, e, en));
            assert forall|q: int| 0 <= q < cur.len() implies exists|j: int|
                0 <= j < es.len() && edge_from(blocks, #[trigger] es[j], #[trigger] cur[q]) by {
                if q < pre.len() {
                    assert(cur[q] == pre[q]);
                    let j = choose|j: int|
                        0 <= j < es.drop_last().len() && edge_from(
                            blocks,
                            #[trigger] es.drop_last()[j],
                            pre[q],
                        );
                    assert(es[j] == es.drop_last()[j]);
                    assert(edge_from(blocks, es[j], cur[q]));
                } else {
                    assert(cur[q] == en);
                    assert(es[es.len() - 1] == e);
                    assert(edge_from(blocks, es[es.len() - 1], cur[q]));
                }
            }
            assert forall|p: int, q: int| 0 <= p < q < cur.len() implies !((
            #[trigger] cur[p]).head == (#[trigger] cur[q]).head && cur[p].tail
                == cur[q].tail) by {
                if q < pre.len() {
                    assert(cur[p] == pre[p] && cur[q] == pre[q]);
                } else {
                    assert(cur[q] == en);
                    assert(cur[p] == pre[p]);
                    if cur[p].head == en.head && cur[p].tail == en.tail {
                        let j = choose|j: int|
                            0 <= j < es.drop_last().len() && edge_from(
                                blocks,
                                #[trigger] es.drop_last()[j],
                                pre[p],
                            );
                        let ej = es.drop_last()[j];
                        assert(block_start(blocks[block_index_of(blocks, ej.0)]) == ej.0);
                        assert(block_start(blocks[block_index_of(blocks, e.0)]) == e.0);
                        assert(block_index_of(blocks, ej.0) == block_index_of(blocks, e.0)) by {
                            assert(pre[p].head as int == block_index_of(blocks, ej.0));
                            assert(en.head as int == block_index_of(blocks, e.0));
                        }
                        assert(ej.0 == e.0);
                        assert(block_start(blocks[block_index_of(blocks, ej.1)]) == ej.1);
                        assert(block_start(blocks[block_index_of(blocks, e.1)]) == e.1);
                        assert(block_index_of(blocks, ej.1) == block_index_of(blocks, e.1)) by {
                            assert(pre[p].tail as int == block_index_of(blocks, ej.1));
                            assert(en.tail as int == block_index_of(blocks, e.1));
                        }
                        assert(ej.1 == e.1);
                        assert(ej == e);
                        assert(es[j] == es[es.len() - 1]);
                        assert(false);
                    }
                }
            }
        } else {
            assert(cur == pre);
            assert forall|q: int| 0 <= q < cur.len() implies exists|j: int|
                0 <= j < es.len() && edge_from(blocks, #[trigger] es[j], #[trigger] cur[q]) by {
                let j = choose|j: int|
                    0 <= j < es.drop_last().len() && edge_from(
                        blocks,
                        #[trigger] es.drop_last()[j],
                        pre[q],
                    );
                assert(es[j] == es.drop_last()[j]);
                assert(edge_from(blocks, es[j], cur[q]));
            }
        }
    }
}

} // verus!
