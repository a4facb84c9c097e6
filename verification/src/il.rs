//! The intermediate representation of recovered control flow: instructions,
//! basic blocks, edges, and the mermaid rendering of a graph.

use vstd::prelude::*;

use crate::strutil::{chars_to_string, string_to_chars};
use crate::textutil::{dec_chars, dec_vec, hex_chars, hex_vec};

verus! {

/// A lifted operation (kept minimal: recovered blocks carry `Nop`).
pub enum Operation {
    Assign { dst: Scalar, src: Expression },
    Store { index: Expression, src: Expression },
    Load { dst: Scalar, index: Expression },
    Branch { target: Expression },
    Intrinsic { intrinsic: String },
    Nop,
}

/// A named scalar value of a given bit width.
pub struct Scalar {
    pub name: String,
    pub bits: usize,
}

/// An expression over scalars and constants.
pub enum Expression {
    Scalar(Scalar),
    Constant(Constant),
    Add(Box<Expression>, Box<Expression>),
    Sub(Box<Expression>, Box<Expression>),
}

/// A constant value of a given bit width.
pub struct Constant {
    pub value: u64,
    pub bits: usize,
}

/// One recovered instruction: its address and disassembled text.
pub struct Instruction {
    pub operation: Operation,
    pub address: u64,
    pub mnemonic: String,
    pub operands: String,
}

/// A basic block: densely indexed, with its instructions in first-seen
/// order, the containing symbol if known, and the clnum of its first
/// execution.
pub struct BasicBlock {
    pub index: usize,
    pub instructions: Vec<Instruction>,
    pub symbol: Option<String>,
    pub clnum: u32,
}

/// A directed edge between block indices.
pub struct Edge {
    pub head: usize,
    pub tail: usize,
    pub condition: Option<Expression>,
}

/// A recovered control-flow graph.
pub struct ControlFlowGraph {
    pub blocks: Vec<BasicBlock>,
    pub edges: Vec<Edge>,
}

/// Two optional symbol names hold the same text.
pub open spec fn sym_eq(a: Option<String>, b: Option<String>) -> bool {
    match (a, b) {
        (Some(x), Some(y)) => x@ == y@,
        (None, None) => true,
        _ => false,
    }
}

/// ASCII letters and digits survive identifier sanitizing.
pub open spec fn is_word_char(c: char) -> bool {
    ('a' <= c && c <= 'z') || ('A' <= c && c <= 'Z') || ('0' <= c && c <= '9')
}

/// A symbol name turned into a safe mermaid identifier.
pub open spec fn spec_sanitize(s: Seq<char>) -> Seq<char> {
    s.map_values(
        |c: char|
            if is_word_char(c) {
                c
            } else {
                '_'
            },
    )
}

/// Double quotes in a label are replaced with `#quot;`.
pub open spec fn spec_escape(s: Seq<char>) -> Seq<char>
    decreases s.len(),
{
    if s.len() == 0 {
        Seq::empty()
    } else {
        (if s[0] == '"' {
            seq!['#', 'q', 'u', 'o', 't', ';']
        } else {
            seq![s[0]]
        }) + spec_escape(s.drop_first())
    }
}

/// One rendered instruction: `addr: mnemonic operands`.
pub open spec fn spec_insn_line(i: Instruction) -> Seq<char> {
    hex_chars(i.address as nat) + ": "@ + i.mnemonic@ + " "@ + i.operands@
}

/// The first `k` instructions, joined with `<br/>`.
pub open spec fn spec_insn_lines(insns: Seq<Instruction>, k: int) -> Seq<char>
    decreases k,
{
    if k <= 0 {
        Seq::empty()
    } else if k == 1 {
        spec_insn_line(insns[0])
    } else {
        spec_insn_lines(insns, k - 1) + "<br/>"@ + spec_insn_line(insns[k - 1])
    }
}

/// A block's label body: its first five instructions (an ellipsis when
/// more follow), quotes escaped.
pub open spec fn spec_content(insns: Seq<Instruction>) -> Seq<char> {
    let k: int = if insns.len() > 5 {
        5
    } else {
        insns.len() as int
    };
    spec_escape(
        spec_insn_lines(insns, k) + if insns.len() > 5 {
            "<br/>..."@
        } else {
            Seq::empty()
        },
    )
}

/// A block's heading: the first instruction's address, or its index.
pub open spec fn spec_label(b: BasicBlock) -> Seq<char> {
    if b.instructions@.len() > 0 {
        hex_chars(b.instructions@[0].address as nat)
    } else {
        "Block "@ + dec_chars(b.index as nat)
    }
}

/// One block's node definition and click line.
pub open spec fn spec_block_text(b: BasicBlock) -> Seq<char> {
    "        block"@ + dec_chars(b.index as nat) + "[\""@ + spec_label(b) + "<br/>"@
        + spec_content(b.instructions@) + "\"];\n"@ + "        click block"@ + dec_chars(
        b.index as nat,
    ) + " call onCfgNodeClick("@ + dec_chars(b.clnum as nat) + ")\n"@
}

/// The node texts of every block sharing symbol `sym`, from position `k`
/// on, in block order.
pub open spec fn spec_group_blocks(blocks: Seq<BasicBlock>, sym: Option<String>, k: int) -> Seq<
    char,
>
    decreases blocks.len() - k,
{
    if k < 0 || k >= blocks.len() {
        Seq::empty()
    } else if sym_eq(blocks[k].symbol, sym) {
        spec_block_text(blocks[k]) + spec_group_blocks(blocks, sym, k + 1)
    } else {
        spec_group_blocks(blocks, sym, k + 1)
    }
}

/// The subgraph heading for a named symbol group.
pub open spec fn spec_header(sym: Option<String>) -> Seq<char> {
    match sym {
        Some(n) => "    subgraph cluster_"@ + spec_sanitize(n@) + " [\""@ + n@ + "\"]\n"@,
        None => Seq::empty(),
    }
}

/// The subgraph closing line for a named symbol group.
pub open spec fn spec_footer(sym: Option<String>) -> Seq<char> {
    match sym {
        Some(_) => "    end\n"@,
        None => Seq::empty(),
    }
}

/// The groups section: one symbol group per distinct symbol, in order of
/// first appearance.
pub open spec fn spec_groups(blocks: Seq<BasicBlock>, i: int) -> Seq<char>
    decreases blocks.len() - i,
{
    if i < 0 || i >= blocks.len() {
        Seq::empty()
    } else if exists|j: int| 0 <= j < i && sym_eq((#[trigger] blocks[j]).symbol, blocks[i].symbol) {
        spec_groups(blocks, i + 1)
    } else {
        (spec_header(blocks[i].symbol) + spec_group_blocks(blocks, blocks[i].symbol, 0)
            + spec_footer(blocks[i].symbol)) + spec_groups(blocks, i + 1)
    }
}

/// The edges section, in edge order.
pub open spec fn spec_edges_text(edges: Seq<Edge>, k: int) -> Seq<char>
    decreases edges.len() - k,
{
    if k < 0 || k >= edges.len() {
        Seq::empty()
    } else {
        ("    block"@ + dec_chars(edges[k].head as nat) + " --> block"@ + dec_chars(
            edges[k].tail as nat,
        ) + ";\n"@) + spec_edges_text(edges, k + 1)
    }
}

/// The mermaid rendering of a graph: a placeholder for an empty graph,
/// else the header, the symbol groups, and the edges.
pub open spec fn spec_mermaid(g: ControlFlowGraph) -> Seq<char> {
    if g.blocks@.len() == 0 {
        "graph TD;\n    Empty[\"No User Code / Empty Trace\"];\n"@
    } else {
        "graph TD;\n"@ + spec_groups(g.blocks@, 0) + spec_edges_text(g.edges@, 0)
    }
}

/// Append characters to a text buffer.
fn push_chars(out: &mut Vec<char>, s: &[char])
    ensures
        final(out)@ == old(out)@ + s@,
{
    let n = s.len();
    let mut i: usize = 0;
    while i < n
        invariant
            n == s@.len(),
            i <= n,
            out@ == old(out)@ + s@.take(i as int),
        decreases n - i,
    {
        out.push(s[i]);
        proof {
            assert(old(out)@ + s@.take(i + 1) =~= (old(out)@ + s@.take(i as int)).push(
                s@[i as int],
            ));
        }
        i = i + 1;
    }
    proof {
        assert(s@.take(n as int) =~= s@);
    }
}

/// Append a string literal to a text buffer.
fn push_str(out: &mut Vec<char>, s: &str)
    ensures
        final(out)@ == old(out)@ + s@,
{
    let v = string_to_chars(s);
    push_chars(out, v.as_slice());
}

/// Append the hexadecimal rendering of `v`.
fn push_hex(out: &mut Vec<char>, v: u64)
    ensures
        final(out)@ == old(out)@ + hex_chars(v as nat),
{
    let h = hex_vec(v);
    push_chars(out, h.as_slice());
}

/// Append the decimal rendering of `v`.
fn push_dec(out: &mut Vec<char>, v: u64)
    ensures
        final(out)@ == old(out)@ + dec_chars(v as nat),
{
    let d = dec_vec(v);
    push_chars(out, d.as_slice());
}

/// Append `s` with double quotes escaped.
fn push_escape(out: &mut Vec<char>, s: &[char])
    ensures
        final(out)@ == old(out)@ + spec_escape(s@),
{
    let n = s.len();
    proof {
        assert(s@.skip(0) =~= s@);
    }
    let mut i: usize = 0;
    while i < n
        invariant
            n == s@.len(),
            i <= n,
            old(out)@ + spec_escape(s@) == out@ + spec_escape(s@.skip(i as int)),
        decreases n - i,
    {
        let ghost pre = out@;
        proof {
            assert(s@.skip(i as int)[0] == s@[i as int]);
            assert(s@.skip(i as int).drop_first() =~= s@.skip(i as int + 1));
        }
        if s[i] == '"' {
            push_str(out, "#quot;");
            proof {
                reveal_strlit("#quot;");
                assert(out@ =~= pre + seq!['#', 'q', 'u', 'o', 't', ';']);
            }
        } else {
            out.push(s[i]);
            proof {
                assert(out@ =~= pre + seq![s@[i as int]]);
            }
        }
        proof {
            assert(old(out)@ + spec_escape(s@) =~= out@ + spec_escape(s@.skip(i as int + 1)));
        }
        i = i + 1;
    }
    proof {
        assert(spec_escape(s@.skip(n as int)) =~= Seq::<char>::empty());
        assert(old(out)@ + spec_escape(s@) =~= out@);
    }
}

/// Whether two optional symbol names hold the same text.
fn opt_sym_eq(a: &Option<String>, b: &Option<String>) -> (r: bool)
    ensures
        r == sym_eq(*a, *b),
{
    match (a, b) {
        (Some(x), Some(y)) => crate::strutil::str_eq(x.as_str(), y.as_str()),
        (None, None) => true,
        _ => false,
    }
}

impl ControlFlowGraph {
    /// Render the graph as mermaid text: blocks grouped by symbol in
    /// subgraphs, one node per block with its first instructions, then the
    /// edges.
    pub fn to_mermaid(&self) -> (r: String)
        ensures
            r@ == spec_mermaid(*self),
    {
        if self.blocks.len() == 0 {
            return String::from_str("graph TD;\n    Empty[\"No User Code / Empty Trace\"];\n");
        }
        let mut out: Vec<char> = Vec::new();
        push_str(&mut out, "graph TD;\n");
        let nb = self.blocks.len();
        let mut i: usize = 0;
        while i < nb
            invariant
                nb == self.blocks@.len(),
                i <= nb,
                "graph TD;\n"@ + spec_groups(self.blocks@, 0) == out@ + spec_groups(
                    self.blocks@,
                    i as int,
                ),
            decreases nb - i,
        {
            let mut seen = false;
            let mut j: usize = 0;
            while j < i
                invariant
                    i < nb == self.blocks@.len(),
                    j <= i,
                    seen == exists|k: int|
                        0 <= k < j && sym_eq(
                            (#[trigger] self.blocks@[k]).symbol,
                            self.blocks@[i as int].symbol,
                        ),
                decreases i - j,
            {
                if opt_sym_eq(&self.blocks[j].symbol, &self.blocks[i].symbol) {
                    seen = true;
                }
                j = j + 1;
            }
            if !seen {
                let ghost base = out@;
                match &self.blocks[i].symbol {
                    Some(n) => {
                        push_str(&mut out, "    subgraph cluster_");
                        let nc = string_to_chars(n.as_str());
                        let mut sane: Vec<char> = Vec::new();
                        let mut t: usize = 0;
                        while t < nc.len()
                            invariant
                                t <= nc@.len(),
                                nc@ == self.blocks@[i as int].symbol->Some_0@,
                                i < self.blocks@.len(),
                                sane@.len() == t,
                                forall|q: int|
                                    0 <= q < t ==> sane@[q] == (if is_word_char(
                                        #[trigger] nc@[q],
                                    ) {
                                        nc@[q]
                                    } else {
                                        '_'
                                    }),
                            decreases nc@.len() - t,
                        {
                            let c = nc[t];
                            if ('a' <= c && c <= 'z') || ('A' <= c && c <= 'Z') || ('0' <= c && c
                                <= '9') {
                                sane.push(c);
                            } else {
                                sane.push('_');
                            }
                            t = t + 1;
                        }
                        proof {
                            assert(sane@ =~= spec_sanitize(n@));
                        }
                        push_chars(&mut out, sane.as_slice());
                        push_str(&mut out, " [\"");
                        push_chars(&mut out, nc.as_slice());
                        push_str(&mut out, "\"]\n");
                        proof {
                            assert(out@ =~= base + spec_header(self.blocks@[i as int].symbol));
                        }
                    },
                    None => {
                        proof {
                            assert(out@ =~= base + spec_header(self.blocks@[i as int].symbol));
                        }
                    },
                }
                let ghost hdr_done = out@;
                let mut k: usize = 0;
                while k < nb
                    invariant
                        nb == self.blocks@.len(),
                        i < nb,
                        k <= nb,
                        hdr_done + spec_group_blocks(
                            self.blocks@,
                            self.blocks@[i as int].symbol,
                            0,
                        ) == out@ + spec_group_blocks(
                            self.blocks@,
                            self.blocks@[i as int].symbol,
                            k as int,
                        ),
                    decreases nb - k,
                {
                    if opt_sym_eq(&self.blocks[k].symbol, &self.blocks[i].symbol) {
                        let ghost bb = out@;
                        let b = &self.blocks[k];
                        push_str(&mut out, "        block");
                        push_dec(&mut out, b.index as u64);
                        push_str(&mut out, "[\"");
                        if b.instructions.len() > 0 {
                            push_hex(&mut out, b.instructions[0].address);
                        } else {
                            push_str(&mut out, "Block ");
                            push_dec(&mut out, b.index as u64);
                        }
                        proof {
                            assert(out@ =~= bb + ("        block"@ + dec_chars(
                                b.index as nat,
                            ) + "[\""@ + spec_label(*b)));
                        }
                        push_str(&mut out, "<br/>");
                        let mut raw: Vec<char> = Vec::new();
                        let ni = b.instructions.len();
                        let m: usize = if ni > 5 {
                            5
                        } else {
                            ni
                        };
                        let mut t: usize = 0;
                        while t < m
                            invariant
                                m <= ni == b.instructions@.len(),
                                t <= m,
                                raw@ == spec_insn_lines(b.instructions@, t as int),
                            decreases m - t,
                        {
                            let ghost rbase = raw@;
                            if t > 0 {
                                push_str(&mut raw, "<br/>");
                            }
                            let insn = &b.instructions[t];
                            push_hex(&mut raw, insn.address);
                            push_str(&mut raw, ": ");
                            let mc = string_to_chars(insn.mnemonic.as_str());
                            push_chars(&mut raw, mc.as_slice());
                            push_str(&mut raw, " ");
                            let oc = string_to_chars(insn.operands.as_str());
                            push_chars(&mut raw, oc.as_slice());
                            proof {
                                if t == 0 {
                                    assert(raw@ =~= spec_insn_line(b.instructions@[0]));
                                } else {
                                    assert(raw@ =~= (spec_insn_lines(b.instructions@, t as int)
                                        + "<br/>"@ + spec_insn_line(
                                        b.instructions@[t as int],
                                    )));
                                }
                            }
                            t = t + 1;
                        }
                        if ni > 5 {
                            push_str(&mut raw, "<br/>...");
                        }
                        let ghost content_arg = raw@;
                        push_escape(&mut out, raw.as_slice());
                        proof {
                            let kk: int = if b.instructions@.len() > 5 {
                                5
                            } else {
                                b.instructions@.len() as int
                            };
                            if ni > 5 {
                            } else {
                                assert(content_arg =~= spec_insn_lines(b.instructions@, kk)
                                    + Seq::<char>::empty());
                            }
                            assert(spec_escape(content_arg) == spec_content(b.instructions@));
                        }
                        push_str(&mut out, "\"];\n");
                        push_str(&mut out, "        click block");
                        push_dec(&mut out, b.index as u64);
                        push_str(&mut out, " call onCfgNodeClick(");
                        push_dec(&mut out, b.clnum as u64);
                        push_str(&mut out, ")\n");
                        proof {
                            assert(out@ =~= bb + spec_block_text(self.blocks@[k as int]));
                            assert(spec_group_blocks(
                                self.blocks@,
                                self.blocks@[i as int].symbol,
                                k as int,
                            ) == spec_block_text(self.blocks@[k as int]) + spec_group_blocks(
                                self.blocks@,
                                self.blocks@[i as int].symbol,
                                k as int + 1,
                            ));
                            assert(hdr_done + spec_group_blocks(
                                self.blocks@,
                                self.blocks@[i as int].symbol,
                                0,
                            ) =~= out@ + spec_group_blocks(
                                self.blocks@,
                                self.blocks@[i as int].symbol,
                                k as int + 1,
                            ));
                        }
                    }
                    k = k + 1;
                }
                match &self.blocks[i].symbol {
                    Some(_) => {
                        push_str(&mut out, "    end\n");
                    },
                    None => {},
                }
                proof {
                    assert(out@ =~= base + ((spec_header(self.blocks@[i as int].symbol)
                        + spec_group_blocks(self.blocks@, self.blocks@[i as int].symbol, 0))
                        + spec_footer(self.blocks@[i as int].symbol)));
                    assert("graph TD;\n"@ + spec_groups(self.blocks@, 0) =~= out@ + spec_groups(
                        self.blocks@,
                        i as int + 1,
                    ));
                }
            } else {
                proof {
                    assert("graph TD;\n"@ + spec_groups(self.blocks@, 0) =~= out@ + spec_groups(
                        self.blocks@,
                        i as int + 1,
                    ));
                }
            }
            i = i + 1;
        }
        proof {
            assert(spec_groups(self.blocks@, nb as int) =~= Seq::<char>::empty());
            assert(out@ =~= "graph TD;\n"@ + spec_groups(self.blocks@, 0));
        }
        let ne = self.edges.len();
        let ghost gdone = out@;
        let mut k: usize = 0;
        while k < ne
            invariant
                ne == self.edges@.len(),
                k <= ne,
                gdone + spec_edges_text(self.edges@, 0) == out@ + spec_edges_text(
                    self.edges@,
                    k as int,
                ),
            decreases ne - k,
        {
            let ghost ebase = out@;
            let e = &self.edges[k];
            push_str(&mut out, "    block");
            push_dec(&mut out, e.head as u64);
            push_str(&mut out, " --> block");
            push_dec(&mut out, e.tail as u64);
            push_str(&mut out, ";\n");
            proof {
                assert(out@ =~= ebase + ("    block"@ + dec_chars(
                    self.edges@[k as int].head as nat,
                ) + " --> block"@ + dec_chars(self.edges@[k as int].tail as nat) + ";\n"@));
                assert(gdone + spec_edges_text(self.edges@, 0) =~= out@ + spec_edges_text(
                    self.edges@,
                    k as int + 1,
                ));
            }
            k = k + 1;
        }
        proof {
            assert(spec_edges_text(self.edges@, ne as int) =~= Seq::<char>::empty());
            assert(out@ =~= ("graph TD;\n"@ + spec_groups(self.blocks@, 0)) + spec_edges_text(
                self.edges@,
                0,
            ));
        }
        chars_to_string(&out)
    }
}

} // verus!
