//! The x86-64 disassembly backend: a capstone handle behind trusted
//! wrappers, the mapping from register names to the architectural index
//! space, and the memoizing text cache.

use vstd::prelude::*;

use capstone::arch::{BuildsCapstone, BuildsCapstoneSyntax, DetailsArchInsn};

use crate::stackvars::spec_rewrite_stack_vars;
use crate::strutil::str_eq;
use crate::textutil::bytes_eq;

verus! {

#[verifier::external_type_specification]
#[verifier::external_body]
pub struct ExCapstone(capstone::Capstone);

/// The text the backend renders for the first instruction decoded from
/// `bytes` at `addr` (`mnemonic operands`, Intel syntax, `???` when
/// nothing decodes), or nothing when the backend reports an error. The
/// rendering is a pure function of the bytes and the address.
pub uninterp spec fn cs_disasm_of(bytes: Seq<u8>, addr: u64) -> Option<Seq<char>>;

/// The names of the registers the first instruction decoded from `bytes`
/// at `addr` reads (implicit reads plus memory-operand base and index
/// registers, in the backend's order), or nothing when the backend reports
/// an error. A pure function of the bytes and the address.
pub uninterp spec fn cs_read_regs_of(bytes: Seq<u8>, addr: u64) -> Option<Seq<Seq<char>>>;

/// An x86-64 disassembler handle, configured once for Intel syntax with
/// operand details.
pub struct Disassembler {
    cs: capstone::Capstone,
}

impl Disassembler {
    /// Relies on capstone's builder: yields an x86-64, Intel-syntax handle
    /// with details enabled, or nothing when the backend cannot start.
    /// Every handle is configured identically, so the decode results below
    /// depend on their arguments alone.
    #[verifier::external_body]
    pub fn new() -> (r: Option<Disassembler>)
    {
        let cs = capstone::Capstone::new()
            .x86()
            .mode(capstone::arch::x86::ArchMode::Mode64)
            .syntax(capstone::arch::x86::ArchSyntax::Intel)
            .detail(true)
            .build();
        match cs {
            Ok(cs) => Some(Disassembler { cs }),
            Err(_) => None,
        }
    }

    /// Relies on capstone's `disasm_all`, `mnemonic` and `op_str`: renders
    /// the first decoded instruction as `mnemonic operands` (`???` when the
    /// input decodes to no instruction), or nothing when the backend
    /// reports an error.
    #[verifier::external_body]
    pub fn disassemble(&self, bytes: &[u8], address: u64) -> (r: Option<String>)
        ensures
            r is Some <==> cs_disasm_of(bytes@, address) is Some,
            r matches Some(s) ==> s@ == cs_disasm_of(bytes@, address)->Some_0,
    {
        let insns = match self.cs.disasm_all(bytes, address) {
            Ok(insns) => insns,
            Err(_) => return None,
        };
        Some(match insns.first() {
            Some(i) => format!("{} {}", i.mnemonic().unwrap_or("???"), i.op_str().unwrap_or("")),
            None => String::from("???"),
        })
    }

    /// Relies on capstone's detail API (`insn_detail`, `regs_read`, the x86
    /// operands' memory base and index, `reg_name`): the names of the
    /// registers the first decoded instruction reads, or nothing when the
    /// backend reports an error (an input that decodes to no instruction
    /// reads no registers).
    #[verifier::external_body]
    fn read_reg_names(&self, bytes: &[u8], address: u64) -> (r: Option<Vec<String>>)
        ensures
            r is Some <==> cs_read_regs_of(bytes@, address) is Some,
            r matches Some(v) ==> v.deep_view() == cs_read_regs_of(bytes@, address)->Some_0,
    {
        let insns = self.cs.disasm_all(bytes, address).ok()?;
        let insn = match insns.first() {
            Some(i) => i,
            None => return Some(Vec::new()),
        };
        let detail = self.cs.insn_detail(insn).ok()?;
        let mut ids: Vec<capstone::RegId> = detail.regs_read().to_vec();
        if let capstone::arch::ArchDetail::X86Detail(x86) = detail.arch_detail() {
            for op in x86.operands() {
                if let capstone::arch::x86::X86OperandType::Mem(m) = op.op_type {
                    ids.extend([m.base(), m.index()]);
                }
            }
        }
        Some(ids.iter().filter_map(|r| self.cs.reg_name(*r)).collect())
    }

    /// The architectural indices of the registers the instruction reads,
    /// strictly increasing, or nothing when decoding fails.
    pub fn get_read_registers(&self, bytes: &[u8], address: u64) -> (r: Option<Vec<usize>>)
        ensures
            r is Some <==> cs_read_regs_of(bytes@, address) is Some,
            r matches Some(v) ==> {
                let names = cs_read_regs_of(bytes@, address)->Some_0;
                &&& strictly_increasing(v@)
                &&& forall|x: usize|
                    v@.contains(x) <==> exists|i: int|
                        0 <= i < names.len() && spec_reg_index(#[trigger] names[i]) == Some(x)
            },
    {
        let names = match self.read_reg_names(bytes, address) {
            Some(n) => n,
            None => {
                return None;
            },
        };
        let ghost gnames = cs_read_regs_of(bytes@, address)->Some_0;
        let mut out: Vec<usize> = Vec::new();
        let n = names.len();
        let mut i: usize = 0;
        while i < n
            invariant
                n == names@.len(),
                names.deep_view() == gnames,
                i <= n,
                strictly_increasing(out@),
                forall|x: usize|
                    out@.contains(x) <==> exists|j: int|
                        0 <= j < i && spec_reg_index(#[trigger] gnames[j]) == Some(x),
            decreases n - i,
        {
            proof {
                assert(gnames[i as int] == names@[i as int]@);
            }
            match reg_index_of(&names[i]) {
                Some(idx) => {
                    insert_sorted_unique(&mut out, idx);
                },
                None => {},
            }
            proof {
                assert forall|x: usize| out@.contains(x) implies exists|j: int|
                    0 <= j < i + 1 && spec_reg_index(#[trigger] gnames[j]) == Some(x) by {
                    if spec_reg_index(gnames[i as int]) == Some(x) {
                    } else {
                        let j = choose|j: int|
                            0 <= j < i && spec_reg_index(#[trigger] gnames[j]) == Some(x);
                        assert(spec_reg_index(gnames[j]) == Some(x));
                    }
                }
            }
            i = i + 1;
        }
        Some(out)
    }
}

/// The text the library shows for `bytes` decoded at `address`: `...` for
/// empty input; otherwise the backend's rendering (`invalid` when the
/// backend is absent or reports an error), with stack references
/// prettified.
pub open spec fn spec_render_disasm(has_backend: bool, address: u64, bytes: Seq<u8>) -> Seq<char> {
    if bytes.len() == 0 {
        "..."@
    } else {
        let raw = if has_backend {
            match cs_disasm_of(bytes, address) {
                Some(t) => t,
                None => "invalid"@,
            }
        } else {
            "invalid"@
        };
        spec_rewrite_stack_vars(raw)
    }
}

/// Memoized disassembly text, keyed by address and instruction bytes.
pub struct DisasmCache {
    pub entries: Vec<(u64, Vec<u8>, String)>,
}

/// Every cache entry holds exactly the text the renderer would produce for
/// its key, so a hit is indistinguishable from recomputing.
pub open spec fn cache_ok(cache: DisasmCache, has_backend: bool) -> bool {
    forall|i: int|
        0 <= i < cache.entries@.len() ==> (#[trigger] cache.entries@[i]).2@ == spec_render_disasm(
            has_backend,
            cache.entries@[i].0,
            cache.entries@[i].1@,
        )
}

impl DisasmCache {
    pub fn new() -> (r: DisasmCache)
        ensures
            r.entries@ == Seq::<(u64, Vec<u8>, String)>::empty(),
    {
        DisasmCache { entries: Vec::new() }
    }

    /// The cached text for this address and byte string, if present.
    pub fn get(&self, addr: u64, bytes: &[u8]) -> (r: Option<String>)
        ensures
            r matches Some(s) ==> exists|i: int|
                0 <= i < self.entries@.len() && (#[trigger] self.entries@[i]).0 == addr
                    && self.entries@[i].1@ == bytes@ && self.entries@[i].2@ == s@,
    {
        let n = self.entries.len();
        let mut i: usize = 0;
        while i < n
            invariant
                n == self.entries@.len(),
                i <= n,
            decreases n - i,
        {
            if self.entries[i].0 == addr && bytes_eq(self.entries[i].1.as_slice(), bytes) {
                return Some(self.entries[i].2.clone());
            }
            i = i + 1;
        }
        None
    }

    /// Record the text for this address and byte string.
    pub fn put(&mut self, addr: u64, bytes: Vec<u8>, text: String)
        ensures
            final(self).entries@ == old(self).entries@.push((addr, bytes, text)),
    {
        self.entries.push((addr, bytes, text));
    }
}

/// The entries of `v` are strictly increasing.
pub open spec fn strictly_increasing(v: Seq<usize>) -> bool {
    forall|i: int, j: int| 0 <= i < j < v.len() ==> v[i] < v[j]
}

/// Insert `x` into a strictly increasing vector, keeping it strictly
/// increasing; a value already present is left alone.
fn insert_sorted_unique(v: &mut Vec<usize>, x: usize)
    requires
        strictly_increasing(old(v)@),
    ensures
        strictly_increasing(final(v)@),
        forall|y: usize| final(v)@.contains(y) <==> (old(v)@.contains(y) || y == x),
{
    let n = v.len();
    let mut i: usize = 0;
    while i < n && v[i] < x
        invariant
            n == v@.len(),
            i <= n,
            strictly_increasing(v@),
            forall|k: int| 0 <= k < i ==> (#[trigger] v@[k]) < x,
        decreases n - i,
    {
        i = i + 1;
    }
    if i < n && v[i] == x {
        return ;
    }
    let ghost pre = v@;
    v.insert(i, x);
    proof {
        assert forall|a: int, b: int| 0 <= a < b < v@.len() implies v@[a] < v@[b] by {
            if a < i && b > i {
                assert(pre[a] == v@[a]);
                assert(pre[b - 1] == v@[b]);
                if b - 1 == i as int {
                } else {
                    assert(pre[a] < pre[b - 1]);
                }
            } else if b == i as int {
                assert(v@[a] == pre[a]);
            } else if a == i as int {
                assert(v@[b] == pre[b - 1]);
                assert(pre[b - 1] >= pre[i as int]);
                assert(pre[i as int] != x);
            } else if b < i {
                assert(v@[a] == pre[a] && v@[b] == pre[b]);
            } else {
                assert(v@[a] == pre[a - 1] && v@[b] == pre[b - 1]);
            }
        }
        assert forall|y: usize| v@.contains(y) <==> (pre.contains(y) || y == x) by {
            if v@.contains(y) {
                let k = choose|k: int| 0 <= k < v@.len() && v@[k] == y;
                if k < i {
                    assert(pre[k] == y);
                } else if k == i as int {
                } else {
                    assert(pre[k - 1] == y);
                }
            }
            if pre.contains(y) {
                let k = choose|k: int| 0 <= k < pre.len() && pre[k] == y;
                if k < i {
                    assert(v@[k] == y);
                } else {
                    assert(v@[k + 1] == y);
                }
            }
            if y == x {
                assert(v@[i as int] == y);
            }
        }
    }
}

/// The architectural index the library assigns to an x86-64 register name
/// (64-bit names and their 32-bit halves), if it tracks it.
pub open spec fn spec_reg_index(s: Seq<char>) -> Option<usize> {
    if s == "rax"@ || s == "eax"@ {
        Some(0usize)
    } else if s == "rbx"@ || s == "ebx"@ {
        Some(1usize)
    } else if s == "rcx"@ || s == "ecx"@ {
        Some(2usize)
    } else if s == "rdx"@ || s == "edx"@ {
        Some(3usize)
    } else if s == "rsi"@ || s == "esi"@ {
        Some(4usize)
    } else if s == "rdi"@ || s == "edi"@ {
        Some(5usize)
    } else if s == "rbp"@ || s == "ebp"@ {
        Some(6usize)
    } else if s == "rsp"@ || s == "esp"@ {
        Some(7usize)
    } else if s == "r8"@ || s == "r8d"@ {
        Some(8usize)
    } else if s == "r9"@ || s == "r9d"@ {
        Some(9usize)
    } else if s == "r10"@ || s == "r10d"@ {
        Some(10usize)
    } else if s == "r11"@ || s == "r11d"@ {
        Some(11usize)
    } else if s == "r12"@ || s == "r12d"@ {
        Some(12usize)
    } else if s == "r13"@ || s == "r13d"@ {
        Some(13usize)
    } else if s == "r14"@ || s == "r14d"@ {
        Some(14usize)
    } else if s == "r15"@ || s == "r15d"@ {
        Some(15usize)
    } else {
        None
    }
}

/// Map an x86-64 register name to its architectural index.
pub fn reg_index_of(name: &String) -> (r: Option<usize>)
    ensures
        r == spec_reg_index(name@),
{
    let s = name.as_str();
    if str_eq(s, "rax") || str_eq(s, "eax") {
        Some(0)
    } else if str_eq(s, "rbx") || str_eq(s, "ebx") {
        Some(1)
    } else if str_eq(s, "rcx") || str_eq(s, "ecx") {
        Some(2)
    } else if str_eq(s, "rdx") || str_eq(s, "edx") {
        Some(3)
    } else if str_eq(s, "rsi") || str_eq(s, "esi") {
        Some(4)
    } else if str_eq(s, "rdi") || str_eq(s, "edi") {
        Some(5)
    } else if str_eq(s, "rbp") || str_eq(s, "ebp") {
        Some(6)
    } else if str_eq(s, "rsp") || str_eq(s, "esp") {
        Some(7)
    } else if str_eq(s, "r8") || str_eq(s, "r8d") {
        Some(8)
    } else if str_eq(s, "r9") || str_eq(s, "r9d") {
        Some(9)
    } else if str_eq(s, "r10") || str_eq(s, "r10d") {
        Some(10)
    } else if str_eq(s, "r11") || str_eq(s, "r11d") {
        Some(11)
    } else if str_eq(s, "r12") || str_eq(s, "r12d") {
        Some(12)
    } else if str_eq(s, "r13") || str_eq(s, "r13d") {
        Some(13)
    } else if str_eq(s, "r14") || str_eq(s, "r14d") {
        Some(14)
    } else if str_eq(s, "r15") || str_eq(s, "r15d") {
        Some(15)
    } else {
        None
    }
}

/// The architectural index the library assigns to a 64-bit register
/// mnemonic used as a slice target.
pub open spec fn spec_reg_index64(s: Seq<char>) -> Option<usize> {
    if s == "eax"@ || s == "ebx"@ || s == "ecx"@ || s == "edx"@ || s == "esi"@ || s == "edi"@ || s
        == "ebp"@ || s == "esp"@ || s == "r8d"@ || s == "r9d"@ || s == "r10d"@ || s == "r11d"@ || s
        == "r12d"@ || s == "r13d"@ || s == "r14d"@ || s == "r15d"@ {
        None
    } else {
        spec_reg_index(s)
    }
}

/// Map a 64-bit register mnemonic to its architectural index.
pub fn reg_index64_of(name: &String) -> (r: Option<usize>)
    ensures
        r == spec_reg_index64(name@),
{
    let s = name.as_str();
    if str_eq(s, "eax") || str_eq(s, "ebx") || str_eq(s, "ecx") || str_eq(s, "edx") || str_eq(
        s,
        "esi",
    ) || str_eq(s, "edi") || str_eq(s, "ebp") || str_eq(s, "esp") || str_eq(s, "r8d") || str_eq(
        s,
        "r9d",
    ) || str_eq(s, "r10d") || str_eq(s, "r11d") || str_eq(s, "r12d") || str_eq(s, "r13d")
        || str_eq(s, "r14d") || str_eq(s, "r15d") {
        None
    } else {
        reg_index_of(name)
    }
}

} // verus!
