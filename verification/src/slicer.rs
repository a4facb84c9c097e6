//! The backwards slicer: reverse taint propagation over the change log,
//! yielding the clnums of the instructions that could have influenced a
//! chosen register or memory byte.

use vstd::prelude::*;

use crate::addr::{spec_unbias, unbias};
use crate::change::{
    is_mem_read, is_mem_write, is_reg_write, is_start, spec_is_mem_read, spec_is_mem_write,
    spec_is_reg_write, spec_is_start, Change,
};
use crate::db::TraceDB;
use crate::disasm::{cs_read_regs_of, reg_index64_of, spec_reg_index, spec_reg_index64};
use crate::strutil::{chars_to_string, string_to_chars};
use crate::textutil::{lower_seq, parse_hex, spec_parse_hex, to_lower};
use crate::vecset::U64Set;

use vstd::slice::slice_to_vec;

verus! {

/// The change redefines a tainted location: a memory write to a tainted
/// address, or a register write to a tainted register.
pub open spec fn change_hits(ch: Change, regs: Set<u64>, mem: Set<u64>) -> bool {
    ||| spec_is_mem_write(ch.flags) && mem.contains(ch.address)
    ||| spec_is_reg_write(ch.flags) && regs.contains(ch.address / 8)
}

/// Some change of the group redefines a tainted location.
pub open spec fn group_relevant(group: Seq<Change>, regs: Set<u64>, mem: Set<u64>) -> bool {
    exists|i: int| 0 <= i < group.len() && change_hits(#[trigger] group[i], regs, mem)
}

/// The register indices the group writes.
pub open spec fn group_written_regs(group: Seq<Change>) -> Set<u64> {
    Set::new(
        |x: u64|
            exists|i: int|
                0 <= i < group.len() && spec_is_reg_write((#[trigger] group[i]).flags)
                    && group[i].address / 8 == x,
    )
}

/// The memory addresses the group writes.
pub open spec fn group_written_mem(group: Seq<Change>) -> Set<u64> {
    Set::new(
        |x: u64|
            exists|i: int|
                0 <= i < group.len() && spec_is_mem_write((#[trigger] group[i]).flags)
                    && group[i].address == x,
    )
}

/// The memory addresses the group reads.
pub open spec fn group_read_mem(group: Seq<Change>) -> Set<u64> {
    Set::new(
        |x: u64|
            exists|i: int|
                0 <= i < group.len() && spec_is_mem_read((#[trigger] group[i]).flags)
                    && group[i].address == x,
    )
}

/// The group's program counter: the address of its first instruction-start
/// change, zero when it has none.
pub open spec fn group_pc(group: Seq<Change>) -> u64
    decreases group.len(),
{
    if group.len() == 0 {
        0
    } else if spec_is_start(group[0].flags) {
        group[0].address
    } else {
        group_pc(group.drop_first())
    }
}

/// The register indices named by the backend's read set.
pub open spec fn read_reg_set(names: Seq<Seq<char>>) -> Set<u64> {
    Set::new(
        |x: u64|
            x < 16 && exists|i: int|
                0 <= i < names.len() && spec_reg_index(#[trigger] names[i]) == Some(x as usize),
    )
}

/// The bytes the slicer decodes for the instruction at clnum `c`, pc `pc`:
/// the cached instruction bytes, else 16 bytes of reconstructed memory at
/// the instruction's static address.
pub open spec fn slice_insn_bytes(db: TraceDB, c: u32, pc: u64) -> Seq<u8> {
    match db.insn_bytes(c) {
        Some(b) => b,
        None => db.mem_window(c, spec_unbias(pc, db.bias)),
    }
}

/// The registers a relevant group reads, recovered through the backend;
/// empty when the group has no program counter, no bytes can be found, or
/// decoding fails (a slice is never fabricated).
pub open spec fn group_reg_reads(db: TraceDB, c: u32, pc: u64) -> Set<u64> {
    if pc == 0 {
        Set::empty()
    } else {
        let bytes = slice_insn_bytes(db, c, pc);
        if bytes.len() == 0 || !(db.disassembler is Some) {
            Set::empty()
        } else {
            match cs_read_regs_of(bytes, pc) {
                Some(names) => read_reg_set(names),
                None => Set::empty(),
            }
        }
    }
}

/// The taint state after processing a relevant group at clnum `c`: written
/// locations are now defined and leave the taint; the group's memory reads
/// and decoded register reads enter it.
pub open spec fn taint_after(
    db: TraceDB,
    group: Seq<Change>,
    c: u32,
    regs: Set<u64>,
    mem: Set<u64>,
) -> (Set<u64>, Set<u64>) {
    (
        regs.difference(group_written_regs(group)).union(group_reg_reads(db, c, group_pc(group))),
        mem.difference(group_written_mem(group)).union(group_read_mem(group)),
    )
}

/// The start of the clnum group ending at position `j`: the least index
/// `g` with `log[g..j]` all carrying `log[j-1]`'s clnum.
pub open spec fn group_begin(log: Seq<Change>, j: int) -> int
    decreases j,
{
    if j <= 1 {
        0
    } else if log[j - 2].clnum == log[j - 1].clnum {
        group_begin(log, j - 1)
    } else {
        j - 1
    }
}

proof fn lemma_group_begin_bounds(log: Seq<Change>, j: int)
    requires
        1 <= j,
    ensures
        0 <= group_begin(log, j) <= j - 1,
    decreases j,
{
    if j > 1 && log[j - 2].clnum == log[j - 1].clnum {
        lemma_group_begin_bounds(log, j - 1);
    }
}

proof fn lemma_group_begin_char(log: Seq<Change>, j: int, g: int)
    requires
        0 <= g < j <= log.len(),
        forall|k: int| g <= k < j ==> (#[trigger] log[k]).clnum == log[j - 1].clnum,
        g == 0 || log[g - 1].clnum != log[j - 1].clnum,
    ensures
        group_begin(log, j) == g,
    decreases j,
{
    if j > 1 {
        if log[j - 2].clnum == log[j - 1].clnum {
            assert(g < j - 1) by {
                if g == j - 1 {
                    assert(log[g - 1].clnum == log[j - 1].clnum);
                }
            }
            lemma_group_begin_char(log, j - 1, g);
        } else {
            assert(g == j - 1) by {
                if g < j - 1 {
                    assert(log[j - 2].clnum == log[j - 1].clnum);
                }
            }
        }
    }
}

/// The clnums the backwards slice selects from the first `j` changes of
/// the log, processing clnum groups newest first: a group that redefines a
/// tainted location is selected and updates the taint.
pub open spec fn slice_upto(
    db: TraceDB,
    log: Seq<Change>,
    j: int,
    regs: Set<u64>,
    mem: Set<u64>,
) -> Seq<u32>
    decreases j,
    via slice_upto_decreases
{
    if j <= 0 {
        Seq::empty()
    } else {
        let g = group_begin(log, j);
        let group = log.subrange(g, j);
        let c = log[j - 1].clnum;
        if group_relevant(group, regs, mem) {
            let t = taint_after(db, group, c, regs, mem);
            slice_upto(db, log, g, t.0, t.1) + seq![c]
        } else {
            slice_upto(db, log, g, regs, mem)
        }
    }
}

#[via_fn]
proof fn slice_upto_decreases(db: TraceDB, log: Seq<Change>, j: int, regs: Set<u64>, mem: Set<
    u64,
>) {
    if j > 0 {
        lemma_group_begin_bounds(log, j);
    }
}

/// The number of changes with clnum at most `c0`: in a log in ingest order
/// they form a prefix.
pub open spec fn prefix_len(log: Seq<Change>, c0: u32) -> int
    decreases log.len(),
{
    if log.len() > 0 && log.last().clnum > c0 {
        prefix_len(log.drop_last(), c0)
    } else {
        log.len() as int
    }
}

proof fn lemma_prefix_len_char(log: Seq<Change>, c0: u32, j: int)
    requires
        0 <= j <= log.len(),
        forall|k: int| j <= k < log.len() ==> (#[trigger] log[k]).clnum > c0,
        j == 0 || log[j - 1].clnum <= c0,
    ensures
        prefix_len(log, c0) == j,
    decreases log.len(),
{
    if log.len() > 0 {
        if log.last().clnum > c0 {
            assert(j < log.len()) by {
                if j == log.len() {
                    assert(log[j - 1].clnum <= c0);
                }
            }
            assert forall|k: int|
                j <= k < log.drop_last().len() implies (#[trigger] log.drop_last()[k]).clnum
                > c0 by {
                assert(log.drop_last()[k] == log[k]);
            }
            assert(j == 0 || log.drop_last()[j - 1].clnum <= c0);
            lemma_prefix_len_char(log.drop_last(), c0, j);
        } else {
            assert(j == log.len()) by {
                if j < log.len() {
                    assert(log[log.len() - 1].clnum > c0);
                }
            }
        }
    }
}

/// The registers the slice target seeds: a 64-bit register mnemonic (case
/// folded) taints that register.
pub open spec fn spec_seed_regs(target: Seq<char>) -> Set<u64> {
    if target.len() >= 2 && target[0] == '0' && target[1] == 'x' {
        Set::empty()
    } else {
        match spec_reg_index64(lower_seq(target)) {
            Some(i) => Set::<u64>::empty().insert(i as u64),
            None => Set::empty(),
        }
    }
}

/// The memory bytes the slice target seeds: a `0x` hexadecimal literal
/// taints that address.
pub open spec fn spec_seed_mem(target: Seq<char>) -> Set<u64> {
    if target.len() >= 2 && target[0] == '0' && target[1] == 'x' {
        match spec_parse_hex(target.skip(2)) {
            Some(a) => Set::<u64>::empty().insert(a),
            None => Set::empty(),
        }
    } else {
        Set::empty()
    }
}

/// The backwards slice from clnum `c0` for the given target, in
/// chronological order.
pub open spec fn spec_slice(db: TraceDB, c0: u32, target: Seq<char>) -> Seq<u32> {
    slice_upto(
        db,
        db.changes@,
        prefix_len(db.changes@, c0),
        spec_seed_regs(target),
        spec_seed_mem(target),
    )
}

impl TraceDB {
    fn group_hits(&self, g: usize, j: usize, regs: &U64Set, mem: &U64Set) -> (r: bool)
        requires
            g <= j <= self.changes@.len(),
        ensures
            r == group_relevant(self.changes@.subrange(g as int, j as int), regs.set_of(), mem.set_of()),
    {
        let ghost group = self.changes@.subrange(g as int, j as int);
        let mut k: usize = g;
        while k < j
            invariant
                g <= k <= j <= self.changes@.len(),
                group == self.changes@.subrange(g as int, j as int),
                forall|i: int| 0 <= i < k - g ==> !change_hits(#[trigger] group[i], regs.set_of(), mem.set_of()),
            decreases j - k,
        {
            let ch = self.changes[k];
            proof {
                assert(group[k - g] == ch);
            }
            if is_mem_write(ch.flags) && mem.contains(ch.address) {
                return true;
            }
            if is_reg_write(ch.flags) && regs.contains(ch.address / 8) {
                return true;
            }
            k = k + 1;
        }
        false
    }

    fn remove_written(&self, g: usize, j: usize, regs: &mut U64Set, mem: &mut U64Set)
        requires
            g <= j <= self.changes@.len(),
            old(regs).inv(),
            old(mem).inv(),
        ensures
            final(regs).inv(),
            final(mem).inv(),
            final(regs).set_of() == old(regs).set_of().difference(
                group_written_regs(self.changes@.subrange(g as int, j as int)),
            ),
            final(mem).set_of() == old(mem).set_of().difference(
                group_written_mem(self.changes@.subrange(g as int, j as int)),
            ),
    {
        let ghost group = self.changes@.subrange(g as int, j as int);
        let mut k: usize = g;
        while k < j
            invariant
                g <= k <= j <= self.changes@.len(),
                group == self.changes@.subrange(g as int, j as int),
                regs.inv(),
                mem.inv(),
                regs.set_of() == old(regs).set_of().difference(
                    group_written_regs(group.take(k - g)),
                ),
                mem.set_of() == old(mem).set_of().difference(
                    group_written_mem(group.take(k - g)),
                ),
            decreases j - k,
        {
            let ch = self.changes[k];
            proof {
                assert(group[k - g] == ch);
                assert(group.take(k - g + 1) =~= group.take(k - g).push(ch));
            }
            let ghost wr0 = group_written_regs(group.take(k - g));
            let ghost wm0 = group_written_mem(group.take(k - g));
            if is_mem_write(ch.flags) {
                mem.remove(ch.address);
                proof {
                    lemma_written_step(group.take(k - g), ch);
                    assert(mem.set_of() =~= old(mem).set_of().difference(
                        group_written_mem(group.take(k - g + 1)),
                    ));
                    assert(regs.set_of() =~= old(regs).set_of().difference(
                        group_written_regs(group.take(k - g + 1)),
                    ));
                }
            } else if is_reg_write(ch.flags) {
                regs.remove(ch.address / 8);
                proof {
                    lemma_written_step(group.take(k - g), ch);
                    assert(regs.set_of() =~= old(regs).set_of().difference(
                        group_written_regs(group.take(k - g + 1)),
                    ));
                    assert(mem.set_of() =~= old(mem).set_of().difference(
                        group_written_mem(group.take(k - g + 1)),
                    ));
                }
            } else {
                proof {
                    lemma_written_step(group.take(k - g), ch);
                    assert(regs.set_of() =~= old(regs).set_of().difference(
                        group_written_regs(group.take(k - g + 1)),
                    ));
                    assert(mem.set_of() =~= old(mem).set_of().difference(
                        group_written_mem(group.take(k - g + 1)),
                    ));
                }
            }
            k = k + 1;
        }
        proof {
            assert(group.take(j - g) =~= group);
        }
    }

    fn add_mem_reads(&self, g: usize, j: usize, mem: &mut U64Set)
        requires
            g <= j <= self.changes@.len(),
            old(mem).inv(),
        ensures
            final(mem).inv(),
            final(mem).set_of() == old(mem).set_of().union(
                group_read_mem(self.changes@.subrange(g as int, j as int)),
            ),
    {
        let ghost group = self.changes@.subrange(g as int, j as int);
        let mut k: usize = g;
        while k < j
            invariant
                g <= k <= j <= self.changes@.len(),
                group == self.changes@.subrange(g as int, j as int),
                mem.inv(),
                mem.set_of() == old(mem).set_of().union(group_read_mem(group.take(k - g))),
            decreases j - k,
        {
            let ch = self.changes[k];
            proof {
                assert(group[k - g] == ch);
                assert(group.take(k - g + 1) =~= group.take(k - g).push(ch));
                lemma_read_step(group.take(k - g), ch);
            }
            if is_mem_read(ch.flags) {
                mem.insert(ch.address);
            }
            proof {
                assert(mem.set_of() =~= old(mem).set_of().union(
                    group_read_mem(group.take(k - g + 1)),
                ));
            }
            k = k + 1;
        }
        proof {
            assert(group.take(j - g) =~= group);
        }
    }

    fn find_group_pc(&self, g: usize, j: usize) -> (pc: u64)
        requires
            g <= j <= self.changes@.len(),
        ensures
            pc == group_pc(self.changes@.subrange(g as int, j as int)),
    {
        let ghost group = self.changes@.subrange(g as int, j as int);
        let mut k: usize = g;
        while k < j
            invariant
                g <= k <= j <= self.changes@.len(),
                group == self.changes@.subrange(g as int, j as int),
                group_pc(group) == group_pc(self.changes@.subrange(k as int, j as int)),
            decreases j - k,
        {
            let ch = self.changes[k];
            proof {
                assert(self.changes@.subrange(k as int, j as int)[0] == ch);
                assert(self.changes@.subrange(k as int, j as int).drop_first()
                    =~= self.changes@.subrange(k as int + 1, j as int));
            }
            if is_start(ch.flags) {
                return ch.address;
            }
            k = k + 1;
        }
        0
    }

    fn add_reg_reads(&self, clnum: u32, pc: u64, regs: &mut U64Set)
        requires
            self.inv(),
            old(regs).inv(),
        ensures
            final(regs).inv(),
            final(regs).set_of() == old(regs).set_of().union(group_reg_reads(*self, clnum, pc)),
    {
        if pc == 0 {
            proof {
                assert(old(regs).set_of().union(Set::<u64>::empty()) =~= old(regs).set_of());
            }
            return ;
        }
        let bytes: Vec<u8> = match self.instructions.get(clnum) {
            Some(b) => slice_to_vec(b.as_slice()),
            None => {
                let sa = unbias(pc, self.bias);
                let m = self.get_memory_at(clnum, sa, 16);
                proof {
                    assert(m@ =~= self.mem_window(clnum, sa));
                }
                m
            },
        };
        proof {
            assert(bytes@ == slice_insn_bytes(*self, clnum, pc));
        }
        if bytes.len() == 0 {
            proof {
                assert(old(regs).set_of().union(Set::<u64>::empty()) =~= old(regs).set_of());
            }
            return ;
        }
        let reads = match &self.disassembler {
            Some(d) => d.get_read_registers(bytes.as_slice(), pc),
            None => {
                proof {
                    assert(old(regs).set_of().union(Set::<u64>::empty()) =~= old(regs).set_of());
                }
                return ;
            },
        };
        let v = match reads {
            Some(v) => v,
            None => {
                proof {
                    assert(old(regs).set_of().union(Set::<u64>::empty()) =~= old(regs).set_of());
                }
                return ;
            },
        };
        let ghost names = cs_read_regs_of(bytes@, pc)->Some_0;
        let n = v.len();
        let mut i: usize = 0;
        while i < n
            invariant
                n == v@.len(),
                i <= n,
                regs.inv(),
                forall|x: usize| v@.contains(x) <==> read_reg_set(names).contains(x as u64),
                forall|x: usize| v@.contains(x) ==> x < 16,
                regs.set_of() == old(regs).set_of().union(
                    Set::new(
                        |y: u64| exists|k: int| 0 <= k < i && (#[trigger] v@[k]) as u64 == y,
                    ),
                ),
            decreases n - i,
        {
            let x = v[i];
            let ghost s_cur = Set::new(
                |y: u64| exists|k: int| 0 <= k < i && (#[trigger] v@[k]) as u64 == y,
            );
            let ghost s_next = Set::new(
                |y: u64| exists|k: int| 0 <= k < i + 1 && (#[trigger] v@[k]) as u64 == y,
            );
            regs.insert(x as u64);
            proof {
                assert forall|y: u64| #[trigger] s_next.contains(y) implies s_cur.insert(
                    x as u64,
                ).contains(y) by {
                    let k = choose|k: int| 0 <= k < i + 1 && (#[trigger] v@[k]) as u64 == y;
                    if k < i {
                        assert(s_cur.contains(y));
                    }
                }
                assert forall|y: u64| #[trigger] s_cur.insert(x as u64).contains(y) implies
                    s_next.contains(y) by {
                    if s_cur.contains(y) {
                        let k = choose|k: int| 0 <= k < i && (#[trigger] v@[k]) as u64 == y;
                        assert(0 <= k < i + 1 && v@[k] as u64 == y);
                    } else {
                        assert(v@[i as int] as u64 == y);
                    }
                }
                assert(s_next =~= s_cur.insert(x as u64));
                assert(regs.set_of() =~= old(regs).set_of().union(s_next));
            }
            i = i + 1;
        }
        proof {
            let s_all = Set::new(
                |y: u64| exists|k: int| 0 <= k < n && (#[trigger] v@[k]) as u64 == y,
            );
            assert forall|y: u64| #[trigger] s_all.contains(y) implies read_reg_set(
                names,
            ).contains(y) by {
                let k = choose|k: int| 0 <= k < n && (#[trigger] v@[k]) as u64 == y;
                assert(v@.contains(v@[k]));
                assert(v@[k] < 16);
                assert(read_reg_set(names).contains(v@[k] as u64));
            }
            assert forall|y: u64| #[trigger] read_reg_set(names).contains(y) implies
                s_all.contains(y) by {
                assert(y < 16);
                assert(v@.contains(y as usize));
                let k = choose|k: int| 0 <= k < v@.len() && v@[k] == y as usize;
                assert(v@[k] as u64 == y);
            }
            assert(s_all =~= read_reg_set(names));
            assert(regs.set_of() =~= old(regs).set_of().union(group_reg_reads(*self, clnum, pc)));
        }
    }

    /// The backwards slice from `start_clnum` for `target` (a register
    /// mnemonic, or a `0x` hexadecimal memory address): the clnums whose
    /// writes could have influenced the target, in chronological order.
    pub fn get_slice(&self, start_clnum: u32, target: String) -> (r: Vec<u32>)
        requires
            self.inv(),
        ensures
            r@ == spec_slice(*self, start_clnum, target@),
    {
        let tchars = string_to_chars(target.as_str());
        let mut regs = U64Set::new();
        let mut mem = U64Set::new();
        if tchars.len() >= 2 && tchars[0] == '0' && tchars[1] == 'x' {
            let mut digits: Vec<char> = Vec::new();
            let mut k: usize = 2;
            while k < tchars.len()
                invariant
                    2 <= k <= tchars@.len(),
                    tchars@ == target@,
                    digits@ == target@.skip(2).take(k - 2),
                decreases tchars@.len() - k,
            {
                digits.push(tchars[k]);
                proof {
                    assert(digits@ =~= target@.skip(2).take(k - 1));
                }
                k = k + 1;
            }
            proof {
                assert(digits@ =~= target@.skip(2));
            }
            match parse_hex(digits.as_slice()) {
                Some(a) => {
                    mem.insert(a);
                    proof {
                        assert(mem.set_of() =~= spec_seed_mem(target@));
                        assert(regs.set_of() =~= spec_seed_regs(target@));
                    }
                },
                None => {
                    proof {
                        assert(mem.set_of() =~= spec_seed_mem(target@));
                        assert(regs.set_of() =~= spec_seed_regs(target@));
                    }
                },
            }
        } else {
            let lower = to_lower(tchars.as_slice());
            let lstr = chars_to_string(&lower);
            match reg_index64_of(&lstr) {
                Some(i) => {
                    regs.insert(i as u64);
                    proof {
                        assert(regs.set_of() =~= spec_seed_regs(target@));
                        assert(mem.set_of() =~= spec_seed_mem(target@));
                    }
                },
                None => {
                    proof {
                        assert(regs.set_of() =~= spec_seed_regs(target@));
                        assert(mem.set_of() =~= spec_seed_mem(target@));
                    }
                },
            }
        }
        let ghost seed_regs = regs.set_of();
        let ghost seed_mem = mem.set_of();

        let mut j: usize = self.changes.len();
        while j > 0 && self.changes[j - 1].clnum > start_clnum
            invariant
                j <= self.changes@.len(),
                forall|k: int|
                    j <= k < self.changes@.len() ==> (#[trigger] self.changes@[k]).clnum
                        > start_clnum,
            decreases j,
        {
            j = j - 1;
        }
        proof {
            lemma_prefix_len_char(self.changes@, start_clnum, j as int);
        }

        let mut out: Vec<u32> = Vec::new();
        proof {
            assert(out@.reverse() =~= Seq::<u32>::empty());
            assert(slice_upto(*self, self.changes@, j as int, regs.set_of(), mem.set_of())
                + out@.reverse() =~= slice_upto(
                *self,
                self.changes@,
                j as int,
                regs.set_of(),
                mem.set_of(),
            ));
        }
        while j > 0
            invariant
                self.inv(),
                j <= self.changes@.len(),
                regs.inv(),
                mem.inv(),
                slice_upto(*self, self.changes@, prefix_len(self.changes@, start_clnum), seed_regs, seed_mem)
                    == slice_upto(*self, self.changes@, j as int, regs.set_of(), mem.set_of())
                    + out@.reverse(),
            decreases j,
        {
            let c = self.changes[j - 1].clnum;
            let mut g: usize = j - 1;
            while g > 0 && self.changes[g - 1].clnum == c
                invariant
                    g <= j - 1,
                    j <= self.changes@.len(),
                    forall|k: int| g <= k < j ==> (#[trigger] self.changes@[k]).clnum == c,
                decreases g,
            {
                g = g - 1;
            }
            proof {
                lemma_group_begin_char(self.changes@, j as int, g as int);
            }
            let ghost group = self.changes@.subrange(g as int, j as int);
            let relevant = self.group_hits(g, j, &regs, &mem);
            if relevant {
                let ghost regs0 = regs.set_of();
                let ghost mem0 = mem.set_of();
                let ghost out0 = out@;
                out.push(c);
                self.remove_written(g, j, &mut regs, &mut mem);
                self.add_mem_reads(g, j, &mut mem);
                let pc = self.find_group_pc(g, j);
                self.add_reg_reads(c, pc, &mut regs);
                proof {
                    let t = taint_after(*self, group, c, regs0, mem0);
                    assert(regs.set_of() == t.0);
                    assert(mem.set_of() == t.1);
                    assert(slice_upto(*self, self.changes@, j as int, regs0, mem0) == slice_upto(
                        *self,
                        self.changes@,
                        g as int,
                        t.0,
                        t.1,
                    ) + seq![c]);
                    assert(out@.reverse() =~= seq![c] + out0.reverse());
                    assert((slice_upto(*self, self.changes@, g as int, t.0, t.1) + seq![c])
                        + out0.reverse() =~= slice_upto(*self, self.changes@, g as int, t.0, t.1)
                        + (seq![c] + out0.reverse()));
                }
            }
            j = g;
        }
        proof {
            assert(slice_upto(*self, self.changes@, 0, regs.set_of(), mem.set_of())
                =~= Seq::<u32>::empty());
            assert(Seq::<u32>::empty() + out@.reverse() =~= out@.reverse());
        }
        let n = out.len();
        let mut res: Vec<u32> = Vec::new();
        let mut k: usize = n;
        while k > 0
            invariant
                n == out@.len(),
                k <= n,
                res@.len() == n - k,
                forall|i: int| 0 <= i < n - k ==> res@[i] == out@[n - 1 - i],
            decreases k,
        {
            res.push(out[k - 1]);
            k = k - 1;
        }
        proof {
            assert(res@ =~= out@.reverse());
        }
        res
    }
}

proof fn lemma_prefix_len_bounds(log: Seq<Change>, c0: u32)
    ensures
        0 <= prefix_len(log, c0) <= log.len(),
    decreases log.len(),
{
    if log.len() > 0 && log.last().clnum > c0 {
        lemma_prefix_len_bounds(log.drop_last(), c0);
    }
}

proof fn lemma_prefix_clnums_bounded(log: Seq<Change>, c0: u32)
    requires
        crate::change::log_nondecreasing(log),
    ensures
        forall|k: int| 0 <= k < prefix_len(log, c0) ==> (#[trigger] log[k]).clnum <= c0,
    decreases log.len(),
{
    lemma_prefix_len_bounds(log, c0);
    if log.len() > 0 {
        if log.last().clnum > c0 {
            crate::change::lemma_log_nondecreasing_drop_last(log);
            lemma_prefix_clnums_bounded(log.drop_last(), c0);
            lemma_prefix_len_bounds(log.drop_last(), c0);
            assert forall|k: int|
                0 <= k < prefix_len(log, c0) implies (#[trigger] log[k]).clnum <= c0 by {
                assert(log.drop_last()[k] == log[k]);
            }
        } else {
            assert forall|k: int|
                0 <= k < prefix_len(log, c0) implies (#[trigger] log[k]).clnum <= c0 by {
                assert(log[k].clnum <= log[log.len() - 1].clnum);
            }
        }
    }
}

proof fn lemma_group_same_clnum(log: Seq<Change>, j: int)
    requires
        1 <= j <= log.len(),
    ensures
        forall|k: int|
            group_begin(log, j) <= k < j ==> (#[trigger] log[k]).clnum == log[j - 1].clnum,
    decreases j,
{
    if j > 1 && log[j - 2].clnum == log[j - 1].clnum {
        lemma_group_same_clnum(log, j - 1);
    }
}

proof fn lemma_slice_upto_sound(
    db: TraceDB,
    log: Seq<Change>,
    j: int,
    regs: Set<u64>,
    mem: Set<u64>,
    c0: u32,
)
    requires
        0 <= j <= log.len(),
        forall|k: int| 0 <= k < j ==> (#[trigger] log[k]).clnum <= c0,
    ensures
        forall|t: int|
            0 <= t < slice_upto(db, log, j, regs, mem).len() ==> (#[trigger] slice_upto(
                db,
                log,
                j,
                regs,
                mem,
            )[t]) <= c0 && exists|i: int|
                0 <= i < j && (#[trigger] log[i]).clnum == slice_upto(db, log, j, regs, mem)[t]
                    && (spec_is_mem_write(log[i].flags) || spec_is_reg_write(log[i].flags)),
    decreases j,
{
    if j > 0 {
        lemma_group_begin_bounds(log, j);
        let g = group_begin(log, j);
        let group = log.subrange(g, j);
        let c = log[j - 1].clnum;
        let res = slice_upto(db, log, j, regs, mem);
        if group_relevant(group, regs, mem) {
            let t2 = taint_after(db, group, c, regs, mem);
            lemma_slice_upto_sound(db, log, g, t2.0, t2.1, c0);
            let sub = slice_upto(db, log, g, t2.0, t2.1);
            assert forall|t: int| 0 <= t < res.len() implies (#[trigger] res[t]) <= c0 && exists|
                i: int,
            |
                0 <= i < j && (#[trigger] log[i]).clnum == res[t] && (spec_is_mem_write(
                    log[i].flags,
                ) || spec_is_reg_write(log[i].flags)) by {
                if t < sub.len() {
                    assert(res[t] == sub[t]);
                    let i = choose|i: int|
                        0 <= i < g && (#[trigger] log[i]).clnum == sub[t] && (spec_is_mem_write(
                            log[i].flags,
                        ) || spec_is_reg_write(log[i].flags));
                    assert(log[i].clnum == res[t] && (spec_is_mem_write(log[i].flags)
                        || spec_is_reg_write(log[i].flags)));
                } else {
                    assert(res[t] == c);
                    let i0 = choose|i0: int|
                        0 <= i0 < group.len() && change_hits(#[trigger] group[i0], regs, mem);
                    lemma_group_same_clnum(log, j);
                    assert(group[i0] == log[g + i0]);
                    assert(log[g + i0].clnum == c);
                    assert(spec_is_mem_write(log[g + i0].flags) || spec_is_reg_write(
                        log[g + i0].flags,
                    ));
                }
            }
        } else {
            lemma_slice_upto_sound(db, log, g, regs, mem, c0);
            let sub = slice_upto(db, log, g, regs, mem);
            assert(res == sub);
            assert forall|t: int| 0 <= t < res.len() implies (#[trigger] res[t]) <= c0 && exists|
                i: int,
            |
                0 <= i < j && (#[trigger] log[i]).clnum == res[t] && (spec_is_mem_write(
                    log[i].flags,
                ) || spec_is_reg_write(log[i].flags)) by {
                assert(sub[t] <= c0);
                let i = choose|i: int|
                    0 <= i < g && (#[trigger] log[i]).clnum == sub[t] && (spec_is_mem_write(
                        log[i].flags,
                    ) || spec_is_reg_write(log[i].flags));
                assert(log[i].clnum == res[t] && (spec_is_mem_write(log[i].flags)
                    || spec_is_reg_write(log[i].flags)));
            }
        }
    }
}

/// Soundness of the slice: every clnum it returns is at most the starting
/// clnum, and is the clnum of some write in the log prefix — by
/// construction, one that redefined a location tainted at the moment its
/// group was processed (`group_relevant` in `slice_upto`).
pub proof fn lemma_slice_sound(db: TraceDB, c0: u32, target: Seq<char>)
    requires
        db.inv(),
    ensures
        forall|t: int|
            0 <= t < spec_slice(db, c0, target).len() ==> (#[trigger] spec_slice(
                db,
                c0,
                target,
            )[t]) <= c0 && exists|i: int|
                0 <= i < db.changes@.len() && (#[trigger] db.changes@[i]).clnum == spec_slice(
                    db,
                    c0,
                    target,
                )[t] && (spec_is_mem_write(db.changes@[i].flags) || spec_is_reg_write(
                    db.changes@[i].flags,
                )),
{
    lemma_prefix_len_bounds(db.changes@, c0);
    lemma_prefix_clnums_bounded(db.changes@, c0);
    lemma_slice_upto_sound(
        db,
        db.changes@,
        prefix_len(db.changes@, c0),
        spec_seed_regs(target),
        spec_seed_mem(target),
        c0,
    );
}

proof fn lemma_group_begin_same(la: Seq<Change>, lb: Seq<Change>, j: int)
    requires
        j <= la.len(),
        j <= lb.len(),
        forall|k: int| 0 <= k < j ==> #[trigger] la[k] == lb[k],
    ensures
        group_begin(la, j) == group_begin(lb, j),
    decreases j,
{
    if j > 1 {
        lemma_group_begin_same(la, lb, j - 1);
    }
}

proof fn lemma_slice_upto_same(
    a: TraceDB,
    b: TraceDB,
    la: Seq<Change>,
    lb: Seq<Change>,
    j: int,
    regs: Set<u64>,
    mem: Set<u64>,
)
    requires
        0 <= j <= la.len(),
        j <= lb.len(),
        forall|k: int| 0 <= k < j ==> #[trigger] la[k] == lb[k],
        a.instructions == b.instructions,
        a.memory == b.memory,
        a.bias == b.bias,
        a.disassembler == b.disassembler,
    ensures
        slice_upto(a, la, j, regs, mem) == slice_upto(b, lb, j, regs, mem),
    decreases j,
{
    if j > 0 {
        lemma_group_begin_bounds(la, j);
        lemma_group_begin_same(la, lb, j);
        let g = group_begin(la, j);
        assert(la.subrange(g, j) =~= lb.subrange(g, j));
        let group = la.subrange(g, j);
        let c = la[j - 1].clnum;
        assert(lb[j - 1] == la[j - 1]);
        let pc = group_pc(group);
        assert(a.mem_window(c, spec_unbias(pc, a.bias)) =~= b.mem_window(
            c,
            spec_unbias(pc, b.bias),
        ));
        assert(group_reg_reads(a, c, pc) == group_reg_reads(b, c, pc));
        assert(taint_after(a, group, c, regs, mem) == taint_after(b, group, c, regs, mem));
        if group_relevant(group, regs, mem) {
            let t = taint_after(a, group, c, regs, mem);
            lemma_slice_upto_same(a, b, la, lb, g, t.0, t.1);
        } else {
            lemma_slice_upto_same(a, b, la, lb, g, regs, mem);
        }
    }
}

/// Determinism of the slice: it is a pure function of the log prefix up to
/// the starting clnum, the target, the instruction-byte cache, the
/// reconstructed memory, the bias, and the backend. Two databases agreeing
/// there slice alike.
pub proof fn lemma_slice_deterministic(a: TraceDB, b: TraceDB, c0: u32, target: Seq<char>)
    requires
        a.changes@.take(prefix_len(a.changes@, c0)) == b.changes@.take(prefix_len(b.changes@, c0)),
        a.instructions == b.instructions,
        a.memory == b.memory,
        a.bias == b.bias,
        a.disassembler == b.disassembler,
    ensures
        spec_slice(a, c0, target) == spec_slice(b, c0, target),
{
    lemma_prefix_len_bounds(a.changes@, c0);
    lemma_prefix_len_bounds(b.changes@, c0);
    let pa = prefix_len(a.changes@, c0);
    let pb = prefix_len(b.changes@, c0);
    assert(a.changes@.take(pa).len() == b.changes@.take(pb).len());
    assert(pa == pb);
    assert forall|k: int| 0 <= k < pa implies #[trigger] a.changes@[k] == b.changes@[k] by {
        assert(a.changes@.take(pa)[k] == a.changes@[k]);
        assert(b.changes@.take(pb)[k] == b.changes@[k]);
    }
    lemma_slice_upto_same(
        a,
        b,
        a.changes@,
        b.changes@,
        pa,
        spec_seed_regs(target),
        spec_seed_mem(target),
    );
}

/// Extending a group by one change extends its written sets by that
/// change's target, if it writes.
proof fn lemma_written_step(group: Seq<Change>, ch: Change)
    ensures
        spec_is_mem_write(ch.flags) ==> group_written_mem(group.push(ch)) =~= group_written_mem(
            group,
        ).insert(ch.address),
        !spec_is_mem_write(ch.flags) ==> group_written_mem(group.push(ch)) =~= group_written_mem(
            group,
        ),
        spec_is_reg_write(ch.flags) ==> group_written_regs(group.push(ch)) =~= group_written_regs(
            group,
        ).insert(ch.address / 8),
        !spec_is_reg_write(ch.flags) ==> group_written_regs(group.push(ch)) =~= group_written_regs(
            group,
        ),
{
    let p = group.push(ch);
    assert forall|x: u64| group_written_mem(p).contains(x) implies (group_written_mem(
        group,
    ).contains(x) || (spec_is_mem_write(ch.flags) && x == ch.address)) by {
        let i = choose|i: int|
            0 <= i < p.len() && spec_is_mem_write((#[trigger] p[i]).flags) && p[i].address == x;
        if i < group.len() {
            assert(group[i] == p[i]);
        }
    }
    assert forall|x: u64| group_written_mem(group).contains(x) implies group_written_mem(
        p,
    ).contains(x) by {
        let i = choose|i: int|
            0 <= i < group.len() && spec_is_mem_write((#[trigger] group[i]).flags)
                && group[i].address == x;
        assert(p[i] == group[i]);
    }
    if spec_is_mem_write(ch.flags) {
        assert(p[group.len() as int] == ch);
    }
    assert forall|x: u64| group_written_regs(p).contains(x) implies (group_written_regs(
        group,
    ).contains(x) || (spec_is_reg_write(ch.flags) && x == ch.address / 8)) by {
        let i = choose|i: int|
            0 <= i < p.len() && spec_is_reg_write((#[trigger] p[i]).flags) && p[i].address / 8
                == x;
        if i < group.len() {
            assert(group[i] == p[i]);
        }
    }
    assert forall|x: u64| group_written_regs(group).contains(x) implies group_written_regs(
        p,
    ).contains(x) by {
        let i = choose|i: int|
            0 <= i < group.len() && spec_is_reg_write((#[trigger] group[i]).flags)
                && group[i].address / 8 == x;
        assert(p[i] == group[i]);
    }
    if spec_is_reg_write(ch.flags) {
        assert(p[group.len() as int] == ch);
    }
}

/// Extending a group by one change extends its read set by that change's
/// address, if it is a memory read.
proof fn lemma_read_step(group: Seq<Change>, ch: Change)
    ensures
        spec_is_mem_read(ch.flags) ==> group_read_mem(group.push(ch)) =~= group_read_mem(
            group,
        ).insert(ch.address),
        !spec_is_mem_read(ch.flags) ==> group_read_mem(group.push(ch)) =~= group_read_mem(group),
{
    let p = group.push(ch);
    assert forall|x: u64| group_read_mem(p).contains(x) implies (group_read_mem(group).contains(x)
        || (spec_is_mem_read(ch.flags) && x == ch.address)) by {
        let i = choose|i: int|
            0 <= i < p.len() && spec_is_mem_read((#[trigger] p[i]).flags) && p[i].address == x;
        if i < group.len() {
            assert(group[i] == p[i]);
        }
    }
    assert forall|x: u64| group_read_mem(group).contains(x) implies group_read_mem(p).contains(
        x,
    ) by {
        let i = choose|i: int|
            0 <= i < group.len() && spec_is_mem_read((#[trigger] group[i]).flags)
                && group[i].address == x;
        assert(p[i] == group[i]);
    }
    if spec_is_mem_read(ch.flags) {
        assert(p[group.len() as int] == ch);
    }
}

} // verus!
