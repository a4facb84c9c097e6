//! Per-byte memory cells and the sparse store that indexes them by address.

use vstd::prelude::*;

use crate::history::{hist_lookup, hist_nondecreasing, lookup_le};

verus! {

/// One touched byte of guest memory: an optional static initializer (seeded
/// from the loaded binary image) and the ordered history of dynamic writes.
pub struct MemoryCell {
    pub static_value: Option<u8>,
    pub history: Vec<(u32, u8)>,
}

impl MemoryCell {
    /// The byte this cell holds at clnum `c`: the latest write at or before
    /// `c`, else the static initializer, else nothing.
    pub open spec fn spec_value_at(&self, c: u32) -> Option<u8> {
        match hist_lookup(self.history@, c) {
            Some(b) => Some(b),
            None => self.static_value,
        }
    }

    /// The byte value this cell holds at clnum `c`, if any.
    pub fn get_value_at(&self, c: u32) -> (r: Option<u8>)
        requires
            hist_nondecreasing(self.history@),
        ensures
            r == self.spec_value_at(c),
    {
        match lookup_le(&self.history, c) {
            Some(b) => Some(b),
            None => self.static_value,
        }
    }
}

/// The clnums of a write history, in order.
pub open spec fn hist_clnums(h: Seq<(u32, u8)>) -> Seq<u32> {
    h.map_values(|e: (u32, u8)| e.0)
}

/// A write history extended at `clnum`: a repeat of the latest clnum
/// replaces its byte (the last write wins), otherwise the entry is
/// appended, so each history holds at most one entry per clnum.
pub open spec fn hist_push(h: Seq<(u32, u8)>, clnum: u32, byte: u8) -> Seq<(u32, u8)> {
    if h.len() > 0 && h.last().0 == clnum {
        h.drop_last().push((clnum, byte))
    } else {
        h.push((clnum, byte))
    }
}

/// Sparse memory: one cell per touched byte address, addresses unique.
pub struct MemStore {
    pub entries: Vec<(u64, MemoryCell)>,
}

impl MemStore {
    /// Addresses are unique, so each address names at most one cell.
    pub open spec fn inv(&self) -> bool {
        forall|i: int, j: int|
            0 <= i < j < self.entries@.len() ==> (#[trigger] self.entries@[i]).0 != (
            #[trigger] self.entries@[j]).0
    }

    /// A cell exists for address `a`.
    pub open spec fn has(&self, a: u64) -> bool {
        exists|i: int| 0 <= i < self.entries@.len() && (#[trigger] self.entries@[i]).0 == a
    }

    /// The index of the cell for address `a` (meaningful when `has(a)`).
    pub open spec fn idx_of(&self, a: u64) -> int {
        choose|i: int| 0 <= i < self.entries@.len() && (#[trigger] self.entries@[i]).0 == a
    }

    /// The dynamic write history recorded at address `a` (empty when the
    /// address was never touched).
    pub open spec fn hist(&self, a: u64) -> Seq<(u32, u8)> {
        if self.has(a) {
            self.entries@[self.idx_of(a)].1.history@
        } else {
            Seq::empty()
        }
    }

    /// The static initializer recorded at address `a`, if any.
    pub open spec fn static_of(&self, a: u64) -> Option<u8> {
        if self.has(a) {
            self.entries@[self.idx_of(a)].1.static_value
        } else {
            None
        }
    }

    /// The byte at address `a` as of clnum `c`: latest dynamic write at or
    /// before `c`, else the static byte, else zero.
    pub open spec fn spec_byte_at(&self, a: u64, c: u32) -> u8 {
        match hist_lookup(self.hist(a), c) {
            Some(b) => b,
            None => match self.static_of(a) {
                Some(b) => b,
                None => 0,
            },
        }
    }

    pub fn new() -> (r: MemStore)
        ensures
            r.inv(),
            forall|a: u64| !(#[trigger] r.has(a)),
    {
        MemStore { entries: Vec::new() }
    }

    fn find(&self, a: u64) -> (r: Option<usize>)
        requires
            self.inv(),
        ensures
            match r {
                Some(i) => self.has(a) && i == self.idx_of(a) && i < self.entries@.len(),
                None => !self.has(a),
            },
    {
        let n = self.entries.len();
        let mut i: usize = 0;
        while i < n
            invariant
                n == self.entries@.len(),
                i <= n,
                self.inv(),
                forall|k: int| 0 <= k < i ==> (#[trigger] self.entries@[k]).0 != a,
            decreases n - i,
        {
            if self.entries[i].0 == a {
                return Some(i);
            }
            i = i + 1;
        }
        None
    }

    /// The byte at address `a` as of clnum `c`, zero where nothing is known.
    pub fn byte_at(&self, a: u64, c: u32) -> (r: u8)
        requires
            self.inv(),
            hist_nondecreasing(self.hist(a)),
        ensures
            r == self.spec_byte_at(a, c),
    {
        match self.find(a) {
            Some(i) => {
                let cell = &self.entries[i].1;
                match cell.get_value_at(c) {
                    Some(b) => b,
                    None => 0,
                }
            },
            None => 0,
        }
    }

    /// The clnums at which address `a` was dynamically written, in history
    /// order.
    pub fn write_clnums(&self, a: u64) -> (r: Vec<u32>)
        requires
            self.inv(),
        ensures
            r@ == hist_clnums(self.hist(a)),
    {
        let mut out: Vec<u32> = Vec::new();
        match self.find(a) {
            Some(i) => {
                let cell = &self.entries[i].1;
                let n = cell.history.len();
                let mut k: usize = 0;
                while k < n
                    invariant
                        n == cell.history@.len(),
                        k <= n,
                        out@.len() == k,
                        forall|j: int| 0 <= j < k ==> out@[j] == (#[trigger] cell.history@[j]).0,
                    decreases n - k,
                {
                    out.push(cell.history[k].0);
                    k = k + 1;
                }
                proof {
                    assert(out@ =~= hist_clnums(cell.history@));
                }
            },
            None => {
                proof {
                    assert(out@ =~= hist_clnums(self.hist(a)));
                }
            },
        }
        out
    }

    fn ensure_cell(&mut self, a: u64) -> (i: usize)
        requires
            old(self).inv(),
        ensures
            final(self).inv(),
            final(self).has(a),
            i == final(self).idx_of(a),
            i < final(self).entries@.len(),
            final(self).hist(a) == old(self).hist(a),
            final(self).static_of(a) == old(self).static_of(a),
            forall|b: u64| b != a ==> #[trigger] final(self).hist(b) == old(self).hist(b),
            forall|b: u64| b != a ==> #[trigger] final(self).static_of(b) == old(self).static_of(b),
    {
        match self.find(a) {
            Some(i) => i,
            None => {
                let i = self.entries.len();
                self.entries.push((a, MemoryCell { static_value: None, history: Vec::new() }));
                proof {
                    assert(self.entries@[i as int].0 == a);
                    assert(self.inv());
                    assert forall|b: u64| b != a implies #[trigger] self.hist(b) == old(self).hist(
                        b,
                    ) by {
                        if old(self).has(b) {
                            let k = old(self).idx_of(b);
                            assert(self.entries@[k].0 == b);
                        } else if self.has(b) {
                            let k = self.idx_of(b);
                            assert(old(self).entries@[k].0 == b);
                        }
                    }
                    assert forall|b: u64| b != a implies #[trigger] self.static_of(b) == old(
                        self,
                    ).static_of(b) by {
                        if old(self).has(b) {
                            let k = old(self).idx_of(b);
                            assert(self.entries@[k].0 == b);
                        } else if self.has(b) {
                            let k = self.idx_of(b);
                            assert(old(self).entries@[k].0 == b);
                        }
                    }
                }
                i
            },
        }
    }

    /// Record the static initializer byte for address `a`.
    pub fn set_static(&mut self, a: u64, b: u8)
        requires
            old(self).inv(),
        ensures
            final(self).inv(),
            final(self).static_of(a) == Some(b),
            final(self).hist(a) == old(self).hist(a),
            forall|x: u64| x != a ==> #[trigger] final(self).hist(x) == old(self).hist(x),
            forall|x: u64| x != a ==> #[trigger] final(self).static_of(x) == old(self).static_of(
                x,
            ),
    {
        let i = self.ensure_cell(a);
        let ghost mid = *self;
        self.entries[i].1.static_value = Some(b);
        proof {
            lemma_update_one(mid, *self, i as int, a);
        }
    }

    /// Record a dynamic write observation `(clnum, byte)` at address `a`:
    /// a second write at the already-latest clnum replaces its byte, so
    /// each cell history keeps one entry per clnum.
    pub fn push_write(&mut self, a: u64, clnum: u32, byte: u8)
        requires
            old(self).inv(),
        ensures
            final(self).inv(),
            final(self).hist(a) == hist_push(old(self).hist(a), clnum, byte),
            final(self).static_of(a) == old(self).static_of(a),
            forall|x: u64| x != a ==> #[trigger] final(self).hist(x) == old(self).hist(x),
            forall|x: u64| x != a ==> #[trigger] final(self).static_of(x) == old(self).static_of(
                x,
            ),
    {
        let i = self.ensure_cell(a);
        let ghost mid = *self;
        let hl = self.entries[i].1.history.len();
        if hl > 0 && self.entries[i].1.history[hl - 1].0 == clnum {
            self.entries[i].1.history[hl - 1] = (clnum, byte);
            proof {
                lemma_update_one(mid, *self, i as int, a);
                assert(self.hist(a) =~= mid.hist(a).drop_last().push((clnum, byte)));
            }
        } else {
            self.entries[i].1.history.push((clnum, byte));
            proof {
                lemma_update_one(mid, *self, i as int, a);
            }
        }
    }
}

/// After updating the cell at index `i` (address `a`) in place, every other
/// address still maps to its old cell.
proof fn lemma_update_one(pre: MemStore, post: MemStore, i: int, a: u64)
    requires
        pre.inv(),
        0 <= i < pre.entries@.len(),
        pre.entries@[i].0 == a,
        post.entries@.len() == pre.entries@.len(),
        post.entries@[i].0 == a,
        forall|k: int| 0 <= k < pre.entries@.len() && k != i ==> #[trigger] post.entries@[k]
            == pre.entries@[k],
    ensures
        post.inv(),
        post.has(a),
        post.idx_of(a) == i,
        pre.has(a) && pre.idx_of(a) == i,
        forall|x: u64| x != a ==> #[trigger] post.hist(x) == pre.hist(x),
        forall|x: u64| x != a ==> #[trigger] post.static_of(x) == pre.static_of(x),
{
    assert forall|k: int, l: int| 0 <= k < l < post.entries@.len() implies (
    #[trigger] post.entries@[k]).0 != (#[trigger] post.entries@[l]).0 by {
        assert(pre.entries@[k].0 != pre.entries@[l].0);
    }
    assert(post.entries@[i].0 == a);
    assert(pre.entries@[i].0 == a);
    assert forall|x: u64| x != a implies #[trigger] post.hist(x) == pre.hist(x) by {
        if pre.has(x) {
            let k = pre.idx_of(x);
            assert(pre.entries@[k].0 == x);
            assert(k != i);
            assert(post.entries@[k].0 == x);
        } else if post.has(x) {
            let k = post.idx_of(x);
            assert(post.entries@[k].0 == x);
            assert(k != i);
            assert(pre.entries@[k].0 == x);
        }
    }
    assert forall|x: u64| x != a implies #[trigger] post.static_of(x) == pre.static_of(x) by {
        if pre.has(x) {
            let k = pre.idx_of(x);
            assert(pre.entries@[k].0 == x);
            assert(k != i);
            assert(post.entries@[k].0 == x);
        } else if post.has(x) {
            let k = post.idx_of(x);
            assert(post.entries@[k].0 == x);
            assert(k != i);
            assert(pre.entries@[k].0 == x);
        }
    }
}

} // verus!
