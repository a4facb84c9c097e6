//! A small association list keyed by clnum, with unique keys and
//! insert-or-replace semantics.

use vstd::prelude::*;

verus! {

/// Map from clnum to a value, stored as a vector of unique-keyed pairs.
pub struct ClnumMap<V> {
    pub entries: Vec<(u32, V)>,
}

impl<V> ClnumMap<V> {
    /// Keys are unique, so each clnum names at most one value.
    pub open spec fn inv(&self) -> bool {
        forall|i: int, j: int|
            0 <= i < j < self.entries@.len() ==> (#[trigger] self.entries@[i]).0 != (
            #[trigger] self.entries@[j]).0
    }

    /// A value is recorded for clnum `c`.
    pub open spec fn has(&self, c: u32) -> bool {
        exists|i: int| 0 <= i < self.entries@.len() && (#[trigger] self.entries@[i]).0 == c
    }

    /// The index of the entry for clnum `c` (meaningful when `has(c)`).
    pub open spec fn idx_of(&self, c: u32) -> int {
        choose|i: int| 0 <= i < self.entries@.len() && (#[trigger] self.entries@[i]).0 == c
    }

    /// The value recorded for clnum `c`, if any.
    pub open spec fn spec_get(&self, c: u32) -> Option<V> {
        if self.has(c) {
            Some(self.entries@[self.idx_of(c)].1)
        } else {
            None
        }
    }

    pub fn new() -> (r: ClnumMap<V>)
        ensures
            r.inv(),
            forall|c: u32| !(#[trigger] r.has(c)),
            r.entries@.len() == 0,
    {
        ClnumMap { entries: Vec::new() }
    }

    fn find(&self, c: u32) -> (r: Option<usize>)
        requires
            self.inv(),
        ensures
            match r {
                Some(i) => self.has(c) && i == self.idx_of(c) && i < self.entries@.len(),
                None => !self.has(c),
            },
    {
        let n = self.entries.len();
        let mut i: usize = 0;
        while i < n
            invariant
                n == self.entries@.len(),
                i <= n,
                self.inv(),
                forall|k: int| 0 <= k < i ==> (#[trigger] self.entries@[k]).0 != c,
            decreases n - i,
        {
            if self.entries[i].0 == c {
                return Some(i);
            }
            i = i + 1;
        }
        None
    }

    /// Borrow the value recorded for clnum `c`, if any.
    pub fn get(&self, c: u32) -> (r: Option<&V>)
        requires
            self.inv(),
        ensures
            match r {
                Some(v) => self.spec_get(c) == Some(*v),
                None => self.spec_get(c) is None,
            },
    {
        match self.find(c) {
            Some(i) => Some(&self.entries[i].1),
            None => None,
        }
    }

    /// Record `v` for clnum `c`, replacing any earlier value.
    pub fn insert(&mut self, c: u32, v: V)
        requires
            old(self).inv(),
        ensures
            final(self).inv(),
            final(self).spec_get(c) == Some(v),
            forall|x: u32| x != c ==> #[trigger] final(self).spec_get(x) == old(self).spec_get(x),
    {
        let ghost pre = *self;
        match self.find(c) {
            Some(i) => {
                self.entries[i].1 = v;
                proof {
                    assert forall|k: int, l: int|
                        0 <= k < l < self.entries@.len() implies (#[trigger] self.entries@[k]).0
                        != (#[trigger] self.entries@[l]).0 by {
                        assert(pre.entries@[k].0 != pre.entries@[l].0);
                    }
                    assert(self.entries@[i as int].0 == c);
                    assert forall|x: u32| x != c implies #[trigger] self.spec_get(x)
                        == pre.spec_get(x) by {
                        if pre.has(x) {
                            let k = pre.idx_of(x);
                            assert(pre.entries@[k].0 == x);
                            assert(k != i);
                            assert(self.entries@[k].0 == x);
                        } else if self.has(x) {
                            let k = self.idx_of(x);
                            assert(self.entries@[k].0 == x);
                            assert(k != i);
                            assert(pre.entries@[k].0 == x);
                        }
                    }
                }
            },
            None => {
                let ghost i = self.entries@.len();
                self.entries.push((c, v));
                proof {
                    assert(self.entries@[i as int].0 == c);
                    assert forall|x: u32| x != c implies #[trigger] self.spec_get(x)
                        == pre.spec_get(x) by {
                        if pre.has(x) {
                            let k = pre.idx_of(x);
                            assert(pre.entries@[k].0 == x);
                            assert(self.entries@[k].0 == x);
                        } else if self.has(x) {
                            let k = self.idx_of(x);
                            assert(self.entries@[k].0 == x);
                            assert(pre.entries@[k].0 == x);
                        }
                    }
                }
            },
        }
    }
}

/// Map from address to a value, stored as a vector of unique-keyed pairs.
pub struct AddrMap<V> {
    pub entries: Vec<(u64, V)>,
}

impl<V> AddrMap<V> {
    /// Keys are unique, so each address names at most one value.
    pub open spec fn inv(&self) -> bool {
        forall|i: int, j: int|
            0 <= i < j < self.entries@.len() ==> (#[trigger] self.entries@[i]).0 != (
            #[trigger] self.entries@[j]).0
    }

    /// A value is recorded for address `a`.
    pub open spec fn has(&self, a: u64) -> bool {
        exists|i: int| 0 <= i < self.entries@.len() && (#[trigger] self.entries@[i]).0 == a
    }

    /// The index of the entry for address `a` (meaningful when `has(a)`).
    pub open spec fn idx_of(&self, a: u64) -> int {
        choose|i: int| 0 <= i < self.entries@.len() && (#[trigger] self.entries@[i]).0 == a
    }

    /// The value recorded for address `a`, if any.
    pub open spec fn spec_get(&self, a: u64) -> Option<V> {
        if self.has(a) {
            Some(self.entries@[self.idx_of(a)].1)
        } else {
            None
        }
    }

    pub fn new() -> (r: AddrMap<V>)
        ensures
            r.inv(),
            forall|a: u64| !(#[trigger] r.has(a)),
            r.entries@.len() == 0,
    {
        AddrMap { entries: Vec::new() }
    }

    fn find(&self, a: u64) -> (r: Option<usize>)
        requires
            self.inv(),
        ensures
            match r {
                Some(i) => self.has(a) && i == self.idx_of(a) && i < self.entries@.len(),
                None => !self.has(a),
            },
    {
        let n = self.entries.len();
        let mut i: usize = 0;
        while i < n
            invariant
                n == self.entries@.len(),
                i <= n,
                self.inv(),
                forall|k: int| 0 <= k < i ==> (#[trigger] self.entries@[k]).0 != a,
            decreases n - i,
        {
            if self.entries[i].0 == a {
                return Some(i);
            }
            i = i + 1;
        }
        None
    }

    /// Borrow the value recorded for address `a`, if any.
    pub fn get(&self, a: u64) -> (r: Option<&V>)
        requires
            self.inv(),
        ensures
            match r {
                Some(v) => self.spec_get(a) == Some(*v),
                None => self.spec_get(a) is None,
            },
    {
        match self.find(a) {
            Some(i) => Some(&self.entries[i].1),
            None => None,
        }
    }

    /// Record `v` for address `a`, replacing any earlier value.
    pub fn insert(&mut self, a: u64, v: V)
        requires
            old(self).inv(),
        ensures
            final(self).inv(),
            final(self).spec_get(a) == Some(v),
            forall|x: u64| x != a ==> #[trigger] final(self).spec_get(x) == old(self).spec_get(x),
    {
        let ghost pre = *self;
        match self.find(a) {
            Some(i) => {
                self.entries[i].1 = v;
                proof {
                    assert forall|k: int, l: int|
                        0 <= k < l < self.entries@.len() implies (#[trigger] self.entries@[k]).0
                        != (#[trigger] self.entries@[l]).0 by {
                        assert(pre.entries@[k].0 != pre.entries@[l].0);
                    }
                    assert(self.entries@[i as int].0 == a);
                    assert forall|x: u64| x != a implies #[trigger] self.spec_get(x)
                        == pre.spec_get(x) by {
                        lemma_addr_entry_transfer(pre, *self, i as int, x);
                    }
                }
            },
            None => {
                let ghost i = self.entries@.len();
                self.entries.push((a, v));
                proof {
                    assert(self.entries@[i as int].0 == a);
                    assert forall|x: u64| x != a implies #[trigger] self.spec_get(x)
                        == pre.spec_get(x) by {
                        lemma_addr_entry_transfer(pre, *self, i as int, x);
                    }
                }
            },
        }
    }

    /// Record `v` for address `a` only when nothing is recorded yet.
    pub fn insert_if_absent(&mut self, a: u64, v: V)
        requires
            old(self).inv(),
        ensures
            final(self).inv(),
            old(self).has(a) ==> *final(self) == *old(self),
            !old(self).has(a) ==> final(self).spec_get(a) == Some(v),
            forall|x: u64| x != a ==> #[trigger] final(self).spec_get(x) == old(self).spec_get(x),
    {
        let ghost pre = *self;
        match self.find(a) {
            Some(_) => {},
            None => {
                let ghost i = self.entries@.len();
                self.entries.push((a, v));
                proof {
                    assert(self.entries@[i as int].0 == a);
                    assert forall|x: u64| x != a implies #[trigger] self.spec_get(x)
                        == pre.spec_get(x) by {
                        lemma_addr_entry_transfer(pre, *self, i as int, x);
                    }
                }
            },
        }
    }

    /// Remove and return the value recorded for address `a`, if any.
    pub fn take(&mut self, a: u64) -> (r: Option<V>)
        requires
            old(self).inv(),
        ensures
            final(self).inv(),
            r == old(self).spec_get(a),
            final(self).spec_get(a) is None,
            forall|x: u64| x != a ==> #[trigger] final(self).spec_get(x) == old(self).spec_get(x),
    {
        let ghost pre = *self;
        match self.find(a) {
            Some(i) => {
                let (_, v) = self.entries.remove(i);
                proof {
                    assert forall|k: int, l: int|
                        0 <= k < l < self.entries@.len() implies (#[trigger] self.entries@[k]).0
                        != (#[trigger] self.entries@[l]).0 by {
                        if l < i {
                            assert(pre.entries@[k] == self.entries@[k]);
                            assert(pre.entries@[l] == self.entries@[l]);
                        } else if k < i {
                            assert(pre.entries@[k] == self.entries@[k]);
                            assert(pre.entries@[l + 1] == self.entries@[l]);
                        } else {
                            assert(pre.entries@[k + 1] == self.entries@[k]);
                            assert(pre.entries@[l + 1] == self.entries@[l]);
                        }
                    }
                    assert forall|x: u64| #[trigger] self.has(x) implies x != a && pre.has(x) by {
                        let k = self.idx_of(x);
                        if k < i {
                            assert(pre.entries@[k].0 == x);
                            assert(pre.entries@[i as int].0 == a);
                        } else {
                            assert(pre.entries@[k + 1].0 == x);
                            assert(pre.entries@[i as int].0 == a);
                        }
                    }
                    assert forall|x: u64| x != a implies #[trigger] self.spec_get(x)
                        == pre.spec_get(x) by {
                        if pre.has(x) {
                            let k = pre.idx_of(x);
                            assert(pre.entries@[k].0 == x);
                            assert(k != i);
                            if k < i {
                                assert(self.entries@[k].0 == x);
                                assert(self.entries@[self.idx_of(x)] == pre.entries@[pre.idx_of(
                                    x,
                                )]);
                            } else {
                                assert(self.entries@[k - 1].0 == x);
                                assert(self.entries@[self.idx_of(x)] == pre.entries@[pre.idx_of(
                                    x,
                                )]);
                            }
                        }
                    }
                }
                Some(v)
            },
            None => None,
        }
    }
}

/// When only the entry at index `i` changed or grew, every other key maps
/// as before.
proof fn lemma_addr_entry_transfer<V>(pre: AddrMap<V>, post: AddrMap<V>, i: int, x: u64)
    requires
        pre.inv(),
        post.inv(),
        0 <= i < post.entries@.len(),
        pre.entries@.len() == post.entries@.len() || pre.entries@.len() + 1
            == post.entries@.len(),
        i < pre.entries@.len() ==> pre.entries@.len() == post.entries@.len(),
        i >= pre.entries@.len() ==> pre.entries@.len() + 1 == post.entries@.len(),
        forall|k: int| 0 <= k < pre.entries@.len() && k != i ==> #[trigger] post.entries@[k]
            == pre.entries@[k],
        post.entries@[i].0 != x,
        i < pre.entries@.len() ==> pre.entries@[i].0 == post.entries@[i].0,
    ensures
        post.spec_get(x) == pre.spec_get(x),
{
    if pre.has(x) {
        let k = pre.idx_of(x);
        assert(pre.entries@[k].0 == x);
        assert(k != i);
        assert(post.entries@[k].0 == x);
        assert(post.entries@[post.idx_of(x)] == pre.entries@[pre.idx_of(x)]);
    } else if post.has(x) {
        let k = post.idx_of(x);
        assert(post.entries@[k].0 == x);
        assert(k != i);
        assert(pre.entries@[k].0 == x);
    }
}

} // verus!
