//! A small set of 64-bit values, stored as a strictly increasing vector.

use vstd::prelude::*;

verus! {

/// The entries of `v` are strictly increasing.
pub open spec fn strictly_increasing_u64(v: Seq<u64>) -> bool {
    forall|i: int, j: int| 0 <= i < j < v.len() ==> v[i] < v[j]
}

/// A set of 64-bit values.
pub struct U64Set {
    pub v: Vec<u64>,
}

impl U64Set {
    /// The stored entries are strictly increasing, so each value appears
    /// once.
    pub open spec fn inv(&self) -> bool {
        strictly_increasing_u64(self.v@)
    }

    /// The mathematical set this vector holds.
    pub open spec fn set_of(&self) -> Set<u64> {
        Set::new(|x: u64| self.v@.contains(x))
    }

    pub fn new() -> (r: U64Set)
        ensures
            r.inv(),
            r.set_of() == Set::<u64>::empty(),
    {
        let r = U64Set { v: Vec::new() };
        proof {
            assert(r.set_of() =~= Set::<u64>::empty());
        }
        r
    }

    /// Whether the set holds `x`.
    pub fn contains(&self, x: u64) -> (r: bool)
        ensures
            r == self.set_of().contains(x),
    {
        let n = self.v.len();
        let mut i: usize = 0;
        while i < n
            invariant
                n == self.v@.len(),
                i <= n,
                forall|k: int| 0 <= k < i ==> (#[trigger] self.v@[k]) != x,
            decreases n - i,
        {
            if self.v[i] == x {
                return true;
            }
            i = i + 1;
        }
        proof {
            if self.v@.contains(x) {
                let k = choose|k: int| 0 <= k < self.v@.len() && self.v@[k] == x;
            }
        }
        false
    }

    /// Add `x` to the set.
    pub fn insert(&mut self, x: u64)
        requires
            old(self).inv(),
        ensures
            final(self).inv(),
            final(self).set_of() == old(self).set_of().insert(x),
    {
        let n = self.v.len();
        let mut i: usize = 0;
        while i < n && self.v[i] < x
            invariant
                n == self.v@.len(),
                i <= n,
                self.inv(),
                *self == *old(self),
                forall|k: int| 0 <= k < i ==> (#[trigger] self.v@[k]) < x,
            decreases n - i,
        {
            i = i + 1;
        }
        if i < n && self.v[i] == x {
            proof {
                assert(self.set_of() =~= old(self).set_of().insert(x));
            }
            return ;
        }
        let ghost pre = self.v@;
        self.v.insert(i, x);
        proof {
            assert forall|a: int, b: int| 0 <= a < b < self.v@.len() implies self.v@[a]
                < self.v@[b] by {
                if a < i && b > i {
                    assert(pre[a] == self.v@[a]);
                    assert(pre[b - 1] == self.v@[b]);
                    if b - 1 == i as int {
                    } else {
                        assert(pre[a] < pre[b - 1]);
                    }
                } else if b == i as int {
                    assert(self.v@[a] == pre[a]);
                } else if a == i as int {
                    assert(self.v@[b] == pre[b - 1]);
                    assert(pre[b - 1] >= pre[i as int]);
                    assert(pre[i as int] != x);
                } else if b < i {
                    assert(self.v@[a] == pre[a] && self.v@[b] == pre[b]);
                } else {
                    assert(self.v@[a] == pre[a - 1] && self.v@[b] == pre[b - 1]);
                }
            }
            assert forall|y: u64| #[trigger]
                self.v@.contains(y) == (pre.contains(y) || y == x) by {
                if self.v@.contains(y) {
                    let k = choose|k: int| 0 <= k < self.v@.len() && self.v@[k] == y;
                    if k < i {
                        assert(pre[k] == y);
                    } else if k == i as int {
                    } else {
                        assert(pre[k - 1] == y);
                    }
                }
                if pre.contains(y) {
                    let k = choose|k: int| 0 <= k < pre.len() && pre[k] == y;
                    if k < i {
                        assert(self.v@[k] == y);
                    } else {
                        assert(self.v@[k + 1] == y);
                    }
                }
                if y == x {
                    assert(self.v@[i as int] == y);
                }
            }
            assert(self.set_of() =~= old(self).set_of().insert(x));
        }
    }

    /// Remove `x` from the set (absent values are left alone).
    pub fn remove(&mut self, x: u64)
        requires
            old(self).inv(),
        ensures
            final(self).inv(),
            final(self).set_of() == old(self).set_of().remove(x),
    {
        let n = self.v.len();
        let mut i: usize = 0;
        while i < n
            invariant
                n == self.v@.len(),
                i <= n,
                self.inv(),
                *self == *old(self),
                forall|k: int| 0 <= k < i ==> (#[trigger] self.v@[k]) != x,
            decreases n - i,
        {
            if self.v[i] == x {
                let ghost pre = self.v@;
                self.v.remove(i);
                proof {
                    assert forall|a: int, b: int| 0 <= a < b < self.v@.len() implies self.v@[a]
                        < self.v@[b] by {
                        if b < i {
                            assert(self.v@[a] == pre[a] && self.v@[b] == pre[b]);
                        } else if a < i {
                            assert(self.v@[a] == pre[a] && self.v@[b] == pre[b + 1]);
                        } else {
                            assert(self.v@[a] == pre[a + 1] && self.v@[b] == pre[b + 1]);
                        }
                    }
                    assert forall|y: u64| #[trigger]
                        self.v@.contains(y) == (pre.contains(y) && y != x) by {
                        if self.v@.contains(y) {
                            let k = choose|k: int| 0 <= k < self.v@.len() && self.v@[k] == y;
                            if k < i {
                                assert(pre[k] == y);
                                assert(y != x);
                            } else {
                                assert(pre[k + 1] == y);
                                assert(pre[i as int] == x);
                                assert(pre[i as int] < pre[k + 1]);
                            }
                        }
                        if pre.contains(y) && y != x {
                            let k = choose|k: int| 0 <= k < pre.len() && pre[k] == y;
                            if k < i {
                                assert(self.v@[k] == y);
                            } else if k == i as int {
                            } else {
                                assert(self.v@[k - 1] == y);
                            }
                        }
                    }
                    assert(self.set_of() =~= old(self).set_of().remove(x));
                }
                return ;
            }
            i = i + 1;
        }
        proof {
            if old(self).set_of().contains(x) {
                let k = choose|k: int| 0 <= k < self.v@.len() && self.v@[k] == x;
            }
            assert(self.set_of() =~= old(self).set_of().remove(x));
        }
    }
}

} // verus!
