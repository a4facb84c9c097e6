//! Bias arithmetic: converting between static (file) addresses and runtime
//! addresses, modulo the 64-bit address space.

use vstd::prelude::*;

use vstd::arithmetic::div_mod::{lemma_mod_multiples_vanish, lemma_small_mod};

verus! {

/// A static address plus the load bias, reduced into the 64-bit address
/// space.
pub open spec fn spec_rebias(addr: u64, bias: i64) -> u64 {
    (((addr as int) + (bias as int)) % 0x1_0000_0000_0000_0000) as u64
}

/// A runtime address minus the load bias, reduced into the 64-bit address
/// space.
pub open spec fn spec_unbias(addr: u64, bias: i64) -> u64 {
    (((addr as int) - (bias as int)) % 0x1_0000_0000_0000_0000) as u64
}

/// Address `addr` advanced by `k` bytes, reduced into the 64-bit address
/// space.
pub open spec fn spec_wrap_add(addr: u64, k: u64) -> u64 {
    (((addr as int) + (k as int)) % 0x1_0000_0000_0000_0000) as u64
}

/// Advance an address by `k` bytes, wrapping around the address space.
pub fn wrap_add(addr: u64, k: u64) -> (r: u64)
    ensures
        r == spec_wrap_add(addr, k),
{
    let r = addr.wrapping_add(k);
    proof {
        lemma_wrap_mod(addr as int + k as int);
    }
    r
}

proof fn lemma_wrap_mod(x: int)
    requires
        -0x1_0000_0000_0000_0000 <= x < 0x2_0000_0000_0000_0000,
    ensures
        0 <= x % 0x1_0000_0000_0000_0000 < 0x1_0000_0000_0000_0000,
        0 <= x < 0x1_0000_0000_0000_0000 ==> x % 0x1_0000_0000_0000_0000 == x,
        x < 0 ==> x % 0x1_0000_0000_0000_0000 == x + 0x1_0000_0000_0000_0000,
        x >= 0x1_0000_0000_0000_0000 ==> x % 0x1_0000_0000_0000_0000 == x
            - 0x1_0000_0000_0000_0000,
{
    let m: int = 0x1_0000_0000_0000_0000;
    if x < 0 {
        lemma_mod_multiples_vanish(1, x, m);
        lemma_small_mod((x + m) as nat, m as nat);
    } else if x < m {
        lemma_small_mod(x as nat, m as nat);
    } else {
        lemma_mod_multiples_vanish(-1, x, m);
        lemma_small_mod((x - m) as nat, m as nat);
    }
}

/// The magnitude of `bias` as an unsigned word.
fn bias_magnitude(bias: i64) -> (m: u64)
    requires
        bias < 0,
    ensures
        m == -(bias as int),
{
    (-(bias + 1)) as u64 + 1
}

/// The difference `a - b`, reduced into the 64-bit space.
pub fn wrap_sub_u64(a: u64, b: u64) -> (r: u64)
    ensures
        r as int == ((a as int) - (b as int)) % 0x1_0000_0000_0000_0000,
{
    let r = a.wrapping_sub(b);
    proof {
        lemma_wrap_mod(a as int - b as int);
    }
    r
}

/// Runtime address for a static address under the given bias.
pub fn rebias(addr: u64, bias: i64) -> (r: u64)
    ensures
        r == spec_rebias(addr, bias),
{
    if bias >= 0 {
        let r = addr.wrapping_add(bias as u64);
        proof {
            lemma_wrap_mod(addr as int + bias as int);
        }
        r
    } else {
        let m = bias_magnitude(bias);
        let r = addr.wrapping_sub(m);
        proof {
            lemma_wrap_mod(addr as int - m as int);
        }
        r
    }
}

/// Static address for a runtime address under the given bias.
pub fn unbias(addr: u64, bias: i64) -> (r: u64)
    ensures
        r == spec_unbias(addr, bias),
{
    if bias >= 0 {
        let r = addr.wrapping_sub(bias as u64);
        proof {
            lemma_wrap_mod(addr as int - bias as int);
        }
        r
    } else {
        let m = bias_magnitude(bias);
        let r = addr.wrapping_add(m);
        proof {
            lemma_wrap_mod(addr as int + m as int);
        }
        r
    }
}

/// Undoing the bias after applying it gives the static address back.
pub proof fn lemma_rebias_unbias(addr: u64, bias: i64)
    ensures
        spec_unbias(spec_rebias(addr, bias), bias) == addr,
{
    lemma_wrap_mod(addr as int + bias as int);
    let run = spec_rebias(addr, bias);
    lemma_wrap_mod(run as int - bias as int);
}

} // verus!
