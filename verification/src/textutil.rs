//! Verified text helpers: hexadecimal and decimal rendering, hexadecimal
//! parsing, and ASCII case folding over character sequences.

use vstd::prelude::*;

verus! {

/// The lowercase hexadecimal digit for a value below 16.
pub open spec fn hex_digit(d: int) -> char {
    if d == 0 {
        '0'
    } else if d == 1 {
        '1'
    } else if d == 2 {
        '2'
    } else if d == 3 {
        '3'
    } else if d == 4 {
        '4'
    } else if d == 5 {
        '5'
    } else if d == 6 {
        '6'
    } else if d == 7 {
        '7'
    } else if d == 8 {
        '8'
    } else if d == 9 {
        '9'
    } else if d == 10 {
        'a'
    } else if d == 11 {
        'b'
    } else if d == 12 {
        'c'
    } else if d == 13 {
        'd'
    } else if d == 14 {
        'e'
    } else {
        'f'
    }
}

/// Hexadecimal rendering of `v`, most significant digit first, no leading
/// zeros (a single `0` for zero).
pub open spec fn hex_chars(v: nat) -> Seq<char>
    decreases v,
{
    if v < 16 {
        seq![hex_digit(v as int)]
    } else {
        hex_chars(v / 16).push(hex_digit((v % 16) as int))
    }
}

fn hex_digit_exec(d: u64) -> (c: char)
    requires
        d < 16,
    ensures
        c == hex_digit(d as int),
{
    if d == 0 {
        '0'
    } else if d == 1 {
        '1'
    } else if d == 2 {
        '2'
    } else if d == 3 {
        '3'
    } else if d == 4 {
        '4'
    } else if d == 5 {
        '5'
    } else if d == 6 {
        '6'
    } else if d == 7 {
        '7'
    } else if d == 8 {
        '8'
    } else if d == 9 {
        '9'
    } else if d == 10 {
        'a'
    } else if d == 11 {
        'b'
    } else if d == 12 {
        'c'
    } else if d == 13 {
        'd'
    } else if d == 14 {
        'e'
    } else {
        'f'
    }
}

/// Render `v` in lowercase hexadecimal.
pub fn hex_vec(v: u64) -> (r: Vec<char>)
    ensures
        r@ == hex_chars(v as nat),
    decreases v,
{
    if v < 16 {
        let mut r: Vec<char> = Vec::new();
        r.push(hex_digit_exec(v));
        proof {
            assert(r@ =~= hex_chars(v as nat));
        }
        r
    } else {
        let mut r = hex_vec(v / 16);
        r.push(hex_digit_exec(v % 16));
        r
    }
}

/// Decimal rendering of `v`, most significant digit first.
pub open spec fn dec_chars(v: nat) -> Seq<char>
    decreases v,
{
    if v < 10 {
        seq![hex_digit(v as int)]
    } else {
        dec_chars(v / 10).push(hex_digit((v % 10) as int))
    }
}

/// Render `v` in decimal.
pub fn dec_vec(v: u64) -> (r: Vec<char>)
    ensures
        r@ == dec_chars(v as nat),
    decreases v,
{
    if v < 10 {
        let mut r: Vec<char> = Vec::new();
        r.push(hex_digit_exec(v));
        proof {
            assert(r@ =~= dec_chars(v as nat));
        }
        r
    } else {
        let mut r = dec_vec(v / 10);
        r.push(hex_digit_exec(v % 10));
        r
    }
}

/// The character is an ASCII hexadecimal digit.
pub open spec fn is_hex_char(c: char) -> bool {
    ('0' <= c && c <= '9') || ('a' <= c && c <= 'f') || ('A' <= c && c <= 'F')
}

/// The numeric value of an ASCII hexadecimal digit.
pub open spec fn hex_char_val(c: char) -> nat {
    if '0' <= c && c <= '9' {
        ((c as int) - ('0' as int)) as nat
    } else if 'a' <= c && c <= 'f' {
        ((c as int) - ('a' as int) + 10) as nat
    } else if 'A' <= c && c <= 'F' {
        ((c as int) - ('A' as int) + 10) as nat
    } else {
        0
    }
}

/// Every character of `s` is an ASCII hexadecimal digit.
pub open spec fn all_hex(s: Seq<char>) -> bool {
    forall|i: int| 0 <= i < s.len() ==> is_hex_char(#[trigger] s[i])
}

/// The value of a big-endian string of hexadecimal digits.
pub open spec fn hex_val(s: Seq<char>) -> nat
    decreases s.len(),
{
    if s.len() == 0 {
        0
    } else {
        hex_val(s.drop_last()) * 16 + hex_char_val(s.last())
    }
}

/// A hexadecimal string parses to a 64-bit value exactly when it is a
/// nonempty string of hex digits whose value fits.
pub open spec fn spec_parse_hex(s: Seq<char>) -> Option<u64> {
    if s.len() > 0 && all_hex(s) && hex_val(s) < 0x1_0000_0000_0000_0000 {
        Some(hex_val(s) as u64)
    } else {
        None
    }
}

fn hex_char_val_exec(c: char) -> (r: Option<u64>)
    ensures
        match r {
            Some(v) => is_hex_char(c) && v == hex_char_val(c) && v < 16,
            None => !is_hex_char(c),
        },
{
    if '0' <= c && c <= '9' {
        Some((c as u64) - ('0' as u64))
    } else if 'a' <= c && c <= 'f' {
        Some((c as u64) - ('a' as u64) + 10)
    } else if 'A' <= c && c <= 'F' {
        Some((c as u64) - ('A' as u64) + 10)
    } else {
        None
    }
}


/// Parse a big-endian hexadecimal digit string into a 64-bit value.
pub fn parse_hex(s: &[char]) -> (r: Option<u64>)
    ensures
        r == spec_parse_hex(s@),
{
    let n = s.len();
    if n == 0 {
        return None;
    }
    let mut acc: u64 = 0;
    let mut i: usize = 0;
    while i < n
        invariant
            n == s@.len(),
            0 < n,
            i <= n,
            all_hex(s@.take(i as int)),
            acc == hex_val(s@.take(i as int)),
        decreases n - i,
    {
        let d = match hex_char_val_exec(s[i]) {
            Some(d) => d,
            None => {
                proof {
                    assert(!is_hex_char(s@[i as int]));
                }
                return None;
            },
        };
        if acc > 0xFFF_FFFF_FFFF_FFFF {
            proof {
                lemma_hex_val_monotone(s@, i as int);
            }
            return None;
        }
        acc = acc * 16 + d;
        proof {
            assert(s@.take(i + 1).drop_last() =~= s@.take(i as int));
            assert(s@.take(i + 1).last() == s@[i as int]);
        }
        i = i + 1;
    }
    proof {
        assert(s@.take(n as int) =~= s@);
    }
    Some(acc)
}

/// Once a prefix pushes the value past the 64-bit range, the whole string
/// does too.
proof fn lemma_hex_val_monotone(s: Seq<char>, i: int)
    requires
        0 <= i < s.len(),
        hex_val(s.take(i)) * 16 + hex_char_val(s[i]) >= 0x1_0000_0000_0000_0000,
    ensures
        hex_val(s) >= 0x1_0000_0000_0000_0000,
    decreases s.len() - i,
{
    assert(s.take(i + 1).drop_last() =~= s.take(i));
    assert(s.take(i + 1).last() == s[i]);
    assert(hex_val(s.take(i + 1)) >= 0x1_0000_0000_0000_0000);
    lemma_hex_val_prefix(s, i + 1);
}

/// The value of a string is at least the value of any of its prefixes.
proof fn lemma_hex_val_prefix(s: Seq<char>, k: int)
    requires
        0 <= k <= s.len(),
    ensures
        hex_val(s) >= hex_val(s.take(k)),
    decreases s.len() - k,
{
    if k < s.len() {
        assert(s.take(k + 1).drop_last() =~= s.take(k));
        assert(hex_val(s.take(k + 1)) == hex_val(s.take(k)) * 16 + hex_char_val(
            s.take(k + 1).last(),
        ));
        lemma_hex_val_prefix(s, k + 1);
    } else {
        assert(s.take(k) =~= s);
    }
}

/// Every byte of `b` is zero.
pub open spec fn all_zero(b: Seq<u8>) -> bool {
    forall|i: int| 0 <= i < b.len() ==> #[trigger] b[i] == 0
}

/// Whether every byte of `b` is zero.
pub fn is_all_zero(b: &[u8]) -> (r: bool)
    ensures
        r == all_zero(b@),
{
    let n = b.len();
    let mut i: usize = 0;
    while i < n
        invariant
            n == b@.len(),
            i <= n,
            forall|j: int| 0 <= j < i ==> #[trigger] b@[j] == 0,
        decreases n - i,
    {
        if b[i] != 0 {
            return false;
        }
        i = i + 1;
    }
    true
}

/// Whether two byte strings hold the same bytes.
pub fn bytes_eq(a: &[u8], b: &[u8]) -> (r: bool)
    ensures
        r == (a@ == b@),
{
    let n = a.len();
    if n != b.len() {
        return false;
    }
    let mut i: usize = 0;
    while i < n
        invariant
            n == a@.len(),
            n == b@.len(),
            i <= n,
            forall|j: int| 0 <= j < i ==> #[trigger] a@[j] == b@[j],
        decreases n - i,
    {
        if a[i] != b[i] {
            return false;
        }
        i = i + 1;
    }
    proof {
        assert(a@ =~= b@);
    }
    true
}

/// ASCII lowercase of one character; other characters pass through.
pub open spec fn lower_char(c: char) -> char {
    if 'A' <= c && c <= 'Z' {
        (((c as u8) + 32) as u8) as char
    } else {
        c
    }
}

/// ASCII lowercase of a character sequence.
pub open spec fn lower_seq(s: Seq<char>) -> Seq<char> {
    s.map_values(|c: char| lower_char(c))
}

/// ASCII-lowercase a character vector.
pub fn to_lower(s: &[char]) -> (r: Vec<char>)
    ensures
        r@ == lower_seq(s@),
{
    let n = s.len();
    let mut out: Vec<char> = Vec::new();
    let mut i: usize = 0;
    while i < n
        invariant
            n == s@.len(),
            i <= n,
            out@.len() == i,
            forall|j: int| 0 <= j < i ==> out@[j] == lower_char(#[trigger] s@[j]),
        decreases n - i,
    {
        let c = s[i];
        if 'A' <= c && c <= 'Z' {
            out.push((((c as u8) + 32) as u8) as char);
        } else {
            out.push(c);
        }
        i = i + 1;
    }
    proof {
        assert(out@ =~= lower_seq(s@));
    }
    out
}

} // verus!
