//! Stack-variable prettification: occurrences of `[rbp - 0xN]` in
//! disassembly text become `var_N`, and `[rbp + 0xN]` become `arg_N`.

use vstd::prelude::*;

use crate::textutil::is_hex_char;

verus! {

/// ASCII whitespace, as the rewriter's pattern skips it.
pub open spec fn is_space(c: char) -> bool {
    c == ' ' || c == '\t' || c == '\n' || c == '\r' || c == '\u{b}' || c == '\u{c}'
}

/// Length of the whitespace run in `s` starting at `i`.
pub open spec fn ws_run(s: Seq<char>, i: int) -> nat
    decreases s.len() - i,
    when 0 <= i <= s.len()
{
    if i < s.len() && is_space(s[i]) {
        1 + ws_run(s, i + 1)
    } else {
        0
    }
}

/// Length of the hexadecimal-digit run in `s` starting at `i`.
pub open spec fn hex_run(s: Seq<char>, i: int) -> nat
    decreases s.len() - i,
    when 0 <= i <= s.len()
{
    if i < s.len() && is_hex_char(s[i]) {
        1 + hex_run(s, i + 1)
    } else {
        0
    }
}

/// A stack reference starting at position `i`: `[rbp`, optional spaces, a
/// sign, optional spaces, `0x`, one or more hex digits, `]`. Yields the
/// sign, the position of the first digit, and the position just past the
/// closing bracket.
pub open spec fn match_at(s: Seq<char>, i: int) -> Option<(char, int, int)> {
    if i + 4 <= s.len() && s[i] == '[' && s[i + 1] == 'r' && s[i + 2] == 'b' && s[i + 3] == 'p' {
        let i1 = i + 4 + ws_run(s, i + 4);
        if i1 < s.len() && (s[i1] == '-' || s[i1] == '+') {
            let i2 = i1 + 1 + ws_run(s, i1 + 1);
            if i2 + 1 < s.len() && s[i2] == '0' && s[i2 + 1] == 'x' {
                let d = hex_run(s, i2 + 2);
                if d > 0 && i2 + 2 + d < s.len() && s[i2 + 2 + d] == ']' {
                    Some((s[i1], i2 + 2, i2 + 2 + d + 1))
                } else {
                    None
                }
            } else {
                None
            }
        } else {
            None
        }
    } else {
        None
    }
}

/// The rewritten prefix label: `var_` for locals below the frame pointer,
/// `arg_` above it.
pub open spec fn label_of(sign: char) -> Seq<char> {
    if sign == '-' {
        seq!['v', 'a', 'r', '_']
    } else {
        seq!['a', 'r', 'g', '_']
    }
}

/// Within-range runs stay within the sequence.
pub proof fn lemma_ws_run_bound(s: Seq<char>, i: int)
    requires
        0 <= i <= s.len(),
    ensures
        i + ws_run(s, i) <= s.len(),
    decreases s.len() - i,
{
    if i < s.len() && is_space(s[i]) {
        lemma_ws_run_bound(s, i + 1);
    }
}

/// Within-range digit runs stay within the sequence.
pub proof fn lemma_hex_run_bound(s: Seq<char>, i: int)
    requires
        0 <= i <= s.len(),
    ensures
        i + hex_run(s, i) <= s.len(),
    decreases s.len() - i,
{
    if i < s.len() && is_hex_char(s[i]) {
        lemma_hex_run_bound(s, i + 1);
    }
}

/// A match starting at `i` ends after `i` and within the sequence.
pub proof fn lemma_match_at_bounds(s: Seq<char>, i: int)
    requires
        0 <= i <= s.len(),
        match_at(s, i) is Some,
    ensures
        ({
            let (sign, ds, end) = match_at(s, i)->Some_0;
            &&& i < ds
            &&& ds + hex_run(s, ds) < end
            &&& end <= s.len()
            &&& i < end
        }),
{
    lemma_ws_run_bound(s, i + 4);
    let i1 = i + 4 + ws_run(s, i + 4);
    lemma_ws_run_bound(s, i1 + 1);
}

/// The text from position `i` on, with every stack reference rewritten.
pub open spec fn rewrite_from(s: Seq<char>, i: int) -> Seq<char>
    decreases s.len() - i,
    when 0 <= i <= s.len() via rewrite_from_decreases
{
    if i >= s.len() {
        Seq::empty()
    } else {
        match match_at(s, i) {
            Some((sign, ds, end)) => label_of(sign) + s.subrange(ds, ds + hex_run(s, ds))
                + rewrite_from(s, end),
            None => seq![s[i]] + rewrite_from(s, i + 1),
        }
    }
}

#[via_fn]
proof fn rewrite_from_decreases(s: Seq<char>, i: int) {
    if i < s.len() && match_at(s, i) is Some {
        lemma_match_at_bounds(s, i);
    }
}

/// The whole text with every stack reference rewritten: `[rbp - 0xN]`
/// becomes `var_N` and `[rbp + 0xN]` becomes `arg_N`.
pub open spec fn spec_rewrite_stack_vars(s: Seq<char>) -> Seq<char> {
    rewrite_from(s, 0)
}

fn ws_run_exec(s: &[char], i: usize) -> (r: usize)
    requires
        i <= s@.len(),
    ensures
        r == ws_run(s@, i as int),
        i + r <= s@.len(),
{
    let n = s.len();
    let mut j: usize = i;
    while j < n && is_space_exec(s[j])
        invariant
            n == s@.len(),
            i <= j <= n,
            ws_run(s@, i as int) == (j - i) + ws_run(s@, j as int),
        decreases n - j,
    {
        j = j + 1;
    }
    j - i
}

fn is_space_exec(c: char) -> (r: bool)
    ensures
        r == is_space(c),
{
    c == ' ' || c == '\t' || c == '\n' || c == '\r' || c == '\u{b}' || c == '\u{c}'
}

fn is_hex_char_exec(c: char) -> (r: bool)
    ensures
        r == is_hex_char(c),
{
    ('0' <= c && c <= '9') || ('a' <= c && c <= 'f') || ('A' <= c && c <= 'F')
}

fn hex_run_exec(s: &[char], i: usize) -> (r: usize)
    requires
        i <= s@.len(),
    ensures
        r == hex_run(s@, i as int),
        i + r <= s@.len(),
{
    let n = s.len();
    let mut j: usize = i;
    while j < n && is_hex_char_exec(s[j])
        invariant
            n == s@.len(),
            i <= j <= n,
            hex_run(s@, i as int) == (j - i) + hex_run(s@, j as int),
        decreases n - j,
    {
        j = j + 1;
    }
    j - i
}

fn match_at_exec(s: &[char], i: usize) -> (r: Option<(char, usize, usize)>)
    requires
        i <= s@.len(),
    ensures
        match r {
            Some((sign, ds, end)) => match_at(s@, i as int) == Some(
                (sign, ds as int, end as int),
            ),
            None => match_at(s@, i as int) is None,
        },
{
    let n = s.len();
    if !(n >= 4 && i <= n - 4 && s[i] == '[' && s[i + 1] == 'r' && s[i + 2] == 'b' && s[i + 3]
        == 'p') {
        return None;
    }
    let i1 = i + 4 + ws_run_exec(s, i + 4);
    if !(i1 < n && (s[i1] == '-' || s[i1] == '+')) {
        return None;
    }
    let i2 = i1 + 1 + ws_run_exec(s, i1 + 1);
    if !(i2 < n && s[i2] == '0' && i2 + 1 < n && s[i2 + 1] == 'x') {
        return None;
    }
    let d = hex_run_exec(s, i2 + 2);
    if d > 0 && i2 + 2 + d < n && s[i2 + 2 + d] == ']' {
        Some((s[i1], i2 + 2, i2 + 2 + d + 1))
    } else {
        None
    }
}

/// Rewrite every stack reference in the text: `[rbp - 0xN]` becomes
/// `var_N` and `[rbp + 0xN]` becomes `arg_N`.
pub fn rewrite_stack_vars(s: &[char]) -> (r: Vec<char>)
    ensures
        r@ == spec_rewrite_stack_vars(s@),
{
    let n = s.len();
    let mut out: Vec<char> = Vec::new();
    let mut i: usize = 0;
    while i < n
        invariant
            n == s@.len(),
            i <= n,
            rewrite_from(s@, 0) == out@ + rewrite_from(s@, i as int),
        decreases n - i,
    {
        match match_at_exec(s, i) {
            Some((sign, ds, end)) => {
                let ghost pre = out@;
                proof {
                    lemma_match_at_bounds(s@, i as int);
                }
                if sign == '-' {
                    out.push('v');
                    out.push('a');
                    out.push('r');
                    out.push('_');
                } else {
                    out.push('a');
                    out.push('r');
                    out.push('g');
                    out.push('_');
                }
                proof {
                    assert(out@ =~= pre + label_of(sign));
                }
                let ghost mid = out@;
                let dlen = end - 1 - ds;
                let mut k: usize = 0;
                while k < dlen
                    invariant
                        n == s@.len(),
                        ds + dlen <= n,
                        k <= dlen,
                        out@ == mid + s@.subrange(ds as int, ds as int + k),
                    decreases dlen - k,
                {
                    out.push(s[ds + k]);
                    proof {
                        assert(out@ =~= mid + s@.subrange(ds as int, ds as int + k + 1));
                    }
                    k = k + 1;
                }
                proof {
                    assert(hex_run(s@, ds as int) == dlen);
                    assert(out@ =~= pre + (label_of(sign) + s@.subrange(
                        ds as int,
                        ds as int + hex_run(s@, ds as int),
                    )));
                    assert(rewrite_from(s@, i as int) == (label_of(sign) + s@.subrange(
                        ds as int,
                        ds as int + hex_run(s@, ds as int),
                    )) + rewrite_from(s@, end as int));
                    assert(rewrite_from(s@, 0) =~= out@ + rewrite_from(s@, end as int));
                }
                i = end;
            },
            None => {
                out.push(s[i]);
                proof {
                    assert(rewrite_from(s@, i as int) == seq![s@[i as int]] + rewrite_from(
                        s@,
                        i as int + 1,
                    ));
                    assert(rewrite_from(s@, 0) =~= out@ + rewrite_from(s@, i as int + 1));
                }
                i = i + 1;
            },
        }
    }
    proof {
        assert(rewrite_from(s@, n as int) =~= Seq::<char>::empty());
        assert(out@ =~= rewrite_from(s@, 0));
    }
    out
}

} // verus!
