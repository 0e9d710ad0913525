//! Byte-string scanning primitives shared by the parsers: decimal digit
//! runs, ASCII whitespace, first occurrence of a byte, and trimming.
//!
//! Each executable scanner is specified against a structurally recursive
//! spec function over the byte sequence, so callers can reason about parse
//! results positionally.

use vstd::prelude::*;

verus! {

/// ASCII decimal digit.
pub open spec fn is_ascii_digit(b: u8) -> bool {
    48 <= b <= 57
}

/// ASCII whitespace, the set Rust's `char::is_whitespace` accepts in ASCII.
pub open spec fn is_ascii_ws(b: u8) -> bool {
    b == 32 || b == 9 || b == 10 || b == 11 || b == 12 || b == 13
}

/// Every byte of `s` is a decimal digit.
pub open spec fn all_digits(s: Seq<u8>) -> bool {
    forall|i: int| 0 <= i < s.len() ==> is_ascii_digit(#[trigger] s[i])
}

/// The numeric value of a digit string, most significant digit first.
/// Non-digit bytes contribute zero; callers guard with `all_digits`.
pub open spec fn digits_val(s: Seq<u8>) -> nat
    decreases s.len(),
{
    if s.len() == 0 {
        0
    } else {
        digits_val(s.drop_last()) * 10 + (if is_ascii_digit(s.last()) {
            (s.last() - 48) as nat
        } else {
            0
        })
    }
}

/// Ten to the power `n`.
pub open spec fn pow10(n: nat) -> int
    decreases n,
{
    if n == 0 {
        1
    } else {
        10 * pow10((n - 1) as nat)
    }
}

/// Index of the first occurrence of `b` in `s` at or after `i`, or `s.len()`.
pub open spec fn find_byte(s: Seq<u8>, b: u8, i: int) -> int
    decreases s.len() - i,
{
    if i < 0 || i >= s.len() {
        s.len() as int
    } else if s[i] == b {
        i
    } else {
        find_byte(s, b, i + 1)
    }
}

/// Index of the first non-whitespace byte at or after `i`, or `s.len()`.
pub open spec fn next_non_ws(s: Seq<u8>, i: int) -> int
    decreases s.len() - i,
{
    if i < 0 || i >= s.len() {
        s.len() as int
    } else if is_ascii_ws(s[i]) {
        next_non_ws(s, i + 1)
    } else {
        i
    }
}

/// Index of the first whitespace byte at or after `i`, or `s.len()`.
pub open spec fn next_ws(s: Seq<u8>, i: int) -> int
    decreases s.len() - i,
{
    if i < 0 || i >= s.len() {
        s.len() as int
    } else if is_ascii_ws(s[i]) {
        i
    } else {
        next_ws(s, i + 1)
    }
}

/// One past the last non-whitespace byte strictly before `i`, or `0`.
pub open spec fn rtrim_idx(s: Seq<u8>, i: int) -> int
    decreases i,
{
    if i <= 0 || i > s.len() {
        0
    } else if is_ascii_ws(s[i - 1]) {
        rtrim_idx(s, i - 1)
    } else {
        i
    }
}

/// `s` with leading and trailing ASCII whitespace removed.
pub open spec fn trim_of(s: Seq<u8>) -> Seq<u8> {
    let a = next_non_ws(s, 0);
    let b = rtrim_idx(s, s.len() as int);
    if a <= b {
        s.subrange(a, b)
    } else {
        Seq::empty()
    }
}

/// Position and content facts about `find_byte`, for callers that need to
/// know the scanned prefix holds no occurrence.
pub proof fn lemma_find_byte_props(s: Seq<u8>, b: u8, i: int)
    requires
        0 <= i <= s.len(),
    ensures
        i <= find_byte(s, b, i) <= s.len(),
        find_byte(s, b, i) < s.len() ==> s[find_byte(s, b, i)] == b,
        forall|j: int| i <= j < find_byte(s, b, i) ==> s[j] != b,
    decreases s.len() - i,
{
    if i < s.len() && s[i] != b {
        lemma_find_byte_props(s, b, i + 1);
    }
}

/// Position and content facts about `next_non_ws`.
pub proof fn lemma_next_non_ws_props(s: Seq<u8>, i: int)
    requires
        0 <= i <= s.len(),
    ensures
        i <= next_non_ws(s, i) <= s.len(),
        next_non_ws(s, i) < s.len() ==> !is_ascii_ws(s[next_non_ws(s, i)]),
        forall|j: int| i <= j < next_non_ws(s, i) ==> is_ascii_ws(s[j]),
    decreases s.len() - i,
{
    if i < s.len() && is_ascii_ws(s[i]) {
        lemma_next_non_ws_props(s, i + 1);
    }
}

/// Position and content facts about `next_ws`.
pub proof fn lemma_next_ws_props(s: Seq<u8>, i: int)
    requires
        0 <= i <= s.len(),
    ensures
        i <= next_ws(s, i) <= s.len(),
        next_ws(s, i) < s.len() ==> is_ascii_ws(s[next_ws(s, i)]),
        forall|j: int| i <= j < next_ws(s, i) ==> !is_ascii_ws(s[j]),
    decreases s.len() - i,
{
    if i < s.len() && !is_ascii_ws(s[i]) {
        lemma_next_ws_props(s, i + 1);
    }
}

/// Position and content facts about `rtrim_idx`.
pub proof fn lemma_rtrim_props(s: Seq<u8>, i: int)
    requires
        0 <= i <= s.len(),
    ensures
        0 <= rtrim_idx(s, i) <= i,
        rtrim_idx(s, i) > 0 ==> !is_ascii_ws(s[rtrim_idx(s, i) - 1]),
        forall|j: int| rtrim_idx(s, i) <= j < i ==> is_ascii_ws(s[j]),
    decreases i,
{
    if 0 < i <= s.len() && is_ascii_ws(s[i - 1]) {
        lemma_rtrim_props(s, i - 1);
    }
}

/// A longer digit prefix never has a smaller value.
pub proof fn lemma_digits_val_take_le(s: Seq<u8>, j: int, k: int)
    requires
        0 <= j <= k <= s.len(),
    ensures
        digits_val(s.take(j)) <= digits_val(s.take(k)),
    decreases k - j,
{
    if j < k {
        lemma_digits_val_take_le(s, j, k - 1);
        assert(s.take(k).drop_last() =~= s.take(k - 1));
        assert(digits_val(s.take(k - 1)) * 10 >= digits_val(s.take(k - 1))) by (nonlinear_arith);
    }
}

/// `pow10` is at least one.
pub proof fn lemma_pow10_pos(n: nat)
    ensures
        pow10(n) >= 1,
    decreases n,
{
    if n > 0 {
        lemma_pow10_pos((n - 1) as nat);
    }
}

/// `pow10` never decreases.
pub proof fn lemma_pow10_le(m: nat, n: nat)
    requires
        m <= n,
    ensures
        pow10(m) <= pow10(n),
    decreases n,
{
    if m < n {
        lemma_pow10_le(m, (n - 1) as nat);
        lemma_pow10_pos((n - 1) as nat);
    }
}

/// Find the first occurrence of `b` at or after `from`.
pub fn scan_byte(s: &[u8], b: u8, from: usize) -> (r: usize)
    requires
        from <= s@.len(),
    ensures
        r == find_byte(s@, b, from as int),
        from <= r <= s@.len(),
{
    let mut i = from;
    while i < s.len()
        invariant
            from <= i <= s@.len(),
            find_byte(s@, b, from as int) == find_byte(s@, b, i as int),
        decreases s@.len() - i,
    {
        if s[i] == b {
            return i;
        }
        i = i + 1;
    }
    i
}

/// Find the first non-whitespace byte at or after `from`.
pub fn scan_non_ws(s: &[u8], from: usize) -> (r: usize)
    requires
        from <= s@.len(),
    ensures
        r == next_non_ws(s@, from as int),
        from <= r <= s@.len(),
{
    let mut i = from;
    while i < s.len()
        invariant
            from <= i <= s@.len(),
            next_non_ws(s@, from as int) == next_non_ws(s@, i as int),
        decreases s@.len() - i,
    {
        let c = s[i];
        if !(c == 32 || c == 9 || c == 10 || c == 11 || c == 12 || c == 13) {
            return i;
        }
        i = i + 1;
    }
    i
}

/// Find the first whitespace byte at or after `from`.
pub fn scan_ws(s: &[u8], from: usize) -> (r: usize)
    requires
        from <= s@.len(),
    ensures
        r == next_ws(s@, from as int),
        from <= r <= s@.len(),
{
    let mut i = from;
    while i < s.len()
        invariant
            from <= i <= s@.len(),
            next_ws(s@, from as int) == next_ws(s@, i as int),
        decreases s@.len() - i,
    {
        let c = s[i];
        if c == 32 || c == 9 || c == 10 || c == 11 || c == 12 || c == 13 {
            return i;
        }
        i = i + 1;
    }
    i
}

/// Find the right-trim position at or before `upto`.
pub fn scan_rtrim(s: &[u8], upto: usize) -> (r: usize)
    requires
        upto <= s@.len(),
    ensures
        r == rtrim_idx(s@, upto as int),
        r <= upto,
{
    let mut i = upto;
    while i > 0
        invariant
            i <= upto,
            upto <= s@.len(),
            rtrim_idx(s@, upto as int) == rtrim_idx(s@, i as int),
        decreases i,
    {
        let c = s[i - 1];
        if !(c == 32 || c == 9 || c == 10 || c == 11 || c == 12 || c == 13) {
            return i;
        }
        i = i - 1;
    }
    i
}

/// Copy a byte slice into an owned vector.
pub fn copy_bytes(s: &[u8]) -> (r: Vec<u8>)
    ensures
        r@ == s@,
{
    vstd::slice::slice_to_vec(s)
}

/// Decide byte-string equality.
pub fn bytes_eq(a: &[u8], b: &[u8]) -> (r: bool)
    ensures
        r == (a@ == b@),
{
    if a.len() != b.len() {
        proof {
            if a@ == b@ {
                assert(a@.len() == b@.len());
            }
        }
        return false;
    }
    let mut i: usize = 0;
    while i < a.len()
        invariant
            i <= a@.len(),
            a@.len() == b@.len(),
            forall|j: int| 0 <= j < i ==> a@[j] == b@[j],
        decreases a@.len() - i,
    {
        if a[i] != b[i] {
            return false;
        }
        i = i + 1;
    }
    proof {
        assert(a@ =~= b@);
    }
    true
}

/// Parse the digit run `s[from..to)` as a number; `None` exactly when the
/// value exceeds `u64::MAX`.
pub fn parse_digits_u64(s: &[u8], from: usize, to: usize) -> (r: Option<u64>)
    requires
        from <= to <= s@.len(),
        all_digits(s@.subrange(from as int, to as int)),
    ensures
        r is Some <==> digits_val(s@.subrange(from as int, to as int)) <= u64::MAX,
        r matches Some(v) ==> v == digits_val(s@.subrange(from as int, to as int)),
{
    let ghost g = s@.subrange(from as int, to as int);
    let mut acc: u64 = 0;
    let mut j = from;
    proof {
        assert(g.take(0) =~= Seq::<u8>::empty());
    }
    while j < to
        invariant
            from <= j <= to <= s@.len(),
            g == s@.subrange(from as int, to as int),
            all_digits(g),
            acc == digits_val(g.take(j - from)),
        decreases to - j,
    {
        let d = s[j];
        proof {
            assert(g[j - from] == s@[j as int]);
            assert(is_ascii_digit(g[j - from]));
            assert(g.take(j - from + 1).drop_last() =~= g.take(j - from));
            assert(g.take(j - from + 1).last() == g[j - from]);
        }
        let wide: u128 = (acc as u128) * 10 + ((d - 48) as u128);
        if wide > u64::MAX as u128 {
            proof {
                lemma_digits_val_take_le(g, j - from + 1, g.len() as int);
                assert(g.take(g.len() as int) =~= g);
            }
            return None;
        }
        acc = wide as u64;
        j = j + 1;
    }
    proof {
        assert(g.take(g.len() as int) =~= g);
    }
    Some(acc)
}

} // verus!
