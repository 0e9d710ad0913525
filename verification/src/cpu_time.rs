//! Consumed-CPU-time extraction from a process status record.
//!
//! The record is whitespace-separated fields; the user-mode and kernel-mode
//! consumed-time counters stand at the fixed positions 13 and 14 (counting
//! from zero).  `parse_cpu_time` sums the two; a missing or malformed record
//! yields `None`, which callers treat as "skip this PID this cycle".

use vstd::prelude::*;

use crate::text::{
    is_ascii_digit, all_digits, digits_val, next_non_ws, next_ws, lemma_next_non_ws_props,
    lemma_next_ws_props, scan_non_ws, scan_ws, parse_digits_u64,
};

verus! {

/// Start position of whitespace-separated token `k`, or past the end.
pub open spec fn token_start(s: Seq<u8>, k: nat) -> int
    decreases k,
{
    if k == 0 {
        next_non_ws(s, 0)
    } else {
        next_non_ws(s, next_ws(s, token_start(s, (k - 1) as nat)))
    }
}

/// Token `k` itself: from its start to the next whitespace.
pub open spec fn stat_field(s: Seq<u8>, k: nat) -> Seq<u8> {
    s.subrange(token_start(s, k), next_ws(s, token_start(s, k)))
}

/// The summed CPU time the record denotes: `None` when fields 13 and 14 are
/// missing, not all digits, or not representable in the counter type.
pub open spec fn cpu_time_of(s: Seq<u8>) -> Option<int> {
    if token_start(s, 14) < s.len() && all_digits(stat_field(s, 13)) && all_digits(
        stat_field(s, 14),
    ) && digits_val(stat_field(s, 13)) <= u64::MAX && digits_val(stat_field(s, 14)) <= u64::MAX
        && digits_val(stat_field(s, 13)) + digits_val(stat_field(s, 14)) <= u64::MAX {
        Option::Some((digits_val(stat_field(s, 13)) + digits_val(stat_field(s, 14))) as int)
    } else {
        Option::None
    }
}

/// Token starts never move left as the token index grows.
proof fn lemma_token_start_le(s: Seq<u8>, k1: nat, k2: nat)
    requires
        k1 <= k2,
    ensures
        token_start(s, k1) <= token_start(s, k2),
        0 <= token_start(s, k2) <= s.len(),
    decreases k2,
{
    if k2 == 0 {
        lemma_next_non_ws_props(s, 0);
    } else {
        let km = (k2 - 1) as nat;
        let kk = if k1 <= km {
            k1
        } else {
            km
        };
        lemma_token_start_le(s, kk, km);
        let p = token_start(s, km);
        lemma_next_ws_props(s, p);
        lemma_next_non_ws_props(s, next_ws(s, p));
    }
}

/// Parse the record and sum the user-mode and kernel-mode counters.
pub fn parse_cpu_time(stat: &[u8]) -> (r: Option<u64>)
    ensures
        r is Some <==> cpu_time_of(stat@) is Some,
        r matches Some(v) ==> Option::Some(v as int) == cpu_time_of(stat@),
{
    let n = stat.len();
    let mut k: usize = 0;
    let mut pos: usize = 0;
    let mut f13s: usize = 0;
    let mut f13e: usize = 0;
    let mut f14s: usize = 0;
    let mut f14e: usize = 0;
    while k < 15
        invariant
            k <= 15,
            pos <= n,
            n == stat@.len(),
            k == 0 ==> pos == 0,
            k > 0 ==> {
                &&& token_start(stat@, (k - 1) as nat) < n
                &&& pos == next_ws(stat@, token_start(stat@, (k - 1) as nat))
            },
            k > 13 ==> {
                &&& f13s == token_start(stat@, 13)
                &&& f13e == next_ws(stat@, token_start(stat@, 13))
                &&& f13s <= f13e <= n
            },
            k > 14 ==> {
                &&& f14s == token_start(stat@, 14)
                &&& f14e == next_ws(stat@, token_start(stat@, 14))
                &&& f14s <= f14e <= n
            },
        decreases 15 - k,
    {
        let ts = scan_non_ws(stat, pos);
        proof {
            assert(token_start(stat@, k as nat) == ts);
        }
        if ts == n {
            proof {
                lemma_token_start_le(stat@, k as nat, 14);
                assert(token_start(stat@, 14) >= n);
            }
            return Option::None;
        }
        let te = scan_ws(stat, ts);
        if k == 13 {
            f13s = ts;
            f13e = te;
        }
        if k == 14 {
            f14s = ts;
            f14e = te;
        }
        pos = te;
        k = k + 1;
    }
    proof {
        assert(token_start(stat@, 14) < n);
    }
    // both fields must be all digits
    let mut i = f13s;
    while i < f13e
        invariant
            f13s <= i <= f13e <= n,
            n == stat@.len(),
            f13s == token_start(stat@, 13),
            f13e == next_ws(stat@, token_start(stat@, 13)),
            forall|j: int| f13s <= j < i ==> is_ascii_digit(#[trigger] stat@[j]),
        decreases f13e - i,
    {
        let b = stat[i];
        if !(48 <= b && b <= 57) {
            proof {
                assert(!is_ascii_digit(stat_field(stat@, 13)[i - f13s]));
            }
            return Option::None;
        }
        i = i + 1;
    }
    let mut i2 = f14s;
    while i2 < f14e
        invariant
            f14s <= i2 <= f14e <= n,
            n == stat@.len(),
            f14s == token_start(stat@, 14),
            f14e == next_ws(stat@, token_start(stat@, 14)),
            forall|j: int| f14s <= j < i2 ==> is_ascii_digit(#[trigger] stat@[j]),
        decreases f14e - i2,
    {
        let b = stat[i2];
        if !(48 <= b && b <= 57) {
            proof {
                assert(!is_ascii_digit(stat_field(stat@, 14)[i2 - f14s]));
            }
            return Option::None;
        }
        i2 = i2 + 1;
    }
    proof {
        assert(all_digits(stat_field(stat@, 13)));
        assert(all_digits(stat_field(stat@, 14)));
    }
    let v13 = match parse_digits_u64(stat, f13s, f13e) {
        Option::Some(v) => v,
        Option::None => {
            return Option::None;
        },
    };
    let v14 = match parse_digits_u64(stat, f14s, f14e) {
        Option::Some(v) => v,
        Option::None => {
            return Option::None;
        },
    };
    if v13 > u64::MAX - v14 {
        return Option::None;
    }
    Option::Some(v13 + v14)
}

} // verus!
