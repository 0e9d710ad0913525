//! Identity extraction from a process's invocation arguments.
//!
//! The argument vector arrives as raw null-separated bytes.  The VM name is
//! the value of the first `guest=` occurrence in the null-stripped text,
//! terminated at whitespace or a comma, defaulting to `Unknown`; the vCPU
//! count is the integer of the first `-smp <n>` or `-smp cpus=<n>...`
//! argument (nulls read as separators), defaulting to one.

use vstd::prelude::*;

use crate::text::{
    is_ascii_digit, is_ascii_ws, all_digits, digits_val, next_non_ws, scan_non_ws,
    parse_digits_u64,
};

verus! {

/// The null bytes removed: the form the name search reads.
pub open spec fn strip_nulls(s: Seq<u8>) -> Seq<u8>
    decreases s.len(),
{
    if s.len() == 0 {
        Seq::empty()
    } else {
        strip_nulls(s.drop_last()) + (if s.last() == 0 {
            Seq::<u8>::empty()
        } else {
            seq![s.last()]
        })
    }
}

/// Null bytes read as spaces: the form the `-smp` search reads.
pub open spec fn nulls_to_space(s: Seq<u8>) -> Seq<u8> {
    s.map_values(
        |b: u8|
            if b == 0 {
                32u8
            } else {
                b
            },
    )
}

/// A name terminator: whitespace or a comma.
pub open spec fn is_name_term(b: u8) -> bool {
    is_ascii_ws(b) || b == 44
}

/// `guest=` stands at `i` with at least one value byte after it.
pub open spec fn guest_at(c: Seq<u8>, i: int) -> bool {
    &&& 0 <= i
    &&& i + 6 < c.len()
    &&& c[i] == 103
    &&& c[i + 1] == 117
    &&& c[i + 2] == 101
    &&& c[i + 3] == 115
    &&& c[i + 4] == 116
    &&& c[i + 5] == 61
    &&& !is_name_term(c[i + 6])
}

/// Position of the first `guest=` with a value, at or after `i`, or `c.len()`.
pub open spec fn find_guest(c: Seq<u8>, i: int) -> int
    decreases c.len() - i,
{
    if i < 0 || i >= c.len() {
        c.len() as int
    } else if guest_at(c, i) {
        i
    } else {
        find_guest(c, i + 1)
    }
}

/// Position of the first name terminator at or after `i`, or `c.len()`.
pub open spec fn find_name_term(c: Seq<u8>, i: int) -> int
    decreases c.len() - i,
{
    if i < 0 || i >= c.len() {
        c.len() as int
    } else if is_name_term(c[i]) {
        i
    } else {
        find_name_term(c, i + 1)
    }
}

/// The default name for a process whose arguments carry no `guest=` value.
pub open spec fn unknown_name() -> Seq<u8> {
    seq![85u8, 110u8, 107u8, 110u8, 111u8, 119u8, 110u8]
}

/// The VM name the null-stripped argument text denotes.
pub open spec fn vm_name_of(c: Seq<u8>) -> Seq<u8> {
    let i = find_guest(c, 0);
    if i < c.len() {
        c.subrange(i + 6, find_name_term(c, i + 6))
    } else {
        unknown_name()
    }
}

/// `-smp` stands at `i` as a whole argument token.
pub open spec fn smp_at(w: Seq<u8>, i: int) -> bool {
    &&& 0 <= i
    &&& i + 4 <= w.len()
    &&& (i == 0 || is_ascii_ws(w[i - 1]))
    &&& w[i] == 45
    &&& w[i + 1] == 115
    &&& w[i + 2] == 109
    &&& w[i + 3] == 112
    &&& (i + 4 == w.len() || is_ascii_ws(w[i + 4]))
}

/// Position of the first `-smp` token at or after `i`, or `w.len()`.
pub open spec fn find_smp(w: Seq<u8>, i: int) -> int
    decreases w.len() - i,
{
    if i < 0 || i >= w.len() {
        w.len() as int
    } else if smp_at(w, i) {
        i
    } else {
        find_smp(w, i + 1)
    }
}

/// `cpus=` stands at `i`.
pub open spec fn cpus_at(w: Seq<u8>, i: int) -> bool {
    &&& 0 <= i
    &&& i + 5 <= w.len()
    &&& w[i] == 99
    &&& w[i + 1] == 112
    &&& w[i + 2] == 117
    &&& w[i + 3] == 115
    &&& w[i + 4] == 61
}

/// Position of the first non-digit at or after `i`, or `w.len()`.
pub open spec fn find_non_digit(w: Seq<u8>, i: int) -> int
    decreases w.len() - i,
{
    if i < 0 || i >= w.len() {
        w.len() as int
    } else if !is_ascii_digit(w[i]) {
        i
    } else {
        find_non_digit(w, i + 1)
    }
}

/// The vCPU count the space-normalized argument text denotes: the digits of
/// the first `-smp` value (behind `cpus=` if present), defaulting to one
/// when the token, its value or a representable number is missing.
pub open spec fn vcpu_count_of(w: Seq<u8>) -> int {
    let i = find_smp(w, 0);
    if i < w.len() {
        let v = next_non_ws(w, i + 4);
        let d0 = if cpus_at(w, v) {
            v + 5
        } else {
            v
        };
        let e = find_non_digit(w, d0);
        if e == d0 {
            1
        } else {
            let n = digits_val(w.subrange(d0, e));
            if n > u32::MAX {
                1
            } else {
                n as int
            }
        }
    } else {
        1
    }
}

/// Find the first name terminator at or after `from`.
fn scan_name_term(s: &[u8], from: usize) -> (r: usize)
    requires
        from <= s@.len(),
    ensures
        r == find_name_term(s@, from as int),
        from <= r <= s@.len(),
{
    let mut i = from;
    while i < s.len()
        invariant
            from <= i <= s@.len(),
            find_name_term(s@, from as int) == find_name_term(s@, i as int),
        decreases s@.len() - i,
    {
        let t = s[i];
        if t == 32 || t == 9 || t == 10 || t == 11 || t == 12 || t == 13 || t == 44 {
            return i;
        }
        i = i + 1;
    }
    i
}

/// Find the first non-digit at or after `from`.
fn scan_non_digit(s: &[u8], from: usize) -> (r: usize)
    requires
        from <= s@.len(),
    ensures
        r == find_non_digit(s@, from as int),
        from <= r <= s@.len(),
{
    let mut i = from;
    while i < s.len()
        invariant
            from <= i <= s@.len(),
            find_non_digit(s@, from as int) == find_non_digit(s@, i as int),
        decreases s@.len() - i,
    {
        let b = s[i];
        if !(48 <= b && b <= 57) {
            return i;
        }
        i = i + 1;
    }
    i
}

/// Everything before the first non-digit is a digit.
proof fn lemma_find_non_digit_props(s: Seq<u8>, i: int)
    requires
        0 <= i <= s.len(),
    ensures
        i <= find_non_digit(s, i) <= s.len(),
        forall|j: int| i <= j < find_non_digit(s, i) ==> is_ascii_digit(#[trigger] s[j]),
    decreases s.len() - i,
{
    if i < s.len() && is_ascii_digit(s[i]) {
        lemma_find_non_digit_props(s, i + 1);
    }
}

/// Strip the null bytes out of the raw argument vector.
fn strip_nulls_exec(s: &[u8]) -> (r: Vec<u8>)
    ensures
        r@ == strip_nulls(s@),
{
    let mut out: Vec<u8> = Vec::new();
    let mut i: usize = 0;
    proof {
        assert(s@.take(0) =~= Seq::<u8>::empty());
    }
    while i < s.len()
        invariant
            i <= s@.len(),
            out@ == strip_nulls(s@.take(i as int)),
        decreases s@.len() - i,
    {
        proof {
            assert(s@.take(i + 1).drop_last() =~= s@.take(i as int));
            assert(s@.take(i + 1).last() == s@[i as int]);
        }
        let b = s[i];
        if b != 0 {
            out.push(b);
            proof {
                assert(out@ =~= strip_nulls(s@.take(i + 1)));
            }
        } else {
            proof {
                assert(out@ =~= strip_nulls(s@.take(i + 1)));
            }
        }
        i = i + 1;
    }
    proof {
        assert(s@.take(s@.len() as int) =~= s@);
    }
    out
}

/// Replace the null bytes of the raw argument vector with spaces.
fn nulls_to_space_exec(s: &[u8]) -> (r: Vec<u8>)
    ensures
        r@ == nulls_to_space(s@),
{
    let mut out: Vec<u8> = Vec::new();
    let mut i: usize = 0;
    while i < s.len()
        invariant
            i <= s@.len(),
            out@.len() == i,
            forall|j: int|
                0 <= j < i ==> out@[j] == (if s@[j] == 0 {
                    32u8
                } else {
                    s@[j]
                }),
        decreases s@.len() - i,
    {
        let b = s[i];
        if b == 0 {
            out.push(32);
        } else {
            out.push(b);
        }
        i = i + 1;
    }
    proof {
        assert(out@ =~= nulls_to_space(s@));
    }
    out
}

/// Extract the VM name from a raw argument vector: the value of the first
/// `guest=` occurrence, up to whitespace or a comma; `Unknown` when there is
/// none.
pub fn parse_vm_name(cmdline: &[u8]) -> (r: Vec<u8>)
    ensures
        r@ == vm_name_of(strip_nulls(cmdline@)),
{
    let c = strip_nulls_exec(cmdline);
    let n = c.len();
    let ghost cs = c@;
    let mut i: usize = 0;
    while i < n
        invariant
            i <= n,
            n == c@.len(),
            cs == c@,
            cs == strip_nulls(cmdline@),
            find_guest(cs, 0) == find_guest(cs, i as int),
        decreases n - i,
    {
        let hit = n > 6 && i < n - 6 && c[i] == 103 && c[i + 1] == 117 && c[i + 2] == 101 && c[i + 3]
            == 115 && c[i + 4] == 116 && c[i + 5] == 61 && {
            let t = c[i + 6];
            !(t == 32 || t == 9 || t == 10 || t == 11 || t == 12 || t == 13 || t == 44)
        };
        if hit {
            proof {
                assert(guest_at(cs, i as int));
                assert(find_guest(cs, 0) == i as int);
            }
            let vs = i + 6;
            let j = scan_name_term(c.as_slice(), vs);
            let mut out: Vec<u8> = Vec::new();
            let mut t = vs;
            proof {
                assert(cs.subrange(vs as int, vs as int) =~= Seq::<u8>::empty());
            }
            while t < j
                invariant
                    vs <= t <= j <= n,
                    n == c@.len(),
                    cs == c@,
                    out@ == cs.subrange(vs as int, t as int),
                decreases j - t,
            {
                out.push(c[t]);
                proof {
                    assert(out@ =~= cs.subrange(vs as int, t + 1));
                }
                t = t + 1;
            }
            return out;
        }
        proof {
            assert(!guest_at(cs, i as int));
        }
        i = i + 1;
    }
    let mut out: Vec<u8> = Vec::new();
    out.push(85);
    out.push(110);
    out.push(107);
    out.push(110);
    out.push(111);
    out.push(119);
    out.push(110);
    proof {
        assert(out@ =~= unknown_name());
    }
    out
}

/// Extract the vCPU count from a raw argument vector: the value of the
/// first `-smp` argument, behind `cpus=` if present; one when missing or
/// malformed.
pub fn parse_vcpu_count(cmdline: &[u8]) -> (r: u32)
    ensures
        r as int == vcpu_count_of(nulls_to_space(cmdline@)),
{
    let w = nulls_to_space_exec(cmdline);
    let n = w.len();
    let ghost ws = w@;
    let mut i: usize = 0;
    while i < n
        invariant
            i <= n,
            n == w@.len(),
            ws == w@,
            ws == nulls_to_space(cmdline@),
            find_smp(ws, 0) == find_smp(ws, i as int),
        decreases n - i,
    {
        let boundary = i == 0 || {
            let p = w[i - 1];
            p == 32 || p == 9 || p == 10 || p == 11 || p == 12 || p == 13
        };
        let hit = boundary && n >= 4 && i <= n - 4 && w[i] == 45 && w[i + 1] == 115 && w[i + 2] == 109
            && w[i + 3] == 112 && (i + 4 == n || {
            let t = w[i + 4];
            t == 32 || t == 9 || t == 10 || t == 11 || t == 12 || t == 13
        });
        if hit {
            proof {
                assert(smp_at(ws, i as int));
                assert(find_smp(ws, 0) == i as int);
            }
            let v = scan_non_ws(w.as_slice(), i + 4);
            let d0 = if n >= 5 && v <= n - 5 && w[v] == 99 && w[v + 1] == 112 && w[v + 2] == 117 && w[v + 3]
                == 115 && w[v + 4] == 61 {
                proof {
                    assert(cpus_at(ws, v as int));
                }
                v + 5
            } else {
                proof {
                    assert(!cpus_at(ws, v as int));
                }
                v
            };
            let e = scan_non_digit(w.as_slice(), d0);
            if e == d0 {
                return 1;
            }
            proof {
                lemma_find_non_digit_props(ws, d0 as int);
                assert(all_digits(ws.subrange(d0 as int, e as int)));
            }
            match parse_digits_u64(w.as_slice(), d0, e) {
                Option::Some(val) => {
                    if val > u32::MAX as u64 {
                        return 1;
                    }
                    return val as u32;
                },
                Option::None => {
                    proof {
                        assert(digits_val(ws.subrange(d0 as int, e as int)) > u64::MAX);
                    }
                    return 1;
                },
            }
        }
        proof {
            assert(!smp_at(ws, i as int));
        }
        i = i + 1;
    }
    1
}

} // verus!
