//! Exact rational arithmetic for the power and carbon model.
//!
//! A `Rat` is a fraction of two machine integers with a positive denominator.
//! Contracts speak of the mathematical fraction through the view `(int, int)`
//! and the `q_*` spec functions; two fractions denote the same rational number
//! exactly when `q_eq` holds (cross multiplication).  The executable
//! operations compute the textbook numerator and denominator in wide
//! intermediate arithmetic and return `None` exactly when the result does not
//! fit the component type.

use vstd::prelude::*;

use crate::text::{
    is_ascii_digit, digits_val, pow10, find_byte, trim_of, lemma_pow10_pos, lemma_pow10_le,
    lemma_next_non_ws_props, lemma_rtrim_props, scan_non_ws, scan_rtrim, parse_digits_u64,
};

verus! {

/// A rational number `num / den` with `den > 0`.
#[derive(Clone, Copy, Debug, PartialEq, Eq, Structural)]
pub struct Rat {
    pub num: i64,
    pub den: i64,
}

impl View for Rat {
    type V = (int, int);

    open spec fn view(&self) -> (int, int) {
        (self.num as int, self.den as int)
    }
}

/// A component value representable by the numerator or denominator field.
pub open spec fn fits_i64(x: int) -> bool {
    i64::MIN <= x <= i64::MAX
}

/// The rational zero, as a numerator/denominator pair.
pub open spec fn q_zero() -> (int, int) {
    (0, 1)
}

/// The rational one, as a numerator/denominator pair.
pub open spec fn q_one() -> (int, int) {
    (1, 1)
}

/// Sum of two fractions: `a/b + c/d = (a*d + c*b) / (b*d)`.
pub open spec fn q_add(a: (int, int), b: (int, int)) -> (int, int) {
    (a.0 * b.1 + b.0 * a.1, a.1 * b.1)
}

/// Difference of two fractions: `a/b - c/d = (a*d - c*b) / (b*d)`.
pub open spec fn q_sub(a: (int, int), b: (int, int)) -> (int, int) {
    (a.0 * b.1 - b.0 * a.1, a.1 * b.1)
}

/// Product of two fractions: `(a*c) / (b*d)`.
pub open spec fn q_mul(a: (int, int), b: (int, int)) -> (int, int) {
    (a.0 * b.0, a.1 * b.1)
}

/// The two pairs denote the same rational number (both denominators positive).
pub open spec fn q_eq(a: (int, int), b: (int, int)) -> bool {
    a.0 * b.1 == b.0 * a.1
}

/// `a <= b` as rational numbers (both denominators positive).
pub open spec fn q_le(a: (int, int), b: (int, int)) -> bool {
    a.0 * b.1 <= b.0 * a.1
}

/// The product of an i64 with a positive i64 lies well inside i128.
proof fn lemma_prod_nonneg_factor(x: int, y: int)
    by (nonlinear_arith)
    requires
        i64::MIN <= x <= i64::MAX,
        0 <= y <= i64::MAX,
    ensures
        -0x3fff_ffff_ffff_ffff_8000_0000_0000_0000 <= x * y
            <= 0x3fff_ffff_ffff_ffff_0000_0000_0000_0001,
{
}

/// The product of two i64 values lies inside i128.
proof fn lemma_prod_i64(x: int, y: int)
    by (nonlinear_arith)
    requires
        i64::MIN <= x <= i64::MAX,
        i64::MIN <= y <= i64::MAX,
    ensures
        -0x3fff_ffff_ffff_ffff_8000_0000_0000_0000 <= x * y
            <= 0x4000_0000_0000_0000_0000_0000_0000_0000,
{
}

/// The product of two positive i64 values is positive.
proof fn lemma_prod_pos(x: int, y: int)
    by (nonlinear_arith)
    requires
        x > 0,
        y > 0,
    ensures
        x * y > 0,
{
}

impl Rat {
    /// The denominator is positive, so the value is a well-defined rational.
    pub open spec fn wf(self) -> bool {
        self.den > 0
    }

    /// Build `num / den` from an already positive denominator.
    pub fn new(num: i64, den: i64) -> (r: Rat)
        requires
            den > 0,
        ensures
            r.wf(),
            r@ == (num as int, den as int),
    {
        Rat { num, den }
    }

    /// The integer `n` as a rational.
    pub fn from_int(n: i64) -> (r: Rat)
        ensures
            r.wf(),
            r@ == (n as int, 1int),
    {
        Rat { num: n, den: 1 }
    }

    /// The numerator component.
    pub fn numerator(&self) -> (r: i64)
        ensures
            r as int == self@.0,
    {
        self.num
    }

    /// The denominator component.
    pub fn denominator(&self) -> (r: i64)
        ensures
            r as int == self@.1,
    {
        self.den
    }

    /// Exact sum; `None` exactly when a component of `q_add` leaves i64.
    pub fn checked_add(self, other: Rat) -> (r: Option<Rat>)
        requires
            self.wf(),
            other.wf(),
        ensures
            r is Some <==> fits_i64(q_add(self@, other@).0) && fits_i64(q_add(self@, other@).1),
            r matches Some(q) ==> q.wf() && q@ == q_add(self@, other@),
    {
        proof {
            lemma_prod_nonneg_factor(self.num as int, other.den as int);
            lemma_prod_nonneg_factor(other.num as int, self.den as int);
            lemma_prod_nonneg_factor(self.den as int, other.den as int);
            lemma_prod_pos(self.den as int, other.den as int);
        }
        let n: i128 = (self.num as i128) * (other.den as i128)
            + (other.num as i128) * (self.den as i128);
        let d: i128 = (self.den as i128) * (other.den as i128);
        if n < i64::MIN as i128 || n > i64::MAX as i128 || d > i64::MAX as i128 {
            None
        } else {
            Some(Rat { num: n as i64, den: d as i64 })
        }
    }

    /// Exact difference; `None` exactly when a component of `q_sub` leaves i64.
    pub fn checked_sub(self, other: Rat) -> (r: Option<Rat>)
        requires
            self.wf(),
            other.wf(),
        ensures
            r is Some <==> fits_i64(q_sub(self@, other@).0) && fits_i64(q_sub(self@, other@).1),
            r matches Some(q) ==> q.wf() && q@ == q_sub(self@, other@),
    {
        proof {
            lemma_prod_nonneg_factor(self.num as int, other.den as int);
            lemma_prod_nonneg_factor(other.num as int, self.den as int);
            lemma_prod_nonneg_factor(self.den as int, other.den as int);
            lemma_prod_pos(self.den as int, other.den as int);
        }
        let n: i128 = (self.num as i128) * (other.den as i128)
            - (other.num as i128) * (self.den as i128);
        let d: i128 = (self.den as i128) * (other.den as i128);
        if n < i64::MIN as i128 || n > i64::MAX as i128 || d > i64::MAX as i128 {
            None
        } else {
            Some(Rat { num: n as i64, den: d as i64 })
        }
    }

    /// Exact product; `None` exactly when a component of `q_mul` leaves i64.
    pub fn checked_mul(self, other: Rat) -> (r: Option<Rat>)
        requires
            self.wf(),
            other.wf(),
        ensures
            r is Some <==> fits_i64(q_mul(self@, other@).0) && fits_i64(q_mul(self@, other@).1),
            r matches Some(q) ==> q.wf() && q@ == q_mul(self@, other@),
    {
        proof {
            lemma_prod_i64(self.num as int, other.num as int);
            lemma_prod_nonneg_factor(self.den as int, other.den as int);
            lemma_prod_pos(self.den as int, other.den as int);
        }
        let n: i128 = (self.num as i128) * (other.num as i128);
        let d: i128 = (self.den as i128) * (other.den as i128);
        if n < i64::MIN as i128 || n > i64::MAX as i128 || d > i64::MAX as i128 {
            None
        } else {
            Some(Rat { num: n as i64, den: d as i64 })
        }
    }

    /// Decide `self <= other` as rational numbers.
    pub fn le(self, other: Rat) -> (r: bool)
        requires
            self.wf(),
            other.wf(),
        ensures
            r == q_le(self@, other@),
    {
        proof {
            lemma_prod_nonneg_factor(self.num as int, other.den as int);
            lemma_prod_nonneg_factor(other.num as int, self.den as int);
        }
        (self.num as i128) * (other.den as i128) <= (other.num as i128) * (self.den as i128)
    }

    /// Parse a decimal literal such as `12`, `-3.25` or `.5` (the shape
    /// configuration text writes coefficients in), ignoring surrounding
    /// whitespace; `None` exactly when the text is not a decimal or the
    /// parsed numerator or denominator leaves i64.
    pub fn from_decimal(s: &[u8]) -> (r: Option<Rat>)
        ensures
            r is Some <==> decimal_ok(trim_of(s@)),
            r matches Some(q) ==> q.wf() && q@ == decimal_val(trim_of(s@)),
    {
        let a = scan_non_ws(s, 0);
        let b = scan_rtrim(s, s.len());
        proof {
            lemma_next_non_ws_props(s@, 0);
            lemma_rtrim_props(s@, s@.len() as int);
        }
        if a >= b {
            proof {
                assert(trim_of(s@) =~= Seq::<u8>::empty());
                assert(decimal_tail(trim_of(s@)).len() == 0);
            }
            return None;
        }
        proof {
            assert(trim_of(s@) =~= s@.subrange(a as int, b as int));
        }
        decimal_core(s, a, b)
    }

    /// Decide whether the two fractions denote the same rational number.
    pub fn equiv(self, other: Rat) -> (r: bool)
        requires
            self.wf(),
            other.wf(),
        ensures
            r == q_eq(self@, other@),
    {
        proof {
            lemma_prod_nonneg_factor(self.num as int, other.den as int);
            lemma_prod_nonneg_factor(other.num as int, self.den as int);
        }
        (self.num as i128) * (other.den as i128) == (other.num as i128) * (self.den as i128)
    }
}

/// The decimal text starts with a minus sign.
pub open spec fn decimal_neg(s: Seq<u8>) -> bool {
    s.len() > 0 && s[0] == 45
}

/// The decimal text with the sign removed.
pub open spec fn decimal_tail(s: Seq<u8>) -> Seq<u8> {
    if decimal_neg(s) {
        s.skip(1)
    } else {
        s
    }
}

/// The text is an optional minus sign, digits, and at most one point, with
/// at least one digit: the shape the configuration loader accepts.
pub open spec fn valid_decimal(s: Seq<u8>) -> bool {
    let t = decimal_tail(s);
    let k = find_byte(t, 46, 0);
    &&& forall|i: int| 0 <= i < k ==> is_ascii_digit(#[trigger] t[i])
    &&& forall|i: int| k < i < t.len() ==> is_ascii_digit(#[trigger] t[i])
    &&& t.len() > (if k == t.len() {
        0int
    } else {
        1int
    })
}

/// Number of digits after the point.
pub open spec fn decimal_fraclen(s: Seq<u8>) -> int {
    let t = decimal_tail(s);
    let k = find_byte(t, 46, 0);
    if k == t.len() {
        0
    } else {
        t.len() - k - 1
    }
}

/// Denominator of the parsed fraction: ten to the number of fraction digits.
pub open spec fn decimal_den(s: Seq<u8>) -> int {
    pow10(decimal_fraclen(s) as nat)
}

/// Magnitude of the parsed numerator: the digits read with the point removed.
pub open spec fn decimal_mag(s: Seq<u8>) -> int {
    let t = decimal_tail(s);
    let k = find_byte(t, 46, 0);
    if k == t.len() {
        digits_val(t) as int
    } else {
        digits_val(t.take(k)) * pow10((t.len() - k - 1) as nat) + digits_val(t.skip(k + 1))
    }
}

/// The rational number the decimal text denotes.
pub open spec fn decimal_val(s: Seq<u8>) -> (int, int) {
    (
        (if decimal_neg(s) {
            -1int
        } else {
            1int
        }) * decimal_mag(s),
        decimal_den(s),
    )
}

/// The text is a decimal whose parsed numerator and denominator fit i64.
pub open spec fn decimal_ok(s: Seq<u8>) -> bool {
    valid_decimal(s) && decimal_mag(s) <= i64::MAX && decimal_den(s) <= i64::MAX
}

/// `pow10(19)` exceeds `i64::MAX`.
proof fn lemma_pow10_19_exceeds_i64()
    ensures
        pow10(19) > i64::MAX,
{
    reveal_with_fuel(pow10, 21);
    assert(pow10(19) == 10_000_000_000_000_000_000);
}

/// The product grows with either factor.
proof fn lemma_mag_lower(a: int, b: int, c: int)
    by (nonlinear_arith)
    requires
        a >= 0,
        b >= 1,
        c >= 0,
    ensures
        a * b + c >= a,
        a * b + c >= c,
{
}

/// The combined magnitude fits wide arithmetic.
proof fn lemma_mag_upper(a: int, b: int)
    by (nonlinear_arith)
    requires
        0 <= a <= u64::MAX,
        0 <= b <= 1_000_000_000_000_000_000,
    ensures
        a * b <= 0x3fff_ffff_ffff_ffff_ffff_ffff_ffff_ffff,
{
}

/// Parse the decimal literal standing exactly in `s[from..to)`.
#[verifier::loop_isolation(false)]
#[verifier::rlimit(100)]
fn decimal_core(s: &[u8], from: usize, to: usize) -> (r: Option<Rat>)
    requires
        from <= to <= s@.len(),
    ensures
        r is Some <==> valid_decimal(s@.subrange(from as int, to as int)) && decimal_mag(
            s@.subrange(from as int, to as int),
        ) <= i64::MAX && decimal_den(s@.subrange(from as int, to as int)) <= i64::MAX,
        r matches Some(q) ==> q.wf() && q@ == decimal_val(s@.subrange(from as int, to as int)),
{
    let ghost g = s@.subrange(from as int, to as int);
    let neg = from < to && s[from] == 45;
    let ts = if neg {
        from + 1
    } else {
        from
    };
    let ghost t = decimal_tail(g);
    proof {
        assert(t =~= s@.subrange(ts as int, to as int));
    }
    // locate the point
    let mut dp = ts;
    while dp < to && s[dp] != 46
        invariant
            ts <= dp <= to <= s@.len(),
            t =~= s@.subrange(ts as int, to as int),
            find_byte(t, 46, 0) == find_byte(t, 46, dp - ts),
        decreases to - dp,
    {
        proof {
            assert(t[dp - ts] == s@[dp as int]);
        }
        dp = dp + 1;
    }
    let ghost k = find_byte(t, 46, 0);
    proof {
        if dp < to {
            assert(t[dp - ts] == s@[dp as int]);
            assert(k == dp - ts);
        } else {
            assert(k == t.len());
        }
    }
    // every byte before the point must be a digit
    let mut i = ts;
    while i < dp
        invariant
            ts <= i <= dp <= to <= s@.len(),
            t =~= s@.subrange(ts as int, to as int),
            forall|j: int| 0 <= j < i - ts ==> is_ascii_digit(#[trigger] t[j]),
        decreases dp - i,
    {
        let c = s[i];
        proof {
            assert(t[i - ts] == s@[i as int]);
        }
        if !(48 <= c && c <= 57) {
            proof {
                assert(!is_ascii_digit(t[i - ts]) && i - ts < k);
            }
            return None;
        }
        i = i + 1;
    }
    // every byte after the point must be a digit
    if dp < to {
        let mut i2 = dp + 1;
        while i2 < to
            invariant
                dp < i2 <= to <= s@.len(),
                ts <= dp,
                t =~= s@.subrange(ts as int, to as int),
                forall|j: int| dp - ts < j < i2 - ts ==> is_ascii_digit(#[trigger] t[j]),
            decreases to - i2,
        {
            let c = s[i2];
            proof {
                assert(t[i2 - ts] == s@[i2 as int]);
            }
            if !(48 <= c && c <= 57) {
                proof {
                    assert(!is_ascii_digit(t[i2 - ts]) && k < i2 - ts < t.len());
                }
                return None;
            }
            i2 = i2 + 1;
        }
    }
    // at least one digit in all
    let intlen = dp - ts;
    let fraclen = if dp < to {
        to - dp - 1
    } else {
        0
    };
    if intlen + fraclen == 0 {
        return None;
    }
    proof {
        assert(valid_decimal(g));
    }
    // denominator
    if fraclen > 18 {
        proof {
            lemma_pow10_19_exceeds_i64();
            lemma_pow10_le(19, fraclen as nat);
        }
        return None;
    }
    let mut den: u64 = 1;
    let mut f: usize = 0;
    while f < fraclen
        invariant
            f <= fraclen <= 18,
            den == pow10(f as nat),
            den <= 1_000_000_000_000_000_000,
        decreases fraclen - f,
    {
        proof {
            lemma_pow10_le((f + 1) as nat, 18);
            reveal_with_fuel(pow10, 20);
            assert(pow10(18) == 1_000_000_000_000_000_000);
        }
        den = den * 10;
        f = f + 1;
    }
    proof {
        lemma_pow10_pos(fraclen as nat);
        lemma_pow10_le(fraclen as nat, 18);
        reveal_with_fuel(pow10, 20);
        assert(pow10(18) == 1_000_000_000_000_000_000);
        assert(decimal_den(g) == pow10(fraclen as nat));
    }
    // integer part digits
    proof {
        assert(t.take(k) =~= s@.subrange(ts as int, dp as int));
        if k < t.len() {
            assert(t.skip(k + 1) =~= s@.subrange(dp as int + 1, to as int));
        }
    }
    let vi = match parse_digits_u64(s, ts, dp) {
        Some(v) => v,
        None => {
            proof {
                lemma_pow10_pos(fraclen as nat);
                if k < t.len() {
                    lemma_mag_lower(
                        digits_val(t.take(k)) as int,
                        pow10(fraclen as nat),
                        digits_val(t.skip(k + 1)) as int,
                    );
                }
            }
            return None;
        },
    };
    let vf = if dp < to {
        match parse_digits_u64(s, dp + 1, to) {
            Some(v) => v,
            None => {
                proof {
                    lemma_pow10_pos(fraclen as nat);
                    lemma_mag_lower(
                        digits_val(t.take(k)) as int,
                        pow10(fraclen as nat),
                        digits_val(t.skip(k + 1)) as int,
                    );
                }
                return None;
            },
        }
    } else {
        0
    };
    proof {
        lemma_mag_upper(vi as int, den as int);
        if k < t.len() {
            assert(decimal_mag(g) == digits_val(t.take(k)) * pow10(fraclen as nat) + digits_val(
                t.skip(k + 1),
            ));
        } else {
            assert(t.take(k) =~= t);
            assert(decimal_mag(g) == digits_val(t) as int);
        }
    }
    let mag: u128 = (vi as u128) * (den as u128) + (vf as u128);
    if mag > i64::MAX as u128 {
        return None;
    }
    let num: i64 = if neg {
        -(mag as i64)
    } else {
        mag as i64
    };
    proof {
        assert(g.len() == to - from);
        if from < to {
            assert(g[0] == s@[from as int]);
        }
        assert(decimal_neg(g) == neg);
        assert(vi == digits_val(t.take(k)));
        assert(den == pow10(fraclen as nat));
        assert(mag as int == (vi as int) * (den as int) + (vf as int));
        if k < t.len() {
            assert(vf == digits_val(t.skip(k + 1)));
            assert(decimal_mag(g) == digits_val(t.take(k)) * pow10(fraclen as nat) + digits_val(
                t.skip(k + 1),
            ));
        } else {
            assert(vf == 0);
            assert(t.take(k) =~= t);
            assert(decimal_mag(g) == digits_val(t) as int);
        }
        assert(decimal_mag(g) == mag as int);
        assert(decimal_den(g) == den as int);
        assert(mag as int <= i64::MAX);
        assert((mag as i64) as int == mag as int);
        if neg {
            assert(num as int == -1 * (mag as int));
        } else {
            assert(num as int == 1 * (mag as int));
        }
        assert(num as int == (if decimal_neg(g) {
            -1int
        } else {
            1int
        }) * decimal_mag(g));
    }
    Some(Rat { num, den: den as i64 })
}

} // verus!
