//! Validated configuration and the carbon converter.
//!
//! The configuration holds the dynamic-power attribution ratio (in `[0, 1]`),
//! the host core count (positive), the facility PUE multiplier (at least one)
//! and the grid emission factor (non-negative, grams CO2-equivalent per kWh).
//! Values outside these ranges are configuration errors: the constructor
//! refuses them, and the surrounding program aborts at startup, so the model
//! never sees them.
//!
//! `carbon_intensity_gco2_per_hour` converts an instantaneous power draw in
//! watts into an emission rate: `(power / 1000) * pue * emission_factor`.

use vstd::prelude::*;

use crate::rational::{
    Rat, fits_i64, q_add, q_mul, q_eq, q_le, q_zero, q_one, decimal_ok, decimal_val,
};
use crate::text::{find_byte, trim_of, lemma_find_byte_props};

verus! {

/// Emission rate for power `p`: `(p / 1000) * pue * ef`, as numerator and
/// denominator pairs.
pub open spec fn q_carbon(p: (int, int), pue: (int, int), ef: (int, int)) -> (int, int) {
    q_mul(q_mul(q_mul(p, (1int, 1000int)), pue), ef)
}

/// Every intermediate of the conversion fits the i64 components.
pub open spec fn q_carbon_fits(p: (int, int), pue: (int, int), ef: (int, int)) -> bool {
    let kw = q_mul(p, (1int, 1000int));
    let a = q_mul(kw, pue);
    let b = q_mul(a, ef);
    &&& fits_i64(kw.0) && fits_i64(kw.1)
    &&& fits_i64(a.0) && fits_i64(a.1)
    &&& fits_i64(b.0) && fits_i64(b.1)
}

/// Application configuration, validated at construction.
pub struct AppConfig {
    /// Share of the host dynamic-power swing attributed to a VM, in `[0, 1]`.
    pub cinergy_ratio: Rat,
    /// Physical cores of the host; positive.
    pub server_cores: u32,
    /// Facility overhead multiplier; at least one.
    pub dc_pue: Rat,
    /// Grams CO2-equivalent per kWh of the local grid; non-negative.
    pub emission_factor: Rat,
}

impl AppConfig {
    /// The rational fields are well-formed fractions.
    pub open spec fn wf(&self) -> bool {
        self.cinergy_ratio.wf() && self.dc_pue.wf() && self.emission_factor.wf()
    }

    /// The documented value ranges hold.
    pub open spec fn valid(&self) -> bool {
        &&& self.wf()
        &&& q_le(q_zero(), self.cinergy_ratio@)
        &&& q_le(self.cinergy_ratio@, q_one())
        &&& self.server_cores > 0
        &&& q_le(q_one(), self.dc_pue@)
        &&& q_le(q_zero(), self.emission_factor@)
    }

    /// Validate and assemble a configuration; `None` exactly when a value is
    /// out of its documented range.
    pub fn new(cinergy_ratio: Rat, server_cores: u32, dc_pue: Rat, emission_factor: Rat) -> (r:
        Option<AppConfig>)
        requires
            cinergy_ratio.wf(),
            dc_pue.wf(),
            emission_factor.wf(),
        ensures
            r is Some <==> {
                &&& q_le(q_zero(), cinergy_ratio@)
                &&& q_le(cinergy_ratio@, q_one())
                &&& server_cores > 0
                &&& q_le(q_one(), dc_pue@)
                &&& q_le(q_zero(), emission_factor@)
            },
            r matches Some(c) ==> c.valid() && c == (AppConfig {
                cinergy_ratio,
                server_cores,
                dc_pue,
                emission_factor,
            }),
    {
        let zero = Rat::from_int(0);
        let one = Rat::from_int(1);
        if !zero.le(cinergy_ratio) || !cinergy_ratio.le(one) {
            return None;
        }
        if server_cores == 0 {
            return None;
        }
        if !one.le(dc_pue) {
            return None;
        }
        if !zero.le(emission_factor) {
            return None;
        }
        Some(AppConfig { cinergy_ratio, server_cores, dc_pue, emission_factor })
    }

    /// Emission rate in grams CO2-equivalent per hour for an instantaneous
    /// power draw in watts; `None` exactly when an intermediate of the exact
    /// arithmetic leaves i64.
    pub fn carbon_intensity_gco2_per_hour(&self, power_watts: Rat) -> (r: Option<Rat>)
        requires
            self.wf(),
            power_watts.wf(),
        ensures
            r is Some <==> q_carbon_fits(power_watts@, self.dc_pue@, self.emission_factor@),
            r matches Some(v) ==> v.wf() && v@ == q_carbon(
                power_watts@,
                self.dc_pue@,
                self.emission_factor@,
            ),
    {
        let kw = match power_watts.checked_mul(Rat::new(1, 1000)) {
            Some(x) => x,
            None => { return None; },
        };
        let a = match kw.checked_mul(self.dc_pue) {
            Some(x) => x,
            None => { return None; },
        };
        match a.checked_mul(self.emission_factor) {
            Some(x) => Some(x),
            None => None,
        }
    }
}

/// Law: zero power converts to a zero emission rate, whatever the PUE and
/// emission factor.
pub proof fn lemma_carbon_zero(pue: (int, int), ef: (int, int))
    ensures
        q_eq(q_carbon(q_zero(), pue, ef), q_zero()),
{
    let l = q_carbon(q_zero(), pue, ef);
    assert(l.0 == ((0 * 1) * pue.0) * ef.0);
    assert(l.0 * 1 == 0 * l.1) by (nonlinear_arith)
        requires
            l.0 == ((0 * 1) * pue.0) * ef.0,
    ;
}

/// Componentwise fraction multiplication is associative.
proof fn lemma_q_mul_assoc(a: (int, int), b: (int, int), c: (int, int))
    ensures
        q_mul(q_mul(a, b), c) == q_mul(a, q_mul(b, c)),
{
    assert((a.0 * b.0) * c.0 == a.0 * (b.0 * c.0)) by (nonlinear_arith);
    assert((a.1 * b.1) * c.1 == a.1 * (b.1 * c.1)) by (nonlinear_arith);
}

/// Multiplication by a common fraction distributes over fraction addition:
/// the two sides differ only by the common factor `w.1`.
proof fn lemma_q_mul_dist(p1: (int, int), p2: (int, int), w: (int, int))
    ensures
        q_eq(q_mul(q_add(p1, p2), w), q_add(q_mul(p1, w), q_mul(p2, w))),
{
    let l = q_mul(q_add(p1, p2), w);
    let r = q_add(q_mul(p1, w), q_mul(p2, w));
    lemma_dist_num(p1.0, p1.1, p2.0, p2.1, w.0, w.1);
    assert(r.0 == l.0 * w.1);
    lemma_dist_den(p1.1, p2.1, w.1);
    assert(r.1 == l.1 * w.1);
    lemma_dist_cross(l.0, l.1, w.1);
}

/// Numerator identity behind `lemma_q_mul_dist`.
proof fn lemma_dist_num(a: int, b: int, c: int, d: int, e: int, f: int)
    ensures
        (a * e) * (d * f) + (c * e) * (b * f) == ((a * d + c * b) * e) * f,
{
    assert((a * e) * (d * f) == (a * d) * (e * f)) by (nonlinear_arith);
    assert((c * e) * (b * f) == (c * b) * (e * f)) by (nonlinear_arith);
    assert(((a * d + c * b) * e) * f == (a * d) * (e * f) + (c * b) * (e * f))
        by (nonlinear_arith);
}

/// Denominator identity behind `lemma_q_mul_dist`.
proof fn lemma_dist_den(b: int, d: int, f: int)
    by (nonlinear_arith)
    ensures
        (b * f) * (d * f) == ((b * d) * f) * f,
{
}

/// Cross-multiplied equality of a fraction with its `w.1`-scaled form.
proof fn lemma_dist_cross(x: int, y: int, t: int)
    by (nonlinear_arith)
    ensures
        x * (y * t) == (x * t) * y,
{
}

/// The conversion is multiplication by the fixed fraction
/// `(1/1000) * pue * ef`.
proof fn lemma_carbon_as_mul(p: (int, int), pue: (int, int), ef: (int, int))
    ensures
        q_carbon(p, pue, ef) == q_mul(p, q_mul(q_mul((1int, 1000int), pue), ef)),
{
    let a = (1int, 1000int);
    lemma_q_mul_assoc(p, a, pue);
    lemma_q_mul_assoc(p, q_mul(a, pue), ef);
}

/// Law: for a fixed PUE and emission factor the emission rate is additive in
/// power.
pub proof fn lemma_carbon_additive(p1: (int, int), p2: (int, int), pue: (int, int), ef: (int, int))
    ensures
        q_eq(
            q_carbon(q_add(p1, p2), pue, ef),
            q_add(q_carbon(p1, pue, ef), q_carbon(p2, pue, ef)),
        ),
{
    let w = q_mul(q_mul((1int, 1000int), pue), ef);
    lemma_carbon_as_mul(q_add(p1, p2), pue, ef);
    lemma_carbon_as_mul(p1, pue, ef);
    lemma_carbon_as_mul(p2, pue, ef);
    lemma_q_mul_dist(p1, p2, w);
}

/// Law: for a fixed PUE and emission factor the emission rate scales with
/// power.
pub proof fn lemma_carbon_scaling(k: (int, int), p: (int, int), pue: (int, int), ef: (int, int))
    ensures
        q_eq(q_carbon(q_mul(k, p), pue, ef), q_mul(k, q_carbon(p, pue, ef))),
{
    let w = q_mul(q_mul((1int, 1000int), pue), ef);
    lemma_carbon_as_mul(q_mul(k, p), pue, ef);
    lemma_carbon_as_mul(p, pue, ef);
    lemma_q_mul_assoc(k, p, w);
}

/// The comma-separated pieces of `s`, in order.
pub open spec fn split_commas(s: Seq<u8>) -> Seq<Seq<u8>>
    decreases s.len(),
{
    let k = find_byte(s, 44, 0);
    if 0 <= k < s.len() {
        seq![s.take(k)] + split_commas(s.skip(k + 1))
    } else {
        seq![s]
    }
}

/// Parse a comma-separated list of decimal coefficients, each trimmed of
/// surrounding whitespace, the form the polynomial arrives in from the
/// environment; `None` exactly when some piece is not a decimal that fits.
pub fn parse_decimal_list(s: &[u8]) -> (r: Option<Vec<Rat>>)
    ensures
        r is Some <==> (forall|i: int|
            0 <= i < split_commas(s@).len() ==> decimal_ok(
                trim_of(#[trigger] split_commas(s@)[i]),
            )),
        r matches Some(v) ==> {
            &&& v@.len() == split_commas(s@).len()
            &&& forall|i: int|
                0 <= i < v@.len() ==> (#[trigger] v@[i]).wf() && v@[i]@ == decimal_val(
                    trim_of(split_commas(s@)[i]),
                )
        },
{
    let ghost segs = split_commas(s@);
    let mut out: Vec<Rat> = Vec::new();
    let mut st: usize = 0;
    proof {
        assert(s@.skip(0) =~= s@);
        assert(segs.skip(0) =~= segs);
    }
    loop
        invariant
            st <= s@.len(),
            segs == split_commas(s@),
            out@.len() <= segs.len(),
            split_commas(s@.skip(st as int)) == segs.skip(out@.len() as int),
            forall|j: int|
                0 <= j < out@.len() ==> (#[trigger] out@[j]).wf() && out@[j]@ == decimal_val(
                    trim_of(segs[j]),
                ) && decimal_ok(trim_of(segs[j])),
        decreases s@.len() - st,
    {
        let k = crate::text::scan_byte(s, 44, st);
        let ghost li = out@.len() as int;
        let ghost st0 = st as int;
        proof {
            lemma_find_byte_props(s@, 44, st as int);
            lemma_find_byte_shift(s@, 44, st as int);
            let rem = s@.skip(st as int);
            assert(find_byte(rem, 44, 0) == k - st);
            if k < s.len() {
                assert(rem.take(k - st) =~= s@.subrange(st as int, k as int));
                assert(rem.skip(k - st + 1) =~= s@.skip(k as int + 1));
                assert(split_commas(rem) == seq![s@.subrange(st as int, k as int)] + split_commas(
                    s@.skip(k as int + 1),
                ));
                assert(segs.skip(li).len() >= 1);
                assert(li < segs.len());
                assert(segs.skip(li)[0] == segs[li]);
                assert(segs[li] == s@.subrange(st as int, k as int));
            } else {
                assert(split_commas(rem) == seq![rem]);
                assert(segs.skip(li).len() == 1);
                assert(li < segs.len());
                assert(segs.skip(li)[0] == segs[li]);
                assert(rem =~= s@.subrange(st as int, k as int));
                assert(segs[li] == s@.subrange(st as int, k as int));
            }
        }
        let piece = match Rat::from_decimal(&s[st..k]) {
            Some(q) => q,
            None => {
                proof {
                    assert(!decimal_ok(trim_of(segs[li])));
                }
                return None;
            },
        };
        let ghost out0 = out@;
        out.push(piece);
        if k == s.len() {
            proof {
                assert(segs.skip(li) =~= seq![segs[li]]);
                assert(out@.len() == segs.len());
                assert forall|j: int| 0 <= j < out@.len() implies (#[trigger] out@[j]).wf()
                    && out@[j]@ == decimal_val(trim_of(segs[j])) && decimal_ok(
                    trim_of(segs[j]),
                ) by {
                    if j < li {
                        assert(out@[j] == out0[j]);
                        assert(out0[j].wf() && out0[j]@ == decimal_val(trim_of(segs[j]))
                            && decimal_ok(trim_of(segs[j])));
                    } else {
                        assert(out@[j] == piece);
                    }
                }
                assert forall|j: int| 0 <= j < segs.len() implies decimal_ok(
                    trim_of(#[trigger] segs[j]),
                ) by {
                    assert(out@[j].wf());
                }
            }
            return Some(out);
        }
        st = k + 1;
        proof {
            assert(segs.skip(li + 1) =~= segs.skip(li).skip(1));
            assert((seq![s@.subrange(st0, k as int)] + split_commas(s@.skip(k as int + 1))).skip(
                1,
            ) =~= split_commas(s@.skip(k as int + 1)));
            assert forall|j: int| 0 <= j < out@.len() implies (#[trigger] out@[j]).wf()
                && out@[j]@ == decimal_val(trim_of(segs[j])) && decimal_ok(trim_of(segs[j])) by {
                if j < li {
                    assert(out@[j] == out0[j]);
                    assert(out0[j].wf() && out0[j]@ == decimal_val(trim_of(segs[j])) && decimal_ok(
                        trim_of(segs[j]),
                    ));
                } else {
                    assert(out@[j] == piece);
                }
            }
        }
    }
}

/// Shifting the start of a byte search commutes with dropping a prefix.
proof fn lemma_find_byte_shift(s: Seq<u8>, b: u8, m: int)
    requires
        0 <= m <= s.len(),
    ensures
        find_byte(s.skip(m), b, 0) == find_byte(s, b, m) - m,
{
    lemma_find_byte_shift_from(s, b, m, m);
}

/// General form of the shift: searching `s` from `i` matches searching the
/// suffix at `m` from `i - m`.
proof fn lemma_find_byte_shift_from(s: Seq<u8>, b: u8, m: int, i: int)
    requires
        0 <= m <= i <= s.len(),
    ensures
        find_byte(s.skip(m), b, i - m) == find_byte(s, b, i) - m,
    decreases s.len() - i,
{
    if i < s.len() {
        assert(s.skip(m)[i - m] == s[i]);
        if s[i] != b {
            lemma_find_byte_shift_from(s, b, m, i + 1);
        }
    }
}

} // verus!
