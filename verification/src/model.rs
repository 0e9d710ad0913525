//! The power model: a polynomial, fit offline, from host CPU utilization to
//! host power draw, and the per-VM decomposition of that draw into a static
//! share (idle baseline apportioned by core count) and a dynamic share
//! (utilization-driven swing scaled by the attribution ratio).
//!
//! `estimate(u)` computes `c0 + c1*u + c2*u^2 + ...` by Horner's rule in
//! exact rational arithmetic; `q_horner` is the evaluation contract.  The
//! dynamic share is deliberately not clamped at zero: a small negative value
//! is expected regression noise when the sampled utilization falls below the
//! fitting baseline, not a defect.

use vstd::prelude::*;

use crate::rational::{Rat, fits_i64, q_add, q_sub, q_mul, q_eq, q_le, q_zero, q_one};

verus! {

/// Horner evaluation of the polynomial with coefficient list `cs` (constant
/// term first) at the point `u`: `cs[0] + u * (cs[1] + u * (...))`.
pub open spec fn q_horner(cs: Seq<(int, int)>, u: (int, int)) -> (int, int)
    decreases cs.len(),
{
    if cs.len() == 0 {
        (0int, 1int)
    } else {
        q_add(cs[0], q_mul(u, q_horner(cs.skip(1), u)))
    }
}

/// Every intermediate of the Horner evaluation fits the i64 components.
pub open spec fn q_horner_fits(cs: Seq<(int, int)>, u: (int, int)) -> bool
    decreases cs.len(),
{
    if cs.len() == 0 {
        true
    } else {
        let rest = q_horner(cs.skip(1), u);
        let m = q_mul(u, rest);
        let a = q_add(cs[0], m);
        &&& q_horner_fits(cs.skip(1), u)
        &&& fits_i64(m.0)
        &&& fits_i64(m.1)
        &&& fits_i64(a.0)
        &&& fits_i64(a.1)
    }
}

/// Idle-baseline power apportioned to the VM by core-count share:
/// `estimate(0) * vm_cores / server_cores`.
pub open spec fn q_static_power(cs: Seq<(int, int)>, vm_cores: int, server_cores: int) -> (
    int,
    int,
) {
    q_mul(q_horner(cs, q_zero()), (vm_cores, server_cores))
}

/// Dynamic power attributed to the VM:
/// `(estimate(u) - estimate(0)) * ratio`.
pub open spec fn q_dynamic_power(cs: Seq<(int, int)>, u: (int, int), ratio: (int, int)) -> (
    int,
    int,
) {
    q_mul(q_sub(q_horner(cs, u), q_horner(cs, q_zero())), ratio)
}

/// Total power attributed to the VM: static share plus dynamic share.
pub open spec fn q_total_power(
    cs: Seq<(int, int)>,
    u: (int, int),
    vm_cores: int,
    server_cores: int,
    ratio: (int, int),
) -> (int, int) {
    q_add(q_static_power(cs, vm_cores, server_cores), q_dynamic_power(cs, u, ratio))
}

/// Every intermediate of the decomposition fits the i64 components.
pub open spec fn vm_power_fits(
    cs: Seq<(int, int)>,
    u: (int, int),
    vm_cores: int,
    server_cores: int,
    ratio: (int, int),
) -> bool {
    let f0 = q_horner(cs, q_zero());
    let fx = q_horner(cs, u);
    let st = q_mul(f0, (vm_cores, server_cores));
    let df = q_sub(fx, f0);
    let dy = q_mul(df, ratio);
    let tot = q_add(st, dy);
    &&& q_horner_fits(cs, q_zero())
    &&& q_horner_fits(cs, u)
    &&& fits_i64(st.0) && fits_i64(st.1)
    &&& fits_i64(df.0) && fits_i64(df.1)
    &&& fits_i64(dy.0) && fits_i64(dy.1)
    &&& fits_i64(tot.0) && fits_i64(tot.1)
}

/// The polynomial power model, coefficients in order of rising degree.
#[derive(Clone)]
pub struct PolynomialModel {
    coefficients: Vec<Rat>,
}

impl View for PolynomialModel {
    type V = Seq<(int, int)>;

    closed spec fn view(&self) -> Seq<(int, int)> {
        self.coefficients@.map_values(|c: Rat| c@)
    }
}

/// A static/dynamic power decomposition for one VM, in watts.
pub struct PowerEstimate {
    pub static_power: Rat,
    pub dynamic_power: Rat,
    pub total_power: Rat,
}

impl PolynomialModel {
    /// Every coefficient is a well-formed rational.
    pub open spec fn wf(&self) -> bool {
        forall|i: int| 0 <= i < self@.len() ==> (#[trigger] self@[i]).1 > 0
    }

    /// Wrap a coefficient list as a model.
    pub fn new(coefficients: Vec<Rat>) -> (r: PolynomialModel)
        requires
            forall|i: int| 0 <= i < coefficients@.len() ==> (#[trigger] coefficients@[i]).wf(),
        ensures
            r.wf(),
            r@ == coefficients@.map_values(|c: Rat| c@),
    {
        let r = PolynomialModel { coefficients };
        proof {
            assert forall|i: int| 0 <= i < r@.len() implies (#[trigger] r@[i]).1 > 0 by {
                assert(r@[i] == r.coefficients@[i]@);
            }
        }
        r
    }

    /// The number of coefficients.
    pub fn coefficient_count(&self) -> (r: usize)
        ensures
            r == self@.len(),
    {
        self.coefficients.len()
    }

    /// Evaluate the polynomial at `u`; `None` exactly when an intermediate of
    /// the Horner evaluation leaves i64.
    pub fn estimate(&self, u: Rat) -> (r: Option<Rat>)
        requires
            self.wf(),
            u.wf(),
        ensures
            r is Some <==> q_horner_fits(self@, u@),
            r matches Some(v) ==> v.wf() && v@ == q_horner(self@, u@),
    {
        let ghost cs = self@;
        let n = self.coefficients.len();
        let mut acc = Rat::from_int(0);
        let mut i: usize = n;
        proof {
            assert(cs.skip(n as int) =~= Seq::<(int, int)>::empty());
        }
        while i > 0
            invariant
                i <= n,
                n == self.coefficients.len(),
                cs == self@,
                self.wf(),
                u.wf(),
                acc.wf(),
                acc@ == q_horner(cs.skip(i as int), u@),
                q_horner_fits(cs.skip(i as int), u@),
            decreases i,
        {
            i = i - 1;
            proof {
                assert(cs.skip(i as int).skip(1) =~= cs.skip(i as int + 1));
                assert(cs[i as int] == self.coefficients@[i as int]@);
            }
            let m = match u.checked_mul(acc) {
                Some(x) => x,
                None => {
                    proof {
                        if q_horner_fits(cs, u@) {
                            lemma_horner_fits_suffix(cs, u@, i as int);
                        }
                    }
                    return None;
                },
            };
            let a = match self.coefficients[i].checked_add(m) {
                Some(x) => x,
                None => {
                    proof {
                        if q_horner_fits(cs, u@) {
                            lemma_horner_fits_suffix(cs, u@, i as int);
                        }
                    }
                    return None;
                },
            };
            acc = a;
        }
        proof {
            assert(cs.skip(0) =~= cs);
        }
        Some(acc)
    }

    /// Decompose the host power draw at utilization `u` into the share of one
    /// VM with `vm_cores` of the host's `server_cores` cores, attributing
    /// `ratio` of the dynamic swing to it.  `None` exactly when an
    /// intermediate of the exact arithmetic leaves i64.
    pub fn estimate_vm_power(&self, u: Rat, vm_cores: u32, server_cores: u32, ratio: Rat) -> (r:
        Option<PowerEstimate>)
        requires
            self.wf(),
            u.wf(),
            ratio.wf(),
            server_cores > 0,
            q_le(q_zero(), ratio@),
            q_le(ratio@, q_one()),
        ensures
            r is Some <==> vm_power_fits(self@, u@, vm_cores as int, server_cores as int, ratio@),
            r matches Some(p) ==> {
                &&& p.static_power.wf() && p.static_power@ == q_static_power(
                    self@,
                    vm_cores as int,
                    server_cores as int,
                )
                &&& p.dynamic_power.wf() && p.dynamic_power@ == q_dynamic_power(self@, u@, ratio@)
                &&& p.total_power.wf() && p.total_power@ == q_total_power(
                    self@,
                    u@,
                    vm_cores as int,
                    server_cores as int,
                    ratio@,
                )
            },
    {
        let f0 = match self.estimate(Rat::from_int(0)) {
            Some(x) => x,
            None => { return None; },
        };
        let fx = match self.estimate(u) {
            Some(x) => x,
            None => { return None; },
        };
        let core_share = Rat::new(vm_cores as i64, server_cores as i64);
        let st = match f0.checked_mul(core_share) {
            Some(x) => x,
            None => { return None; },
        };
        let df = match fx.checked_sub(f0) {
            Some(x) => x,
            None => { return None; },
        };
        let dy = match df.checked_mul(ratio) {
            Some(x) => x,
            None => { return None; },
        };
        let tot = match st.checked_add(dy) {
            Some(x) => x,
            None => { return None; },
        };
        Some(PowerEstimate { static_power: st, dynamic_power: dy, total_power: tot })
    }
}

/// If every intermediate of the Horner evaluation fits, so does every
/// intermediate of the evaluation of any suffix of the coefficient list.
proof fn lemma_horner_fits_suffix(cs: Seq<(int, int)>, u: (int, int), j: int)
    requires
        0 <= j <= cs.len(),
        q_horner_fits(cs, u),
    ensures
        q_horner_fits(cs.skip(j), u),
    decreases j,
{
    if j == 0 {
        assert(cs.skip(0) =~= cs);
    } else {
        lemma_horner_fits_suffix(cs.skip(1), u, j - 1);
        assert(cs.skip(1).skip(j - 1) =~= cs.skip(j));
    }
}

/// Regrouping of products: congruent fractions stay congruent under
/// multiplication by a common fraction.
proof fn lemma_mul_congruence(a0: int, a1: int, b0: int, b1: int, k0: int, k1: int)
    by (nonlinear_arith)
    requires
        a0 * b1 == b0 * a1,
    ensures
        (a0 * k0) * (b1 * k1) == (b0 * k0) * (a1 * k1),
{
}

/// Law: for every non-empty coefficient list, the model evaluated at zero
/// utilization is exactly the constant coefficient `c0`.
pub proof fn lemma_estimate_at_zero(cs: Seq<(int, int)>)
    requires
        cs.len() > 0,
    ensures
        q_eq(q_horner(cs, q_zero()), cs[0]),
{
    let rest = q_horner(cs.skip(1), q_zero());
    let h = q_horner(cs, q_zero());
    assert(h == q_add(cs[0], q_mul(q_zero(), rest)));
    assert(h.0 * cs[0].1 == cs[0].0 * h.1) by (nonlinear_arith)
        requires
            h.0 == cs[0].0 * (1 * rest.1) + (0 * rest.0) * cs[0].1,
            h.1 == cs[0].1 * (1 * rest.1),
    ;
}

/// Law: at zero utilization the dynamic share is exactly zero, for every
/// attribution ratio, and the static share is exactly
/// `c0 * vm_cores / server_cores`.
pub proof fn lemma_power_at_zero_utilization(
    cs: Seq<(int, int)>,
    vm_cores: int,
    server_cores: int,
    ratio: (int, int),
)
    requires
        cs.len() > 0,
    ensures
        q_eq(q_dynamic_power(cs, q_zero(), ratio), q_zero()),
        q_eq(q_static_power(cs, vm_cores, server_cores), q_mul(cs[0], (vm_cores, server_cores))),
{
    let f0 = q_horner(cs, q_zero());
    let df = q_sub(f0, f0);
    assert(df.0 == 0);
    let dy = q_mul(df, ratio);
    assert(dy.0 == 0 * ratio.0);
    assert(q_eq(dy, q_zero()));
    lemma_estimate_at_zero(cs);
    lemma_mul_congruence(f0.0, f0.1, cs[0].0, cs[0].1, vm_cores, server_cores);
}

/// Law: an attribution ratio of zero yields a dynamic share of exactly zero,
/// at every utilization.
pub proof fn lemma_dynamic_ratio_zero(cs: Seq<(int, int)>, u: (int, int))
    ensures
        q_eq(q_dynamic_power(cs, u, q_zero()), q_zero()),
{
    let df = q_sub(q_horner(cs, u), q_horner(cs, q_zero()));
    let dy = q_mul(df, q_zero());
    assert(dy.0 == df.0 * 0);
}

/// Law: an attribution ratio of one yields a dynamic share of exactly
/// `estimate(u) - estimate(0)`.
pub proof fn lemma_dynamic_ratio_one(cs: Seq<(int, int)>, u: (int, int))
    ensures
        q_eq(
            q_dynamic_power(cs, u, q_one()),
            q_sub(q_horner(cs, u), q_horner(cs, q_zero())),
        ),
{
    let df = q_sub(q_horner(cs, u), q_horner(cs, q_zero()));
    let dy = q_mul(df, q_one());
    assert(dy.0 == df.0 * 1);
    assert(dy.1 == df.1 * 1);
}

} // verus!
