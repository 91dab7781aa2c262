//! Arithmetic facts about exact amplitudes.
//!
//! Two representations stand for the same number when they have the same
//! numerator once both are brought to a common denominator. The lemmas here
//! say what `plus`, `halve` and `neg` do to that numerator, and that a number
//! has only one representation in lowest terms.

use crate::quantum::amplitude::{lemma_raise_k, Cyclo};
use vstd::prelude::*;

verus! {

impl Cyclo {
    /// The same number over the denominator `√2^to`, for `to` not below `k`.
    pub open spec fn lift(self, to: nat) -> Cyclo {
        self.raise((to - self.k) as nat)
    }

    /// The number, negated when `flag` is set.
    pub open spec fn signed(self, flag: bool) -> Cyclo {
        if flag {
            self.neg()
        } else {
            self
        }
    }
}

/// The number `p + q·√2`.
pub struct Weight {
    pub p: int,
    pub q: int,
}

impl Weight {
    pub open spec fn zero() -> Weight {
        Weight { p: 0, q: 0 }
    }

    pub open spec fn plus(self, other: Weight) -> Weight {
        Weight { p: self.p + other.p, q: self.q + other.q }
    }
}

impl Cyclo {
    /// The squared magnitude of the numerator:
    /// `|a + b·ω + c·ω² + d·ω³|² = (a² + b² + c² + d²) + (ab + bc + cd − da)·√2`.
    pub open spec fn weight(self) -> Weight {
        Weight {
            p: self.a * self.a + self.b * self.b + self.c * self.c + self.d * self.d,
            q: self.a * self.b + self.b * self.c + self.c * self.d - self.d * self.a,
        }
    }

    /// The squared magnitude of the number, times `2^to`: the squared
    /// magnitude of its numerator over the denominator `√2^to`.
    pub open spec fn weight_at(self, to: nat) -> Weight {
        self.lift(to).weight()
    }
}

/// Raising does to the exponent nothing but add to it.
pub proof fn lemma_raise_with_k(x: Cyclo, j: nat, m: nat)
    ensures
        x.with_k(j).raise(m) == x.raise(m).with_k(j + m),
    decreases m,
{
    if m > 0 {
        let y = x.times_sqrt2().with_k(x.k + 1);
        lemma_raise_with_k(y, j + 1, (m - 1) as nat);
        assert(x.with_k(j).times_sqrt2().with_k(j + 1) == y.with_k(j + 1));
    }
}

/// Raising in two goes is raising in one.
pub proof fn lemma_raise_add(x: Cyclo, m: nat, n: nat)
    ensures
        x.raise(m).raise(n) == x.raise(m + n),
    decreases m,
{
    if m > 0 {
        lemma_raise_add(x.times_sqrt2().with_k(x.k + 1), (m - 1) as nat, n);
    }
}

/// Raising a sum of numerators raises each of them.
pub proof fn lemma_raise_join(x: Cyclo, y: Cyclo, m: nat)
    requires
        x.k == y.k,
    ensures
        x.raise(m).join(y.raise(m)) == x.join(y).raise(m),
    decreases m,
{
    if m > 0 {
        let x1 = x.times_sqrt2().with_k(x.k + 1);
        let y1 = y.times_sqrt2().with_k(y.k + 1);
        lemma_raise_join(x1, y1, (m - 1) as nat);
        assert(x1.join(y1) == x.join(y).times_sqrt2().with_k(x.k + 1));
    }
}

/// Raising commutes with negating.
pub proof fn lemma_raise_neg(x: Cyclo, m: nat)
    ensures
        x.neg().raise(m) == x.raise(m).neg(),
    decreases m,
{
    if m > 0 {
        let x1 = x.times_sqrt2().with_k(x.k + 1);
        lemma_raise_neg(x1, (m - 1) as nat);
        assert(x.neg().times_sqrt2().with_k(x.k + 1) == x1.neg());
    }
}

/// Zero stays zero over any denominator.
pub proof fn lemma_raise_zero(x: Cyclo, m: nat)
    requires
        x.is_zero(),
    ensures
        x.raise(m).is_zero(),
    decreases m,
{
    if m > 0 {
        lemma_raise_zero(x.times_sqrt2().with_k(x.k + 1), (m - 1) as nat);
    }
}

/// A raised numerator is a multiple of `√2`.
pub proof fn lemma_raise_divisible(x: Cyclo, m: nat)
    requires
        m >= 1,
    ensures
        x.raise(m).divisible(),
    decreases m,
{
    let x1 = x.times_sqrt2().with_k(x.k + 1);
    if m > 1 {
        lemma_raise_divisible(x1, (m - 1) as nat);
    } else {
        assert(x.raise(1) == x1) by {
            reveal_with_fuel(Cyclo::raise, 2);
        }
        assert(x1.divisible());
    }
}

/// Different representations stay different when both are raised alike.
pub proof fn lemma_raise_injective(x: Cyclo, y: Cyclo, m: nat)
    requires
        x.raise(m) == y.raise(m),
    ensures
        x == y,
    decreases m,
{
    lemma_raise_k(x, m);
    lemma_raise_k(y, m);
    if m > 0 {
        lemma_raise_injective(
            x.times_sqrt2().with_k(x.k + 1),
            y.times_sqrt2().with_k(y.k + 1),
            (m - 1) as nat,
        );
    }
}

/// Two steps of `raise` double the numerator.
pub proof fn lemma_raise_two(x: Cyclo)
    ensures
        x.raise(2) == (Cyclo { a: 2 * x.a, b: 2 * x.b, c: 2 * x.c, d: 2 * x.d, k: x.k + 2 }),
{
    reveal_with_fuel(Cyclo::raise, 3);
}

/// Lowest terms stand for the same number.
pub proof fn lemma_normalize_lift(x: Cyclo)
    ensures
        x.normalize().k <= x.k,
        x.normalize().lift(x.k) == x,
        x.normalize().reduced(),
    decreases x.k,
{
    if x.k > 0 && x.divisible() {
        let y = x.over_sqrt2().with_k((x.k - 1) as nat);
        let n = y.normalize();
        lemma_normalize_lift(y);
        lemma_raise_add(n, (y.k - n.k) as nat, 1);
        assert(y.raise(1) == x) by {
            reveal_with_fuel(Cyclo::raise, 2);
        }
    }
}

/// A number has one representation in lowest terms.
pub proof fn lemma_canonical(x: Cyclo, y: Cyclo, to: nat)
    requires
        x.reduced(),
        y.reduced(),
        x.k <= to,
        y.k <= to,
        x.lift(to) == y.lift(to),
    ensures
        x == y,
{
    if x.k <= y.k {
        lemma_canonical_ordered(x, y, to);
    } else {
        lemma_canonical_ordered(y, x, to);
    }
}

/// `lemma_canonical` for `x.k <= y.k`.
proof fn lemma_canonical_ordered(x: Cyclo, y: Cyclo, to: nat)
    requires
        x.reduced(),
        y.reduced(),
        x.k <= y.k <= to,
        x.lift(to) == y.lift(to),
    ensures
        x == y,
{
    let gap = (y.k - x.k) as nat;
    lemma_raise_add(x, gap, (to - y.k) as nat);
    lemma_raise_injective(x.raise(gap), y, (to - y.k) as nat);
    if gap > 0 {
        lemma_raise_divisible(x, gap);
    }
}

/// The numerator of a sum is the sum of the numerators.
pub proof fn lemma_plus_lift(x: Cyclo, y: Cyclo, to: nat)
    requires
        x.reduced(),
        y.reduced(),
        x.k <= to,
        y.k <= to,
    ensures
        x.plus(y).k <= to,
        x.plus(y).lift(to) == x.lift(to).join(y.lift(to)),
        x.plus(y).reduced(),
{
    lemma_raise_k(x, (to - x.k) as nat);
    lemma_raise_k(y, (to - y.k) as nat);
    if x.is_zero() {
        lemma_raise_zero(x, (to - x.k) as nat);
    } else if y.is_zero() {
        lemma_raise_zero(y, (to - y.k) as nat);
    } else {
        let k = x.common_k(y);
        let xs = x.lift(k);
        let ys = y.lift(k);
        lemma_raise_k(x, (k - x.k) as nat);
        lemma_raise_k(y, (k - y.k) as nat);
        let s = xs.join(ys);
        let n = s.normalize();
        lemma_normalize_lift(s);
        lemma_raise_add(n, (k - n.k) as nat, (to - k) as nat);
        lemma_raise_join(xs, ys, (to - k) as nat);
        lemma_raise_add(x, (k - x.k) as nat, (to - k) as nat);
        lemma_raise_add(y, (k - y.k) as nat, (to - k) as nat);
    }
}

/// Halving keeps the numerator and adds one factor to the denominator.
pub proof fn lemma_halve_lift(x: Cyclo, to: nat)
    requires
        x.k <= to,
    ensures
        x.halve().k <= to + 1,
        x.halve().lift(to + 1) == x.lift(to).with_k(to + 1),
        x.reduced() ==> x.halve().reduced(),
{
    let m = (to - x.k) as nat;
    lemma_raise_k(x, m);
    if x.divisible() {
        let h = x.over_sqrt2();
        lemma_raise_add(h, 1, m);
        assert(h.raise(1) == x.with_k(x.k + 1)) by {
            reveal_with_fuel(Cyclo::raise, 2);
        }
        lemma_raise_with_k(x, x.k + 1, m);
    } else {
        lemma_raise_with_k(x, x.k + 1, m);
    }
}

/// Negating negates the numerator.
pub proof fn lemma_signed_lift(x: Cyclo, flag: bool, to: nat)
    requires
        x.k <= to,
    ensures
        x.signed(flag).k == x.k,
        x.signed(flag).lift(to) == x.lift(to).signed(flag),
        x.reduced() ==> x.signed(flag).reduced(),
{
    if flag {
        lemma_raise_neg(x, (to - x.k) as nat);
    }
}

/// Adding is commutative.
pub proof fn lemma_plus_commutes(x: Cyclo, y: Cyclo)
    requires
        x.reduced(),
        y.reduced(),
    ensures
        x.plus(y) == y.plus(x),
{
    if !x.is_zero() && !y.is_zero() {
        let k = x.common_k(y);
        assert(x.lift(k).join(y.lift(k)) == y.lift(k).join(x.lift(k))) by {
            lemma_raise_k(x, (k - x.k) as nat);
            lemma_raise_k(y, (k - y.k) as nat);
        }
    }
}

/// The heart of Hadamard's self-inverse. Let `u` be the amplitude of a basis
/// state whose target bit is `bit`, and `v` that of the state with the
/// target bit toggled. One application leaves `first` and `partner` on the
/// two; a second one gives `u` back.
pub proof fn lemma_hadamard_twice(u: Cyclo, v: Cyclo, bit: bool)
    requires
        u.reduced(),
        v.reduced(),
    ensures
        ({
            let first = u.halve().signed(bit).plus(v.halve());
            let partner = v.halve().signed(!bit).plus(u.halve());
            first.halve().signed(bit).plus(partner.halve()) == u
        }),
{
    let to = u.common_k(v);
    let hu = u.halve();
    let hv = v.halve();
    lemma_halve_lift(u, to);
    lemma_halve_lift(v, to);
    lemma_signed_lift(hu, bit, to + 1);
    lemma_signed_lift(hv, !bit, to + 1);
    let first = hu.signed(bit).plus(hv);
    let partner = hv.signed(!bit).plus(hu);
    lemma_plus_lift(hu.signed(bit), hv, to + 1);
    lemma_plus_lift(hv.signed(!bit), hu, to + 1);
    lemma_halve_lift(first, to + 1);
    lemma_halve_lift(partner, to + 1);
    lemma_signed_lift(first.halve(), bit, to + 2);
    let twice = first.halve().signed(bit).plus(partner.halve());
    lemma_plus_lift(first.halve().signed(bit), partner.halve(), to + 2);
    lemma_raise_add(u, (to - u.k) as nat, 2);
    lemma_raise_two(u.lift(to));
    lemma_raise_k(u, (to - u.k) as nat);
    lemma_raise_k(v, (to - v.k) as nat);
    assert(twice.lift(to + 2) == u.lift(to + 2));
    lemma_canonical(twice, u, to + 2);
}

/// A phase turns the numerator and keeps its magnitude.
pub proof fn lemma_phase_weight(x: Cyclo, to: nat)
    requires
        x.k <= to,
    ensures
        x.times_omega().weight_at(to) == x.weight_at(to),
        x.times_omega_inv().weight_at(to) == x.weight_at(to),
        x.neg().weight_at(to) == x.weight_at(to),
{
    let m = (to - x.k) as nat;
    lemma_raise_omega(x, m);
    lemma_raise_neg(x, m);
    let n = x.raise(m);
    lemma_weight_identities(n.a, n.b, n.c, n.d, 0, 0, 0, 0);
}

/// Raising commutes with a phase.
pub proof fn lemma_raise_omega(x: Cyclo, m: nat)
    ensures
        x.times_omega().raise(m) == x.raise(m).times_omega(),
        x.times_omega_inv().raise(m) == x.raise(m).times_omega_inv(),
    decreases m,
{
    if m > 0 {
        let x1 = x.times_sqrt2().with_k(x.k + 1);
        lemma_raise_omega(x1, (m - 1) as nat);
        assert(x.times_omega().times_sqrt2().with_k(x.k + 1) == x1.times_omega());
        assert(x.times_omega_inv().times_sqrt2().with_k(x.k + 1) == x1.times_omega_inv());
    }
}

/// The polynomial identities behind the facts on weights, for two numerators
/// `(a, b, c, d)` and `(e, f, g, h)`: rotating or negating one keeps its
/// weight, multiplying it by `√2` doubles it, and the weights of sum and
/// difference add up to twice the weights of the two.
pub proof fn lemma_weight_identities(a: int, b: int, c: int, d: int, e: int, f: int, g: int, h: int)
    ensures
        ({
            let x = Cyclo { a, b, c, d, k: 0 };
            let y = Cyclo { a: e, b: f, c: g, d: h, k: 0 };
            &&& x.times_omega().weight() == x.weight()
            &&& x.times_omega_inv().weight() == x.weight()
            &&& x.neg().weight() == x.weight()
            &&& x.times_sqrt2().weight() == x.weight().plus(x.weight())
            &&& x.join(y).weight().plus(x.join(y.neg()).weight()) == x.weight().plus(
                x.weight(),
            ).plus(y.weight().plus(y.weight()))
        }),
{
    assert((-d) * (-d) == d * d && (-a) * (-a) == a * a && (-b) * (-b) == b * b && (-c) * (-c) == c
        * c) by (nonlinear_arith);
    assert((-d) * a + a * b + b * c - c * (-d) == a * b + b * c + c * d - d * a)
        by (nonlinear_arith);
    assert(b * c + c * d + d * (-a) - (-a) * b == a * b + b * c + c * d - d * a)
        by (nonlinear_arith);
    assert((-a) * (-b) + (-b) * (-c) + (-c) * (-d) - (-d) * (-a) == a * b + b * c + c * d - d * a)
        by (nonlinear_arith);
    assert((b - d) * (b - d) + (a + c) * (a + c) + (b + d) * (b + d) + (c - a) * (c - a) == 2 * (a
        * a + b * b + c * c + d * d)) by (nonlinear_arith);
    assert((b - d) * (a + c) + (a + c) * (b + d) + (b + d) * (c - a) - (c - a) * (b - d) == 2 * (a
        * b + b * c + c * d - d * a)) by (nonlinear_arith);
    assert((a + e) * (a + e) + (a - e) * (a - e) == 2 * (a * a) + 2 * (e * e)) by (nonlinear_arith);
    assert((b + f) * (b + f) + (b - f) * (b - f) == 2 * (b * b) + 2 * (f * f)) by (nonlinear_arith);
    assert((c + g) * (c + g) + (c - g) * (c - g) == 2 * (c * c) + 2 * (g * g)) by (nonlinear_arith);
    assert((d + h) * (d + h) + (d - h) * (d - h) == 2 * (d * d) + 2 * (h * h)) by (nonlinear_arith);
    assert((a + e) * (b + f) + (a - e) * (b - f) == 2 * (a * b) + 2 * (e * f)) by (nonlinear_arith);
    assert((b + f) * (c + g) + (b - f) * (c - g) == 2 * (b * c) + 2 * (f * g)) by (nonlinear_arith);
    assert((c + g) * (d + h) + (c - g) * (d - h) == 2 * (c * d) + 2 * (g * h)) by (nonlinear_arith);
    assert((d + h) * (a + e) + (d - h) * (a - e) == 2 * (d * a) + 2 * (h * e)) by (nonlinear_arith);
    assert(a + (-e) == a - e && b + (-f) == b - f && c + (-g) == c - g && d + (-h) == d - h);
}

/// What one ket adds to the squared magnitudes under Hadamard. `x` is the
/// amplitude of the ket, whose target bit is `bit`; `v` is what the ket with
/// the target bit toggled has brought before, or zero. The two basis states
/// hold `v/√2` and `±v/√2`; adding `±x/√2` and `x/√2` to them raises the sum
/// of their squared magnitudes by that of `x`.
pub proof fn lemma_hadamard_weights(x: Cyclo, v: Cyclo, bit: bool, to: nat)
    requires
        x.reduced(),
        v.reduced(),
        x.k < to,
        v.k < to,
    ensures
        ({
            let here = Cyclo::zero().plus(v.halve());
            let there = v.halve().signed(!bit).plus(Cyclo::zero());
            let to_here = x.halve().signed(bit);
            let to_there = x.halve();
            &&& here.k <= to && there.k <= to && to_here.k <= to && to_there.k <= to
            &&& here.plus(to_here).k <= to && there.plus(to_there).k <= to
            &&& here.plus(to_here).weight_at(to).plus(there.plus(to_there).weight_at(to))
                == here.weight_at(to).plus(there.weight_at(to)).plus(x.weight_at(to))
        }),
{
    let low = (to - 1) as nat;
    let hx = x.halve();
    let hv = v.halve();
    lemma_halve_lift(x, low);
    lemma_halve_lift(v, low);
    lemma_signed_lift(hx, bit, to);
    lemma_signed_lift(hv, !bit, to);
    let here = Cyclo::zero().plus(hv);
    let there = hv.signed(!bit).plus(Cyclo::zero());
    lemma_plus_lift(Cyclo::zero(), hv, to);
    lemma_plus_lift(hv.signed(!bit), Cyclo::zero(), to);
    lemma_plus_lift(here, hx.signed(bit), to);
    lemma_plus_lift(there, hx, to);
    lemma_raise_add(x, (low - x.k) as nat, 1);
    assert(x.lift(low).raise(1) == x.lift(low).times_sqrt2().with_k(x.lift(low).k + 1)) by {
        reveal_with_fuel(Cyclo::raise, 2);
    }
    lemma_raise_k(x, (low - x.k) as nat);
    lemma_raise_k(v, (low - v.k) as nat);
    lemma_raise_zero(Cyclo::zero(), to);
    lemma_raise_k(Cyclo::zero(), to);
    let xn = x.lift(low);
    let vn = v.lift(low);
    lemma_weight_identities(xn.a, xn.b, xn.c, xn.d, vn.a, vn.b, vn.c, vn.d);
    lemma_weight_identities(vn.a, vn.b, vn.c, vn.d, xn.a, xn.b, xn.c, xn.d);
}

/// One more factor of 2 in the common denominator doubles a weight.
pub proof fn lemma_weight_doubles(x: Cyclo, to: nat)
    requires
        x.k <= to,
    ensures
        x.weight_at(to + 1) == x.weight_at(to).plus(x.weight_at(to)),
{
    lemma_raise_add(x, (to - x.k) as nat, 1);
    let n = x.lift(to);
    assert(n.raise(1) == n.times_sqrt2().with_k(n.k + 1)) by {
        reveal_with_fuel(Cyclo::raise, 2);
    }
    lemma_weight_identities(n.a, n.b, n.c, n.d, 0, 0, 0, 0);
}

/// Adding is associative.
pub proof fn lemma_plus_associates(x: Cyclo, y: Cyclo, z: Cyclo)
    requires
        x.reduced(),
        y.reduced(),
        z.reduced(),
    ensures
        x.plus(y).plus(z) == x.plus(y.plus(z)),
{
    let xy = x.common_k(y);
    let to = if xy >= z.k { xy } else { z.k };
    lemma_plus_lift(x, y, to);
    lemma_plus_lift(y, z, to);
    lemma_plus_lift(x.plus(y), z, to);
    lemma_plus_lift(x, y.plus(z), to);
    lemma_raise_k(x, (to - x.k) as nat);
    lemma_raise_k(y, (to - y.k) as nat);
    lemma_raise_k(z, (to - z.k) as nat);
    lemma_canonical(x.plus(y).plus(z), x.plus(y.plus(z)), to);
}

/// Adding zero changes nothing.
pub proof fn lemma_plus_zero(x: Cyclo)
    requires
        x.reduced(),
    ensures
        x.plus(Cyclo::zero()) == x,
        Cyclo::zero().plus(x) == x,
{
}

/// Halving a sum halves each part.
pub proof fn lemma_halve_plus(x: Cyclo, y: Cyclo)
    requires
        x.reduced(),
        y.reduced(),
    ensures
        x.plus(y).halve() == x.halve().plus(y.halve()),
{
    let to = x.common_k(y);
    lemma_plus_lift(x, y, to);
    lemma_halve_lift(x.plus(y), to);
    lemma_halve_lift(x, to);
    lemma_halve_lift(y, to);
    lemma_plus_lift(x.halve(), y.halve(), to + 1);
    lemma_raise_k(x, (to - x.k) as nat);
    lemma_raise_k(y, (to - y.k) as nat);
    lemma_canonical(x.plus(y).halve(), x.halve().plus(y.halve()), to + 1);
}

/// Negating a sum negates each part.
pub proof fn lemma_signed_plus(x: Cyclo, y: Cyclo, flag: bool)
    requires
        x.reduced(),
        y.reduced(),
    ensures
        x.plus(y).signed(flag) == x.signed(flag).plus(y.signed(flag)),
{
    let to = x.common_k(y);
    lemma_plus_lift(x, y, to);
    lemma_signed_lift(x.plus(y), flag, to);
    lemma_signed_lift(x, flag, to);
    lemma_signed_lift(y, flag, to);
    lemma_plus_lift(x.signed(flag), y.signed(flag), to);
    lemma_raise_k(x, (to - x.k) as nat);
    lemma_raise_k(y, (to - y.k) as nat);
    lemma_canonical(x.plus(y).signed(flag), x.signed(flag).plus(y.signed(flag)), to);
}

/// A phase on a sum is the phase on each part.
pub proof fn lemma_phase_plus(x: Cyclo, y: Cyclo)
    requires
        x.reduced(),
        y.reduced(),
    ensures
        x.plus(y).times_omega() == x.times_omega().plus(y.times_omega()),
        x.plus(y).times_omega_inv() == x.times_omega_inv().plus(y.times_omega_inv()),
{
    let to = x.common_k(y);
    lemma_plus_lift(x, y, to);
    lemma_raise_omega(x.plus(y), (to - x.plus(y).k) as nat);
    lemma_raise_omega(x, (to - x.k) as nat);
    lemma_raise_omega(y, (to - y.k) as nat);
    lemma_plus_lift(x.times_omega(), y.times_omega(), to);
    lemma_plus_lift(x.times_omega_inv(), y.times_omega_inv(), to);
    lemma_raise_k(x, (to - x.k) as nat);
    lemma_raise_k(y, (to - y.k) as nat);
    lemma_canonical(x.plus(y).times_omega(), x.times_omega().plus(y.times_omega()), to);
    lemma_canonical(
        x.plus(y).times_omega_inv(),
        x.times_omega_inv().plus(y.times_omega_inv()),
        to,
    );
}

/// Two sums of two can be added crosswise.
pub proof fn lemma_plus_interchange(a: Cyclo, b: Cyclo, c: Cyclo, d: Cyclo)
    requires
        a.reduced(),
        b.reduced(),
        c.reduced(),
        d.reduced(),
    ensures
        a.plus(b).plus(c.plus(d)) == a.plus(c).plus(b.plus(d)),
{
    let ab = a.common_k(b);
    let cd = c.common_k(d);
    let to = if ab >= cd { ab } else { cd };
    lemma_plus_lift(a, b, to);
    lemma_plus_lift(c, d, to);
    lemma_plus_lift(a, c, to);
    lemma_plus_lift(b, d, to);
    lemma_plus_lift(a.plus(b), c.plus(d), to);
    lemma_plus_lift(a.plus(c), b.plus(d), to);
    lemma_raise_k(a, (to - a.k) as nat);
    lemma_raise_k(b, (to - b.k) as nat);
    lemma_raise_k(c, (to - c.k) as nat);
    lemma_raise_k(d, (to - d.k) as nat);
    lemma_canonical(a.plus(b).plus(c.plus(d)), a.plus(c).plus(b.plus(d)), to);
}

} // verus!
