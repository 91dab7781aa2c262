//! Exact amplitudes.
//!
//! Every amplitude that these gates produce from integer amplitudes is a
//! number of the form `(a + b·ω + c·ω² + d·ω³) / √2^k`, where `ω = e^{iπ/4}`
//! and `a, b, c, d, k` are integers. Amplitudes are held in that form, so
//! sums cancel exactly and equality is decided without a tolerance.

use vstd::prelude::*;

verus! {

/// The number `(a + b·ω + c·ω² + d·ω³) / √2^k`, with `ω = e^{iπ/4}`.
pub struct Cyclo {
    pub a: int,
    pub b: int,
    pub c: int,
    pub d: int,
    pub k: nat,
}

impl Cyclo {
    /// The number 0.
    pub open spec fn zero() -> Cyclo {
        Cyclo { a: 0, b: 0, c: 0, d: 0, k: 0 }
    }

    /// The number 1.
    pub open spec fn one() -> Cyclo {
        Cyclo { a: 1, b: 0, c: 0, d: 0, k: 0 }
    }

    /// Whether the number is 0.
    pub open spec fn is_zero(self) -> bool {
        self.a == 0 && self.b == 0 && self.c == 0 && self.d == 0
    }

    /// Whether the numerator is a multiple of `√2 = ω − ω³`.
    pub open spec fn divisible(self) -> bool {
        (self.a - self.c) % 2 == 0 && (self.b - self.d) % 2 == 0
    }

    /// Whether the fraction is in lowest terms. Each number of this form has
    /// exactly one such representation.
    pub open spec fn reduced(self) -> bool {
        self.k == 0 || !self.divisible()
    }

    /// The same denominator, the numerator multiplied by `√2`.
    pub open spec fn times_sqrt2(self) -> Cyclo {
        Cyclo {
            a: self.b - self.d,
            b: self.a + self.c,
            c: self.b + self.d,
            d: self.c - self.a,
            k: self.k,
        }
    }

    /// The same denominator, the numerator divided by `√2`
    /// (exact where the numerator is divisible).
    pub open spec fn over_sqrt2(self) -> Cyclo {
        Cyclo {
            a: (self.b - self.d) / 2,
            b: (self.a + self.c) / 2,
            c: (self.b + self.d) / 2,
            d: (self.c - self.a) / 2,
            k: self.k,
        }
    }

    /// The same numerator over another denominator.
    pub open spec fn with_k(self, k: nat) -> Cyclo {
        Cyclo { a: self.a, b: self.b, c: self.c, d: self.d, k }
    }

    /// The same number in lowest terms.
    pub open spec fn normalize(self) -> Cyclo
        decreases self.k,
    {
        if self.k > 0 && self.divisible() {
            self.over_sqrt2().with_k((self.k - 1) as nat).normalize()
        } else {
            self
        }
    }

    /// The number times −1.
    pub open spec fn neg(self) -> Cyclo {
        Cyclo { a: -self.a, b: -self.b, c: -self.c, d: -self.d, k: self.k }
    }

    /// The number times `ω = e^{+iπ/4}`.
    pub open spec fn times_omega(self) -> Cyclo {
        Cyclo { a: -self.d, b: self.a, c: self.b, d: self.c, k: self.k }
    }

    /// The number times `ω⁻¹ = e^{−iπ/4}`.
    pub open spec fn times_omega_inv(self) -> Cyclo {
        Cyclo { a: self.b, b: self.c, c: self.d, d: -self.a, k: self.k }
    }

    /// The number times `1/√2`, in lowest terms where `self` is.
    pub open spec fn halve(self) -> Cyclo {
        if self.divisible() {
            self.over_sqrt2()
        } else {
            self.with_k(self.k + 1)
        }
    }

    /// The same number with `m` more factors of `√2` in the denominator.
    pub open spec fn raise(self, m: nat) -> Cyclo
        decreases m,
    {
        if m == 0 {
            self
        } else {
            self.times_sqrt2().with_k(self.k + 1).raise((m - 1) as nat)
        }
    }

    /// Whether each of the `m` steps of `raise` stays within machine range.
    pub open spec fn raise_fits(self, m: nat) -> bool
        decreases m,
    {
        m == 0 || {
            let next = self.times_sqrt2().with_k(self.k + 1);
            next.fits() && next.raise_fits((m - 1) as nat)
        }
    }

    /// Numerators added over the same denominator; not reduced.
    pub open spec fn join(self, other: Cyclo) -> Cyclo {
        Cyclo {
            a: self.a + other.a,
            b: self.b + other.b,
            c: self.c + other.c,
            d: self.d + other.d,
            k: self.k,
        }
    }

    /// The larger of the two exponents.
    pub open spec fn common_k(self, other: Cyclo) -> nat {
        if self.k >= other.k { self.k } else { other.k }
    }

    /// The sum of two numbers, in lowest terms where both are.
    pub open spec fn plus(self, other: Cyclo) -> Cyclo {
        if self.is_zero() {
            other
        } else if other.is_zero() {
            self
        } else {
            let k = self.common_k(other);
            self.raise((k - self.k) as nat).join(other.raise((k - other.k) as nat)).normalize()
        }
    }

    /// Whether the sum can be formed within machine range: bringing both to
    /// the common denominator and adding the numerators.
    pub open spec fn plus_fits(self, other: Cyclo) -> bool {
        self.is_zero() || other.is_zero() || {
            let k = self.common_k(other);
            &&& self.raise_fits((k - self.k) as nat)
            &&& other.raise_fits((k - other.k) as nat)
            &&& self.raise((k - self.k) as nat).join(other.raise((k - other.k) as nat)).fits()
        }
    }

    /// Whether a coefficient can be held, and negated, in an `i64`.
    pub open spec fn coefficient_fits(x: int) -> bool {
        -(i64::MAX as int) <= x <= i64::MAX as int
    }

    /// Whether the representation can be held in an `Amplitude`.
    pub open spec fn fits(self) -> bool {
        &&& Self::coefficient_fits(self.a)
        &&& Self::coefficient_fits(self.b)
        &&& Self::coefficient_fits(self.c)
        &&& Self::coefficient_fits(self.d)
        &&& self.k <= u64::MAX as int
    }
}

/// An exact amplitude: `(a + b·ω + c·ω² + d·ω³) / √2^k` with `ω = e^{iπ/4}`.
#[derive(Debug, Clone, Copy, PartialEq, Eq, Structural)]
pub struct Amplitude {
    pub a: i64,
    pub b: i64,
    pub c: i64,
    pub d: i64,
    pub k: u64,
}

impl View for Amplitude {
    type V = Cyclo;

    open spec fn view(&self) -> Cyclo {
        Cyclo {
            a: self.a as int,
            b: self.b as int,
            c: self.c as int,
            d: self.d as int,
            k: self.k as nat,
        }
    }
}

/// Narrows a wide intermediate to a coefficient.
fn narrow(x: i128) -> (r: i64)
    requires
        Cyclo::coefficient_fits(x as int),
    ensures
        r == x,
{
    x as i64
}

impl Amplitude {
    /// Lowest terms, and no coefficient at the one value that cannot be negated.
    pub open spec fn wf(&self) -> bool {
        self@.fits() && self@.reduced()
    }

    /// The amplitude 0.
    pub fn zero() -> (r: Amplitude)
        ensures
            r@ == Cyclo::zero(),
            r.wf(),
    {
        Amplitude { a: 0, b: 0, c: 0, d: 0, k: 0 }
    }

    /// The amplitude 1.
    pub fn one() -> (r: Amplitude)
        ensures
            r@ == Cyclo::one(),
            r.wf(),
    {
        Amplitude { a: 1, b: 0, c: 0, d: 0, k: 0 }
    }

    /// The amplitude `(a + b·ω + c·ω² + d·ω³) / √2^k`, brought to lowest
    /// terms. `None` when a coefficient is `i64::MIN`.
    pub fn from_parts(a: i64, b: i64, c: i64, d: i64, k: u64) -> (r: Option<Amplitude>)
        ensures
            match r {
                Some(x) => {
                    &&& x.wf()
                    &&& (Amplitude { a, b, c, d, k })@.fits()
                    &&& x@ == (Amplitude { a, b, c, d, k })@.normalize()
                },
                None => !(Amplitude { a, b, c, d, k })@.fits(),
            },
    {
        if a == i64::MIN || b == i64::MIN || c == i64::MIN || d == i64::MIN {
            return None;
        }
        Some(Self::lowest_terms(Amplitude { a, b, c, d, k }))
    }

    /// Whether the amplitude is exactly 0.
    pub fn is_zero(&self) -> (r: bool)
        ensures
            r == self@.is_zero(),
    {
        self.a == 0 && self.b == 0 && self.c == 0 && self.d == 0
    }

    /// Whether the numerator is a multiple of `√2`.
    fn is_divisible(&self) -> (r: bool)
        ensures
            r == self@.divisible(),
    {
        let p: i128 = self.a as i128 - self.c as i128;
        let q: i128 = self.b as i128 - self.d as i128;
        p % 2 == 0 && q % 2 == 0
    }

    /// The numerator divided by `√2`, over the same denominator.
    fn divided(&self) -> (r: Amplitude)
        requires
            self@.fits(),
            self@.divisible(),
        ensures
            r@ == self@.over_sqrt2(),
            r@.fits(),
    {
        let a: i128 = (self.b as i128 - self.d as i128) / 2;
        let b: i128 = (self.a as i128 + self.c as i128) / 2;
        let c: i128 = (self.b as i128 + self.d as i128) / 2;
        let d: i128 = (self.c as i128 - self.a as i128) / 2;
        Amplitude { a: narrow(a), b: narrow(b), c: narrow(c), d: narrow(d), k: self.k }
    }

    /// The same number in lowest terms.
    fn lowest_terms(x: Amplitude) -> (r: Amplitude)
        requires
            x@.fits(),
        ensures
            r@ == x@.normalize(),
            r.wf(),
    {
        if x.is_zero() {
            proof {
                lemma_normalize_zero(x@);
            }
            return Amplitude { a: 0, b: 0, c: 0, d: 0, k: 0 };
        }
        let mut cur = x;
        while cur.k > 0 && cur.is_divisible()
            invariant
                cur@.fits(),
                cur@.normalize() == x@.normalize(),
            decreases cur.k,
        {
            let next = cur.divided();
            cur = Amplitude { a: next.a, b: next.b, c: next.c, d: next.d, k: cur.k - 1 };
        }
        cur
    }

    /// The amplitude times −1.
    pub fn negate(&self) -> (r: Amplitude)
        requires
            self.wf(),
        ensures
            r@ == self@.neg(),
            r.wf(),
    {
        Amplitude { a: -self.a, b: -self.b, c: -self.c, d: -self.d, k: self.k }
    }

    /// The amplitude times `e^{+iπ/4}`.
    pub fn times_omega(&self) -> (r: Amplitude)
        requires
            self.wf(),
        ensures
            r@ == self@.times_omega(),
            r.wf(),
    {
        Amplitude { a: -self.d, b: self.a, c: self.b, d: self.c, k: self.k }
    }

    /// The amplitude times `e^{−iπ/4}`.
    pub fn times_omega_inv(&self) -> (r: Amplitude)
        requires
            self.wf(),
        ensures
            r@ == self@.times_omega_inv(),
            r.wf(),
    {
        Amplitude { a: self.b, b: self.c, c: self.d, d: -self.a, k: self.k }
    }

    /// The amplitude times `1/√2`; `None` exactly when the denominator's
    /// exponent would leave machine range.
    pub fn halve(&self) -> (r: Option<Amplitude>)
        requires
            self.wf(),
        ensures
            r is Some <==> self@.halve().fits(),
            r matches Some(x) ==> x@ == self@.halve() && x.wf(),
    {
        if self.is_divisible() {
            Some(self.divided())
        } else if self.k == u64::MAX {
            None
        } else {
            Some(Amplitude { a: self.a, b: self.b, c: self.c, d: self.d, k: self.k + 1 })
        }
    }

    /// The same number with `m` more factors of `√2` in the denominator,
    /// where each step stays within machine range.
    fn raised(&self, m: u64) -> (r: Option<Amplitude>)
        requires
            self@.fits(),
        ensures
            r is Some <==> self@.raise_fits(m as nat),
            r matches Some(x) ==> x@ == self@.raise(m as nat) && x@.fits(),
    {
        let mut cur = *self;
        let mut left: u64 = m;
        while left > 0
            invariant
                cur@.fits(),
                cur@.raise(left as nat) == self@.raise(m as nat),
                cur@.raise_fits(left as nat) == self@.raise_fits(m as nat),
            decreases left,
        {
            let a: i128 = cur.b as i128 - cur.d as i128;
            let b: i128 = cur.a as i128 + cur.c as i128;
            let c: i128 = cur.b as i128 + cur.d as i128;
            let d: i128 = cur.c as i128 - cur.a as i128;
            if cur.k == u64::MAX || !in_range(a) || !in_range(b) || !in_range(c) || !in_range(d) {
                return None;
            }
            cur = Amplitude { a: narrow(a), b: narrow(b), c: narrow(c), d: narrow(d), k: cur.k + 1 };
            left = left - 1;
        }
        Some(cur)
    }

    /// The sum of two amplitudes; `None` exactly when it cannot be formed
    /// within machine range.
    pub fn plus(&self, other: &Amplitude) -> (r: Option<Amplitude>)
        requires
            self.wf(),
            other.wf(),
        ensures
            r is Some <==> self@.plus_fits(other@),
            r matches Some(x) ==> x@ == self@.plus(other@) && x.wf(),
    {
        if self.is_zero() {
            return Some(*other);
        }
        if other.is_zero() {
            return Some(*self);
        }
        let k: u64 = if self.k >= other.k { self.k } else { other.k };
        let x = match self.raised(k - self.k) {
            Some(x) => x,
            None => { return None; },
        };
        let y = match other.raised(k - other.k) {
            Some(y) => y,
            None => { return None; },
        };
        let a: i128 = x.a as i128 + y.a as i128;
        let b: i128 = x.b as i128 + y.b as i128;
        let c: i128 = x.c as i128 + y.c as i128;
        let d: i128 = x.d as i128 + y.d as i128;
        if !in_range(a) || !in_range(b) || !in_range(c) || !in_range(d) {
            return None;
        }
        proof {
            lemma_raise_k(self@, (k - self.k) as nat);
            lemma_raise_k(other@, (k - other.k) as nat);
        }
        let sum = Amplitude { a: narrow(a), b: narrow(b), c: narrow(c), d: narrow(d), k };
        Some(Self::lowest_terms(sum))
    }
}

/// Whether a wide intermediate fits a coefficient.
fn in_range(x: i128) -> (r: bool)
    ensures
        r == Cyclo::coefficient_fits(x as int),
{
    -(i64::MAX as i128) <= x && x <= i64::MAX as i128
}

/// Zero over any denominator is zero in lowest terms.
pub proof fn lemma_normalize_zero(x: Cyclo)
    requires
        x.is_zero(),
    ensures
        x.normalize() == Cyclo::zero(),
    decreases x.k,
{
    if x.k > 0 {
        lemma_normalize_zero(x.over_sqrt2().with_k((x.k - 1) as nat));
    }
}

/// Raising by `m` adds `m` to the exponent.
pub proof fn lemma_raise_k(x: Cyclo, m: nat)
    ensures
        x.raise(m).k == x.k + m,
    decreases m,
{
    if m > 0 {
        lemma_raise_k(x.times_sqrt2().with_k(x.k + 1), (m - 1) as nat);
    }
}

/// A sum is in lowest terms and within machine range where it can be formed
/// from such numbers.
pub proof fn lemma_plus_reduced(x: Cyclo, y: Cyclo)
    requires
        x.fits(),
        x.reduced(),
        y.fits(),
        y.reduced(),
        x.plus_fits(y),
    ensures
        x.plus(y).reduced(),
        x.plus(y).fits(),
{
    if !x.is_zero() && !y.is_zero() {
        let k = x.common_k(y);
        lemma_normalize_reduced(x.raise((k - x.k) as nat).join(y.raise((k - y.k) as nat)));
    }
}

/// Bringing a number to lowest terms keeps it within machine range.
pub proof fn lemma_normalize_reduced(x: Cyclo)
    requires
        x.fits(),
    ensures
        x.normalize().reduced(),
        x.normalize().fits(),
    decreases x.k,
{
    if x.k > 0 && x.divisible() {
        lemma_normalize_reduced(x.over_sqrt2().with_k((x.k - 1) as nat));
    }
}

} // verus!
