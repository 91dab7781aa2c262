//! The squared magnitudes of a state's amplitudes, and what inserting a ket
//! does to their sum.
//!
//! Amplitudes have different denominators, so a sum of squared magnitudes is
//! taken over a common one: for an exponent `to` that bounds those of all
//! kets, `total_weight` is the sum of the squared magnitudes times `2^to`.

use crate::quantum::algebra::{lemma_plus_lift, lemma_raise_zero, lemma_weight_doubles, Weight};
use crate::quantum::ket::KetView;
use crate::quantum::state::{
    absorb, amplitude_at, amplitudes, holds, lemma_remove, lemma_slot, slot, tidy,
};
use vstd::prelude::*;

verus! {

/// Whether `to` bounds the exponent of every amplitude.
pub open spec fn bounded(kets: Seq<KetView>, to: nat) -> bool {
    forall|i: int| 0 <= i < kets.len() ==> (#[trigger] kets[i]).amplitude.k <= to
}

/// The weights of the first `n` kets, added up.
pub open spec fn prefix_weight(kets: Seq<KetView>, n: nat, to: nat) -> Weight
    decreases n,
{
    if n == 0 {
        Weight::zero()
    } else {
        prefix_weight(kets, (n - 1) as nat, to).plus(kets[n - 1].amplitude.weight_at(to))
    }
}

/// The sum of the squared magnitudes of all amplitudes, times `2^to`.
pub open spec fn total_weight(kets: Seq<KetView>, to: nat) -> Weight {
    prefix_weight(kets, kets.len(), to)
}

/// An exponent that bounds those of all amplitudes of a list.
pub open spec fn exponent_bound(kets: Seq<KetView>) -> nat
    decreases kets.len(),
{
    if kets.len() == 0 {
        0
    } else {
        let rest = exponent_bound(kets.drop_last());
        if kets.last().amplitude.k > rest {
            kets.last().amplitude.k
        } else {
            rest
        }
    }
}

/// `exponent_bound` bounds the exponents.
pub proof fn lemma_exponent_bound(kets: Seq<KetView>)
    ensures
        bounded(kets, exponent_bound(kets)),
    decreases kets.len(),
{
    if kets.len() > 0 {
        lemma_exponent_bound(kets.drop_last());
        assert forall|i: int| 0 <= i < kets.len() implies (#[trigger] kets[i]).amplitude.k
            <= exponent_bound(kets) by {
            if i < kets.len() - 1 {
                assert(kets.drop_last()[i] == kets[i]);
            }
        }
    }
}

/// Lists that agree on their first `n` kets agree on the weight of these.
proof fn lemma_prefix_same(x: Seq<KetView>, y: Seq<KetView>, n: nat, to: nat)
    requires
        n <= x.len(),
        n <= y.len(),
        forall|i: int| 0 <= i < n ==> x[i] == y[i],
    ensures
        prefix_weight(x, n, to) == prefix_weight(y, n, to),
    decreases n,
{
    if n > 0 {
        lemma_prefix_same(x, y, (n - 1) as nat, to);
    }
}

/// Appending a ket adds its weight.
pub proof fn lemma_total_push(kets: Seq<KetView>, ket: KetView, to: nat)
    ensures
        total_weight(kets.push(ket), to) == total_weight(kets, to).plus(ket.amplitude.weight_at(to)),
{
    lemma_prefix_same(kets.push(ket), kets, kets.len(), to);
}

/// `lemma_total_update` for the first `n` kets.
proof fn lemma_prefix_update(kets: Seq<KetView>, j: int, ket: KetView, n: nat, to: nat)
    requires
        0 <= j < kets.len(),
        n <= kets.len(),
    ensures
        n <= j ==> prefix_weight(kets.update(j, ket), n, to) == prefix_weight(kets, n, to),
        n > j ==> prefix_weight(kets.update(j, ket), n, to).plus(kets[j].amplitude.weight_at(to))
            == prefix_weight(kets, n, to).plus(ket.amplitude.weight_at(to)),
    decreases n,
{
    if n > 0 {
        lemma_prefix_update(kets, j, ket, (n - 1) as nat, to);
    }
}

/// Replacing a ket replaces its weight.
pub proof fn lemma_total_update(kets: Seq<KetView>, j: int, ket: KetView, to: nat)
    requires
        0 <= j < kets.len(),
    ensures
        total_weight(kets.update(j, ket), to).plus(kets[j].amplitude.weight_at(to)) == total_weight(
            kets,
            to,
        ).plus(ket.amplitude.weight_at(to)),
{
    lemma_prefix_update(kets, j, ket, kets.len(), to);
}

/// `lemma_total_remove` for the first `n` kets.
proof fn lemma_prefix_remove(kets: Seq<KetView>, j: int, n: nat, to: nat)
    requires
        0 <= j < kets.len(),
        n < kets.len(),
    ensures
        n <= j ==> prefix_weight(kets.remove(j), n, to) == prefix_weight(kets, n, to),
        n > j ==> prefix_weight(kets.remove(j), n, to).plus(kets[j].amplitude.weight_at(to))
            == prefix_weight(kets, n + 1, to),
    decreases n,
{
    if n > 0 {
        lemma_prefix_remove(kets, j, (n - 1) as nat, to);
        assert(prefix_weight(kets, n + 1, to) == prefix_weight(kets, n, to).plus(
            kets[n as int].amplitude.weight_at(to),
        ));
        assert(prefix_weight(kets, n, to) == prefix_weight(kets, (n - 1) as nat, to).plus(
            kets[n - 1].amplitude.weight_at(to),
        ));
        if n - 1 == j {
            assert(kets.remove(j)[n - 1] == kets[n as int]);
        } else if n - 1 > j {
            assert(kets.remove(j)[n - 1] == kets[n as int]);
        } else {
            assert(kets.remove(j)[n - 1] == kets[n - 1]);
        }
    }
}

/// Taking a ket out takes its weight out.
pub proof fn lemma_total_remove(kets: Seq<KetView>, j: int, to: nat)
    requires
        0 <= j < kets.len(),
    ensures
        total_weight(kets.remove(j), to).plus(kets[j].amplitude.weight_at(to)) == total_weight(
            kets,
            to,
        ),
{
    lemma_prefix_remove(kets, j, (kets.len() - 1) as nat, to);
    if j == kets.len() - 1 {
        assert(prefix_weight(kets, kets.len(), to) == prefix_weight(
            kets,
            (kets.len() - 1) as nat,
            to,
        ).plus(kets[kets.len() - 1].amplitude.weight_at(to)));
    }
}

/// Inserting a ket changes the total weight by what it changes the weight
/// of its own basis state.
pub proof fn lemma_absorb_weight(kets: Seq<KetView>, width: nat, ket: KetView, to: nat)
    requires
        tidy(kets, width),
        ket.amplitude.fits(),
        ket.amplitude.reduced(),
        ket.amplitude.k <= to,
        bounded(kets, to),
        absorb(kets, width, ket) is Ok,
    ensures
        bounded(absorb(kets, width, ket)->Ok_0, to),
        total_weight(absorb(kets, width, ket)->Ok_0, to).plus(
            amplitude_at(kets, ket.bits).weight_at(to),
        ) == total_weight(kets, to).plus(
            amplitude_at(kets, ket.bits).plus(ket.amplitude).weight_at(to),
        ),
{
    let out = absorb(kets, width, ket)->Ok_0;
    let before = amplitude_at(kets, ket.bits);
    if ket.amplitude.is_zero() {
        lemma_raise_zero(ket.amplitude, (to - ket.amplitude.k) as nat);
    }
    if before.is_zero() {
        lemma_raise_zero(before, (to - before.k) as nat);
    }
    if holds(kets, ket.bits) {
        let i = slot(kets, ket.bits);
        lemma_slot(kets, i);
        lemma_plus_lift(before, ket.amplitude, to);
        let sum = before.plus(ket.amplitude);
        if sum.is_zero() {
            lemma_raise_zero(sum, (to - sum.k) as nat);
        }
        if !ket.amplitude.is_zero() {
            if sum.is_zero() {
                lemma_total_remove(kets, i, to);
                assert forall|a: int| 0 <= a < out.len() implies (#[trigger] out[a]).amplitude.k
                    <= to by {
                    let a0 = if a < i { a } else { a + 1 };
                    assert(out[a] == kets[a0]);
                }
            } else {
                lemma_total_update(kets, i, KetView { bits: ket.bits, amplitude: sum }, to);
            }
        }
    } else if !ket.amplitude.is_zero() {
        lemma_total_push(kets, ket, to);
    }
}

/// `lemma_total_doubles` for the first `n` kets.
proof fn lemma_prefix_doubles(kets: Seq<KetView>, n: nat, to: nat)
    requires
        bounded(kets, to),
        n <= kets.len(),
    ensures
        prefix_weight(kets, n, to + 1) == prefix_weight(kets, n, to).plus(
            prefix_weight(kets, n, to),
        ),
    decreases n,
{
    if n > 0 {
        lemma_prefix_doubles(kets, (n - 1) as nat, to);
        lemma_weight_doubles(kets[n - 1].amplitude, to);
    }
}

/// One more factor of 2 in the common denominator doubles the total weight.
pub proof fn lemma_total_doubles(kets: Seq<KetView>, to: nat)
    requires
        bounded(kets, to),
    ensures
        total_weight(kets, to + 1) == total_weight(kets, to).plus(total_weight(kets, to)),
{
    lemma_prefix_doubles(kets, kets.len(), to);
}

/// Lists with the same total weight over one common denominator have the
/// same over every larger one.
pub proof fn lemma_total_scales(x: Seq<KetView>, y: Seq<KetView>, to: nat, more: nat)
    requires
        bounded(x, to),
        bounded(y, to),
        total_weight(x, to) == total_weight(y, to),
    ensures
        bounded(x, to + more),
        bounded(y, to + more),
        total_weight(x, to + more) == total_weight(y, to + more),
    decreases more,
{
    if more > 0 {
        lemma_total_doubles(x, to);
        lemma_total_doubles(y, to);
        lemma_total_scales(x, y, to + 1, (more - 1) as nat);
    }
}

/// States that are the same superposition have the same total weight,
/// in whatever order they store their kets.
pub proof fn lemma_total_same(x: Seq<KetView>, y: Seq<KetView>, width: nat, to: nat)
    requires
        tidy(x, width),
        tidy(y, width),
        amplitudes(x) == amplitudes(y),
        bounded(y, to),
    ensures
        bounded(x, to),
        total_weight(x, to) == total_weight(y, to),
    decreases x.len(),
{
    assert forall|i: int| 0 <= i < x.len() implies holds(y, (#[trigger] x[i]).bits) && y[slot(
        y,
        x[i].bits,
    )] == x[i] by {
        let bits = x[i].bits;
        lemma_slot(x, i);
        assert(amplitudes(x).dom().contains(bits));
        assert(amplitudes(y).dom().contains(bits));
        assert(holds(y, bits));
        let j = slot(y, bits);
        assert(y[j].bits == bits);
        assert(amplitudes(x)[bits] == x[i].amplitude);
        assert(amplitudes(y)[bits] == y[j].amplitude);
    }
    if x.len() == 0 {
        if y.len() > 0 {
            lemma_slot(y, 0);
            assert(amplitudes(y).dom().contains(y[0].bits));
            assert(amplitudes(x).dom().contains(y[0].bits));
        }
    } else {
        let i = x.len() - 1;
        let j = slot(y, x[i].bits);
        assert(y[j] == x[i]);
        lemma_remove(x, i);
        lemma_remove(y, j);
        assert forall|a: int| 0 <= a < y.remove(j).len() implies (#[trigger] y.remove(
            j,
        )[a]).amplitude.k <= to by {
            let a0 = if a < j { a } else { a + 1 };
            assert(y.remove(j)[a] == y[a0]);
        }
        lemma_total_same(x.remove(i), y.remove(j), width, to);
        lemma_total_remove(x, i, to);
        lemma_total_remove(y, j, to);
    }
}

} // verus!
