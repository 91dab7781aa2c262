//! What a state holds after a gate, basis state by basis state: the sum of
//! all images that fall on it.

use crate::gates::gate::{
    all_controls_set, run, run_stages, stage, transform, transform_from, Gate,
};
use crate::laws::{law_norm_preserved_by_circuit, lemma_controls_untouched, reversible};
use crate::norm::{bounded, exponent_bound, lemma_total_same, total_weight};
use crate::quantum::algebra::{
    lemma_halve_lift, lemma_halve_plus, lemma_phase_plus, lemma_plus_associates,
    lemma_plus_commutes, lemma_plus_interchange, lemma_plus_lift, lemma_plus_zero,
    lemma_signed_lift, lemma_signed_plus,
};
use crate::quantum::amplitude::Cyclo;
use crate::quantum::ket::{flipped, KetView};
use crate::quantum::state::{
    absorb, absorb_all, amplitude_at, amplitudes, holds, lemma_absorb_amplitude,
    lemma_absorb_tidy, lemma_slot, slot, tidy, State,
};
use vstd::prelude::*;

verus! {

/// What a ket brings to a basis state: its amplitude where its bits are
/// those of the basis state, zero elsewhere.
pub open spec fn pick(ket: KetView, bits: Seq<bool>) -> Cyclo {
    if ket.bits == bits {
        ket.amplitude
    } else {
        Cyclo::zero()
    }
}

/// What the kets of a list from index `from` on bring to a basis state.
pub open spec fn sum_from(kets: Seq<KetView>, from: nat, bits: Seq<bool>) -> Cyclo
    decreases kets.len() - from,
{
    if from >= kets.len() {
        Cyclo::zero()
    } else {
        pick(kets[from as int], bits).plus(sum_from(kets, from + 1, bits))
    }
}

/// Every ket is `width` qubits wide, with an amplitude in lowest terms and
/// within machine range. The amplitude may be zero, and bits may repeat.
pub open spec fn usable(kets: Seq<KetView>, width: nat) -> bool {
    forall|i: int|
        0 <= i < kets.len() ==> (#[trigger] kets[i]).bits.len() == width
            && kets[i].amplitude.fits() && kets[i].amplitude.reduced()
}

/// What the images of the kets of a state from index `from` on bring to a
/// basis state.
pub open spec fn images_sum(gate: Gate, kets: Seq<KetView>, from: nat, bits: Seq<bool>) -> Cyclo
    decreases kets.len() - from,
{
    if from >= kets.len() {
        Cyclo::zero()
    } else {
        sum_from(gate.images(kets[from as int])->Some_0, 0, bits).plus(
            images_sum(gate, kets, from + 1, bits),
        )
    }
}

/// A sum of amplitudes in lowest terms is in lowest terms.
pub proof fn lemma_sum_reduced(kets: Seq<KetView>, width: nat, from: nat, bits: Seq<bool>)
    requires
        usable(kets, width),
    ensures
        sum_from(kets, from, bits).reduced(),
    decreases kets.len() - from,
{
    if from < kets.len() {
        lemma_sum_reduced(kets, width, from + 1, bits);
        let first = pick(kets[from as int], bits);
        let rest = sum_from(kets, from + 1, bits);
        lemma_plus_lift(first, rest, first.common_k(rest));
    }
}

/// Inserting the kets of a list adds, on each basis state, what they bring
/// to it.
pub proof fn lemma_absorb_all_amplitude(
    merged: Seq<KetView>,
    width: nat,
    incoming: Seq<KetView>,
    from: nat,
    bits: Seq<bool>,
)
    requires
        tidy(merged, width),
        usable(incoming, width),
        absorb_all(merged, width, incoming, from) is Ok,
    ensures
        tidy(absorb_all(merged, width, incoming, from)->Ok_0, width),
        amplitude_at(absorb_all(merged, width, incoming, from)->Ok_0, bits) == amplitude_at(
            merged,
            bits,
        ).plus(sum_from(incoming, from, bits)),
    decreases incoming.len() - from,
{
    let here = amplitude_at(merged, bits);
    if holds(merged, bits) {
        lemma_slot(merged, slot(merged, bits));
    }
    lemma_plus_zero(here);
    if from < incoming.len() {
        let ket = incoming[from as int];
        let next = absorb(merged, width, ket)->Ok_0;
        lemma_absorb_tidy(merged, width, ket);
        lemma_absorb_amplitude(merged, width, ket, bits);
        lemma_absorb_all_amplitude(next, width, incoming, from + 1, bits);
        lemma_sum_reduced(incoming, width, from + 1, bits);
        lemma_plus_associates(here, pick(ket, bits), sum_from(incoming, from + 1, bits));
    }
}

/// The images of a ket that a state could hold are kets of the same width,
/// with amplitudes in lowest terms and within machine range.
pub proof fn lemma_images_usable(gate: Gate, ket: KetView, width: nat)
    requires
        gate.in_range(width),
        usable(seq![ket], width),
        gate.images(ket) is Some,
    ensures
        usable(gate.images(ket)->Some_0, width),
    decreases gate, 0nat,
{
    assert(seq![ket][0] == ket);
    lemma_halve_lift(ket.amplitude, ket.amplitude.k);
    match gate {
        Gate::Composite { gates } => {
            lemma_run_stages_usable(gates@, 0, seq![ket], width);
        },
        _ => {},
    }
}

/// As `lemma_images_usable`, of one gate applied to each ket of a list.
pub proof fn lemma_stage_usable(gate: Gate, kets: Seq<KetView>, width: nat)
    requires
        gate.in_range(width),
        usable(kets, width),
        stage(gate, kets) is Some,
    ensures
        usable(stage(gate, kets)->Some_0, width),
    decreases gate, kets.len(),
{
    if kets.len() > 0 {
        assert(usable(seq![kets.last()], width));
        lemma_images_usable(gate, kets.last(), width);
        assert(usable(kets.drop_last(), width)) by {
            assert forall|i: int| 0 <= i < kets.drop_last().len() implies (
            #[trigger] kets.drop_last()[i]) == kets[i] by {}
        }
        lemma_stage_usable(gate, kets.drop_last(), width);
    }
}

/// As `lemma_images_usable`, of a list of gates applied in order.
pub proof fn lemma_run_stages_usable(gates: Seq<Gate>, from: nat, kets: Seq<KetView>, width: nat)
    requires
        forall|i: int| 0 <= i < gates.len() ==> (#[trigger] gates[i]).in_range(width),
        usable(kets, width),
        run_stages(gates, from, kets) is Some,
    ensures
        usable(run_stages(gates, from, kets)->Some_0, width),
    decreases gates, gates.len() - from,
{
    if from < gates.len() {
        lemma_stage_usable(gates[from as int], kets, width);
        lemma_run_stages_usable(gates, from + 1, stage(gates[from as int], kets)->Some_0, width);
    }
}

/// What a gate leaves on a basis state is what was there before plus what
/// the images of all kets bring to it.
pub proof fn lemma_transform_from_amplitude(
    gate: Gate,
    kets: Seq<KetView>,
    width: nat,
    from: nat,
    merged: Seq<KetView>,
    bits: Seq<bool>,
)
    requires
        gate.in_range(width),
        tidy(kets, width),
        tidy(merged, width),
        transform_from(gate, kets, width, from, merged) is Ok,
    ensures
        tidy(transform_from(gate, kets, width, from, merged)->Ok_0, width),
        amplitude_at(transform_from(gate, kets, width, from, merged)->Ok_0, bits) == amplitude_at(
            merged,
            bits,
        ).plus(images_sum(gate, kets, from, bits)),
    decreases kets.len() - from,
{
    let here = amplitude_at(merged, bits);
    if holds(merged, bits) {
        lemma_slot(merged, slot(merged, bits));
    }
    lemma_plus_zero(here);
    if from < kets.len() {
        let ket = kets[from as int];
        let produced = gate.images(ket)->Some_0;
        assert(usable(seq![ket], width));
        lemma_images_usable(gate, ket, width);
        let next = absorb_all(merged, width, produced, 0)->Ok_0;
        lemma_absorb_all_amplitude(merged, width, produced, 0, bits);
        lemma_transform_from_amplitude(gate, kets, width, from + 1, next, bits);
        lemma_sum_reduced(produced, width, 0, bits);
        lemma_transform_images(gate, kets, width, from + 1, next);
        lemma_images_sum_reduced(gate, kets, width, from + 1, bits);
        lemma_plus_associates(
            here,
            sum_from(produced, 0, bits),
            images_sum(gate, kets, from + 1, bits),
        );
    }
}

/// The sum of all images on a basis state is in lowest terms.
pub proof fn lemma_images_sum_reduced(
    gate: Gate,
    kets: Seq<KetView>,
    width: nat,
    from: nat,
    bits: Seq<bool>,
)
    requires
        gate.in_range(width),
        usable(kets, width),
        forall|i: int| from <= i < kets.len() ==> (#[trigger] gate.images(kets[i])) is Some,
    ensures
        images_sum(gate, kets, from, bits).reduced(),
    decreases kets.len() - from,
{
    if from < kets.len() {
        let ket = kets[from as int];
        assert(usable(seq![ket], width));
        lemma_images_usable(gate, ket, width);
        lemma_sum_reduced(gate.images(ket)->Some_0, width, 0, bits);
        lemma_images_sum_reduced(gate, kets, width, from + 1, bits);
        let first = sum_from(gate.images(ket)->Some_0, 0, bits);
        let rest = images_sum(gate, kets, from + 1, bits);
        lemma_plus_lift(first, rest, first.common_k(rest));
    }
}

/// Where a gate can be applied to a state, each ket has its images.
pub proof fn lemma_transform_images(
    gate: Gate,
    kets: Seq<KetView>,
    width: nat,
    from: nat,
    merged: Seq<KetView>,
)
    requires
        transform_from(gate, kets, width, from, merged) is Ok,
    ensures
        forall|i: int| from <= i < kets.len() ==> (#[trigger] gate.images(kets[i])) is Some,
    decreases kets.len() - from,
{
    if from < kets.len() {
        let next = absorb_all(merged, width, gate.images(kets[from as int])->Some_0, 0)->Ok_0;
        lemma_transform_images(gate, kets, width, from + 1, next);
    }
}

/// What a gate leaves on each basis state: the sum of what the images of
/// all kets bring to it.
pub proof fn lemma_transform_amplitude(gate: Gate, kets: Seq<KetView>, width: nat, bits: Seq<bool>)
    requires
        tidy(kets, width),
        transform(gate, kets, width) is Ok,
    ensures
        tidy(transform(gate, kets, width)->Ok_0, width),
        amplitude_at(transform(gate, kets, width)->Ok_0, bits) == images_sum(gate, kets, 0, bits),
{
    let start = Seq::<KetView>::empty();
    lemma_transform_images(gate, kets, width, 0, start);
    lemma_images_sum_reduced(gate, kets, width, 0, bits);
    lemma_transform_from_amplitude(gate, kets, width, 0, start, bits);
    lemma_plus_zero(images_sum(gate, kets, 0, bits));
}

/// In a joined list, the kets of the second bring what they bring alone.
proof fn lemma_sum_shift(x: Seq<KetView>, y: Seq<KetView>, from: nat, bits: Seq<bool>)
    ensures
        sum_from(x + y, x.len() + from, bits) == sum_from(y, from, bits),
    decreases y.len() - from,
{
    if from < y.len() {
        lemma_sum_shift(x, y, from + 1, bits);
        assert((x + y)[(x.len() + from) as int] == y[from as int]);
    }
}

/// `lemma_sum_concat` from index `from` of the first list on.
proof fn lemma_sum_concat_from(
    x: Seq<KetView>,
    y: Seq<KetView>,
    width: nat,
    from: nat,
    bits: Seq<bool>,
)
    requires
        usable(x, width),
        usable(y, width),
        from <= x.len(),
    ensures
        sum_from(x + y, from, bits) == sum_from(x, from, bits).plus(sum_from(y, 0, bits)),
    decreases x.len() - from,
{
    lemma_sum_reduced(y, width, 0, bits);
    lemma_plus_zero(sum_from(y, 0, bits));
    if from < x.len() {
        lemma_sum_concat_from(x, y, width, from + 1, bits);
        lemma_sum_reduced(x, width, from + 1, bits);
        assert((x + y)[from as int] == x[from as int]);
        lemma_plus_associates(
            pick(x[from as int], bits),
            sum_from(x, from + 1, bits),
            sum_from(y, 0, bits),
        );
    } else {
        lemma_sum_shift(x, y, 0, bits);
    }
}

/// What a joined list brings to a basis state is what its parts bring.
pub proof fn lemma_sum_concat(x: Seq<KetView>, y: Seq<KetView>, width: nat, bits: Seq<bool>)
    requires
        usable(x, width),
        usable(y, width),
    ensures
        usable(x + y, width),
        sum_from(x + y, 0, bits) == sum_from(x, 0, bits).plus(sum_from(y, 0, bits)),
{
    lemma_sum_concat_from(x, y, width, 0, bits);
    assert forall|i: int| 0 <= i < (x + y).len() implies (#[trigger] (x + y)[i]).bits.len() == width
        && (x + y)[i].amplitude.fits() && (x + y)[i].amplitude.reduced() by {
        if i < x.len() {
            assert((x + y)[i] == x[i]);
        } else {
            assert((x + y)[i] == y[i - x.len()]);
        }
    }
}

/// What the kets of a state from index `from` on bring to a basis state:
/// the amplitude stored for it, where it is stored there.
pub proof fn lemma_tidy_sum(kets: Seq<KetView>, width: nat, from: nat, bits: Seq<bool>)
    requires
        tidy(kets, width),
    ensures
        sum_from(kets, from, bits) == (if holds(kets, bits) && slot(kets, bits) >= from {
            amplitude_at(kets, bits)
        } else {
            Cyclo::zero()
        }),
    decreases kets.len() - from,
{
    if holds(kets, bits) {
        lemma_slot(kets, slot(kets, bits));
    }
    if from < kets.len() {
        lemma_tidy_sum(kets, width, from + 1, bits);
        lemma_slot(kets, from as int);
        lemma_plus_zero(kets[from as int].amplitude);
    }
}

/// One gate applied to a joined list: the images of the second part come
/// first.
pub proof fn lemma_stage_concat(gate: Gate, x: Seq<KetView>, y: Seq<KetView>)
    ensures
        stage(gate, x + y) is Some <==> stage(gate, x) is Some && stage(gate, y) is Some,
        stage(gate, x + y) is Some ==> stage(gate, x + y)->Some_0 == stage(gate, y)->Some_0
            + stage(gate, x)->Some_0,
    decreases y.len(),
{
    if y.len() == 0 {
        assert(x + y =~= x);
        assert(stage(gate, y)->Some_0 + stage(gate, x)->Some_0 =~= stage(gate, x)->Some_0);
    } else {
        assert((x + y).drop_last() =~= x + y.drop_last());
        assert((x + y).last() == y.last());
        lemma_stage_concat(gate, x, y.drop_last());
        if stage(gate, x + y) is Some {
            let first = gate.images(y.last())->Some_0;
            assert(first + (stage(gate, y.drop_last())->Some_0 + stage(gate, x)->Some_0) =~= (first
                + stage(gate, y.drop_last())->Some_0) + stage(gate, x)->Some_0);
        }
    }
}

/// The sum of all images, with the images of the last ket taken apart.
proof fn lemma_images_sum_peel(
    gate: Gate,
    kets: Seq<KetView>,
    width: nat,
    from: nat,
    bits: Seq<bool>,
)
    requires
        gate.in_range(width),
        usable(kets, width),
        from < kets.len(),
        forall|i: int| from <= i < kets.len() ==> (#[trigger] gate.images(kets[i])) is Some,
    ensures
        images_sum(gate, kets, from, bits) == images_sum(gate, kets.drop_last(), from, bits).plus(
            sum_from(gate.images(kets.last())->Some_0, 0, bits),
        ),
    decreases kets.len() - from,
{
    let front = kets.drop_last();
    let last = sum_from(gate.images(kets.last())->Some_0, 0, bits);
    assert(usable(seq![kets.last()], width));
    lemma_images_usable(gate, kets.last(), width);
    lemma_sum_reduced(gate.images(kets.last())->Some_0, width, 0, bits);
    lemma_plus_zero(last);
    if from + 1 < kets.len() {
        lemma_images_sum_peel(gate, kets, width, from + 1, bits);
        assert(front[from as int] == kets[from as int]);
        let first = sum_from(gate.images(kets[from as int])->Some_0, 0, bits);
        assert(usable(seq![kets[from as int]], width));
        lemma_images_usable(gate, kets[from as int], width);
        lemma_sum_reduced(gate.images(kets[from as int])->Some_0, width, 0, bits);
        assert(usable(front, width)) by {
            assert forall|i: int| 0 <= i < front.len() implies (#[trigger] front[i]) == kets[i] by {}
        }
        assert forall|i: int| from + 1 <= i < front.len() implies (#[trigger] gate.images(
            front[i],
        )) is Some by {
            assert(front[i] == kets[i]);
        }
        lemma_images_sum_reduced(gate, front, width, from + 1, bits);
        lemma_plus_associates(first, images_sum(gate, front, from + 1, bits), last);
    } else {
        assert(kets[from as int] == kets.last());
        assert(images_sum(gate, kets, from + 1, bits) == Cyclo::zero());
        assert(images_sum(gate, front, from, bits) == Cyclo::zero());
    }
}

/// What one gate applied to each ket of a list brings to a basis state is
/// the sum of what the images of each ket bring to it.
pub proof fn lemma_stage_sum(gate: Gate, kets: Seq<KetView>, width: nat, bits: Seq<bool>)
    requires
        gate.in_range(width),
        usable(kets, width),
        stage(gate, kets) is Some,
    ensures
        forall|i: int| 0 <= i < kets.len() ==> (#[trigger] gate.images(kets[i])) is Some,
        usable(stage(gate, kets)->Some_0, width),
        sum_from(stage(gate, kets)->Some_0, 0, bits) == images_sum(gate, kets, 0, bits),
    decreases kets.len(),
{
    lemma_stage_usable(gate, kets, width);
    if kets.len() > 0 {
        let front = kets.drop_last();
        assert(usable(front, width)) by {
            assert forall|i: int| 0 <= i < front.len() implies (#[trigger] front[i]) == kets[i] by {}
        }
        lemma_stage_sum(gate, front, width, bits);
        assert forall|i: int| 0 <= i < kets.len() implies (#[trigger] gate.images(
            kets[i],
        )) is Some by {
            if i < front.len() {
                assert(front[i] == kets[i]);
            }
        }
        let first = gate.images(kets.last())->Some_0;
        let rest = stage(gate, front)->Some_0;
        assert(usable(seq![kets.last()], width));
        lemma_images_usable(gate, kets.last(), width);
        lemma_sum_concat(first, rest, width, bits);
        lemma_images_sum_peel(gate, kets, width, 0, bits);
        lemma_sum_reduced(first, width, 0, bits);
        lemma_images_sum_reduced(gate, front, width, 0, bits);
        lemma_plus_commutes(sum_from(first, 0, bits), images_sum(gate, front, 0, bits));
    }
}

/// What a reversible plain gate makes of a superposition, basis state by
/// basis state: the amplitude that it leaves on `bits`, given the amplitude
/// of every basis state before.
pub open spec fn acts_on(gate: Gate, before: spec_fn(Seq<bool>) -> Cyclo, bits: Seq<bool>) -> Cyclo {
    match gate {
        Gate::H { target } => before(bits).halve().signed(bits[target as int]).plus(
            before(flipped(bits, target as int)).halve(),
        ),
        Gate::X { target } => before(flipped(bits, target as int)),
        Gate::T { target } => if bits[target as int] {
            before(bits).times_omega()
        } else {
            before(bits)
        },
        Gate::TDgr { target } => if bits[target as int] {
            before(bits).times_omega_inv()
        } else {
            before(bits)
        },
        Gate::CX { control, target } => if bits[control as int] {
            before(flipped(bits, target as int))
        } else {
            before(bits)
        },
        Gate::Toffoli { controls, target } => if all_controls_set(controls@, bits) {
            before(flipped(bits, target as int))
        } else {
            before(bits)
        },
        Gate::Composite { gates } => before(bits),
    }
}

/// What the images of the kets of a list bring to a basis state is what
/// `acts_on` makes of what the kets bring.
pub proof fn lemma_images_sum_acts(
    gate: Gate,
    kets: Seq<KetView>,
    width: nat,
    from: nat,
    bits: Seq<bool>,
)
    requires
        reversible(gate),
        gate.in_range(width),
        usable(kets, width),
        bits.len() == width,
        forall|i: int| from <= i < kets.len() ==> (#[trigger] gate.images(kets[i])) is Some,
    ensures
        images_sum(gate, kets, from, bits) == acts_on(
            gate,
            |x: Seq<bool>| sum_from(kets, from, x),
            bits,
        ),
    decreases kets.len() - from,
{
    if from < kets.len() {
        lemma_images_sum_acts(gate, kets, width, from + 1, bits);
        lemma_image_share(gate, kets[from as int], width, bits);
        let ket = kets[from as int];
        let rest = |x: Seq<bool>| sum_from(kets, from + 1, x);
        let one = |x: Seq<bool>| pick(ket, x);
        let both = |x: Seq<bool>| sum_from(kets, from, x);
        match gate {
            Gate::H { target } => {
                let other = flipped(bits, target as int);
                lemma_sum_reduced(kets, width, from + 1, bits);
                lemma_sum_reduced(kets, width, from + 1, other);
                let p = pick(ket, bits);
                let q = pick(ket, other);
                let s1 = rest(bits);
                let s2 = rest(other);
                lemma_halve_plus(p, s1);
                lemma_halve_plus(q, s2);
                lemma_halve_lift(p, p.k);
                lemma_halve_lift(q, q.k);
                lemma_halve_lift(s1, s1.k);
                lemma_halve_lift(s2, s2.k);
                lemma_signed_plus(p.halve(), s1.halve(), bits[target as int]);
                lemma_signed_lift(p.halve(), bits[target as int], p.halve().k);
                lemma_signed_lift(s1.halve(), bits[target as int], s1.halve().k);
                lemma_plus_interchange(
                    p.halve().signed(bits[target as int]),
                    q.halve(),
                    s1.halve().signed(bits[target as int]),
                    s2.halve(),
                );
            },
            Gate::X { target } => {},
            Gate::T { target } => {
                lemma_sum_reduced(kets, width, from + 1, bits);
                lemma_phase_plus(pick(ket, bits), rest(bits));
            },
            Gate::TDgr { target } => {
                lemma_sum_reduced(kets, width, from + 1, bits);
                lemma_phase_plus(pick(ket, bits), rest(bits));
            },
            _ => {},
        }
    }
}

/// What the images of one ket bring to a basis state is what `acts_on`
/// makes of what the ket brings.
pub proof fn lemma_image_share(gate: Gate, ket: KetView, width: nat, bits: Seq<bool>)
    requires
        reversible(gate),
        gate.in_range(width),
        usable(seq![ket], width),
        bits.len() == width,
        gate.images(ket) is Some,
    ensures
        sum_from(gate.images(ket)->Some_0, 0, bits) == acts_on(
            gate,
            |x: Seq<bool>| pick(ket, x),
            bits,
        ),
{
    assert(seq![ket][0] == ket);
    let produced = gate.images(ket)->Some_0;
    reveal_with_fuel(sum_from, 3);
    lemma_halve_lift(ket.amplitude, ket.amplitude.k);
    match gate {
        Gate::H { target } => {
            let t = target as int;
            assert(flipped(flipped(bits, t), t) =~= bits);
            assert(flipped(flipped(ket.bits, t), t) =~= ket.bits);
            lemma_signed_lift(ket.amplitude.halve(), ket.bits[t], ket.amplitude.halve().k);
        },
        Gate::X { target } => {
            let t = target as int;
            assert(flipped(flipped(bits, t), t) =~= bits);
            assert(flipped(flipped(ket.bits, t), t) =~= ket.bits);
        },
        Gate::CX { control, target } => {
            let t = target as int;
            assert(flipped(flipped(bits, t), t) =~= bits);
            assert(flipped(flipped(ket.bits, t), t) =~= ket.bits);
        },
        Gate::Toffoli { controls, target } => {
            let t = target as int;
            assert(flipped(flipped(bits, t), t) =~= bits);
            assert(flipped(flipped(ket.bits, t), t) =~= ket.bits);
            lemma_controls_untouched(controls@, bits, target);
            lemma_controls_untouched(controls@, ket.bits, target);
        },
        _ => {},
    }
}

/// States that give every basis state the same amplitude are the same
/// superposition.
pub proof fn lemma_same_amplitudes(x: Seq<KetView>, y: Seq<KetView>, width: nat)
    requires
        tidy(x, width),
        tidy(y, width),
        forall|bits: Seq<bool>|
            bits.len() == width ==> #[trigger] amplitude_at(x, bits) == amplitude_at(y, bits),
    ensures
        amplitudes(x) == amplitudes(y),
{
    assert forall|bits: Seq<bool>| holds(x, bits) == holds(y, bits) by {
        if holds(x, bits) {
            lemma_slot(x, slot(x, bits));
            assert(amplitude_at(x, bits) == amplitude_at(y, bits));
        }
        if holds(y, bits) {
            lemma_slot(y, slot(y, bits));
            assert(amplitude_at(x, bits) == amplitude_at(y, bits));
        }
    }
    assert forall|bits: Seq<bool>| holds(x, bits) implies amplitudes(x)[bits] == amplitudes(
        y,
    )[bits] by {
        lemma_slot(x, slot(x, bits));
        assert(amplitude_at(x, bits) == amplitude_at(y, bits));
    }
    assert(amplitudes(x) =~= amplitudes(y));
}

/// What a reversible plain gate leaves on each basis state, given what the
/// state held on every basis state before: see [`acts_on`].
pub proof fn law_gate_action(state: State, gate: Gate, bits: Seq<bool>)
    requires
        state.wf(),
        reversible(gate),
        bits.len() == state.num_qubits,
    ensures
        transform(gate, state.listing(), state.num_qubits as nat) matches Ok(next) ==> tidy(
            next,
            state.num_qubits as nat,
        ) && amplitude_at(next, bits) == acts_on(
            gate,
            |x: Seq<bool>| amplitude_at(state.listing(), x),
            bits,
        ),
{
    let kets = state.listing();
    let width = state.num_qubits as nat;
    if transform(gate, kets, width) is Ok {
        lemma_plain_action(gate, kets, width, bits);
    }
}

/// `law_gate_action` of the kets of a state.
proof fn lemma_plain_action(gate: Gate, kets: Seq<KetView>, width: nat, bits: Seq<bool>)
    requires
        tidy(kets, width),
        reversible(gate),
        bits.len() == width,
        transform(gate, kets, width) is Ok,
    ensures
        tidy(transform(gate, kets, width)->Ok_0, width),
        amplitude_at(transform(gate, kets, width)->Ok_0, bits) == acts_on(
            gate,
            |x: Seq<bool>| sum_from(kets, 0, x),
            bits,
        ),
        acts_on(gate, |x: Seq<bool>| sum_from(kets, 0, x), bits) == acts_on(
            gate,
            |x: Seq<bool>| amplitude_at(kets, x),
            bits,
        ),
{
    lemma_transform_amplitude(gate, kets, width, bits);
    lemma_transform_images(gate, kets, width, 0, Seq::empty());
    lemma_images_sum_acts(gate, kets, width, 0, bits);
    lemma_tidy_sum(kets, width, 0, bits);
    match gate {
        Gate::H { target } => {
            lemma_tidy_sum(kets, width, 0, flipped(bits, target as int));
        },
        Gate::X { target } => {
            lemma_tidy_sum(kets, width, 0, flipped(bits, target as int));
        },
        Gate::CX { control, target } => {
            lemma_tidy_sum(kets, width, 0, flipped(bits, target as int));
        },
        Gate::Toffoli { controls, target } => {
            lemma_tidy_sum(kets, width, 0, flipped(bits, target as int));
        },
        _ => {},
    }
}

/// A list of gates applied to no kets gives no kets.
proof fn lemma_run_stages_empty(gates: Seq<Gate>, from: nat)
    ensures
        run_stages(gates, from, Seq::empty()) == Some(Seq::<KetView>::empty()),
    decreases gates.len() - from,
{
    if from < gates.len() {
        lemma_run_stages_empty(gates, from + 1);
        assert(stage(gates[from as int], Seq::<KetView>::empty()) == Some(
            Seq::<KetView>::empty(),
        ));
    }
}

/// A list of gates applied to a joined list brings to a basis state what it
/// brings when applied to the parts.
proof fn lemma_run_stages_concat(
    gates: Seq<Gate>,
    from: nat,
    x: Seq<KetView>,
    y: Seq<KetView>,
    width: nat,
    bits: Seq<bool>,
)
    requires
        forall|i: int| 0 <= i < gates.len() ==> (#[trigger] gates[i]).in_range(width),
        usable(x, width),
        usable(y, width),
        run_stages(gates, from, x) is Some,
        run_stages(gates, from, y) is Some,
    ensures
        run_stages(gates, from, x + y) is Some,
        sum_from(run_stages(gates, from, x + y)->Some_0, 0, bits) == sum_from(
            run_stages(gates, from, x)->Some_0,
            0,
            bits,
        ).plus(sum_from(run_stages(gates, from, y)->Some_0, 0, bits)),
    decreases gates.len() - from,
{
    if from < gates.len() {
        let gate = gates[from as int];
        lemma_stage_concat(gate, x, y);
        let mx = stage(gate, x)->Some_0;
        let my = stage(gate, y)->Some_0;
        lemma_stage_usable(gate, x, width);
        lemma_stage_usable(gate, y, width);
        lemma_run_stages_concat(gates, from + 1, my, mx, width, bits);
        lemma_run_stages_usable(gates, from + 1, mx, width);
        lemma_run_stages_usable(gates, from + 1, my, width);
        lemma_sum_reduced(run_stages(gates, from + 1, mx)->Some_0, width, 0, bits);
        lemma_sum_reduced(run_stages(gates, from + 1, my)->Some_0, width, 0, bits);
        lemma_plus_commutes(
            sum_from(run_stages(gates, from + 1, my)->Some_0, 0, bits),
            sum_from(run_stages(gates, from + 1, mx)->Some_0, 0, bits),
        );
    } else {
        lemma_sum_concat(x, y, width, bits);
    }
}

/// What the images of all kets under a composite gate bring to a basis
/// state is what its gates bring when applied in order to the whole list.
proof fn lemma_composite_sum(
    gate: Gate,
    kets: Seq<KetView>,
    width: nat,
    from: nat,
    bits: Seq<bool>,
)
    requires
        gate is Composite,
        gate.in_range(width),
        usable(kets, width),
        from <= kets.len(),
        forall|i: int| from <= i < kets.len() ==> (#[trigger] gate.images(kets[i])) is Some,
    ensures
        run_stages(gate->gates@, 0, kets.skip(from as int)) is Some,
        sum_from(run_stages(gate->gates@, 0, kets.skip(from as int))->Some_0, 0, bits)
            == images_sum(gate, kets, from, bits),
    decreases kets.len() - from,
{
    let gates = gate->gates@;
    if from < kets.len() {
        let ket = kets[from as int];
        let tail = kets.skip((from + 1) as int);
        lemma_composite_sum(gate, kets, width, from + 1, bits);
        assert(kets.skip(from as int) =~= seq![ket] + tail);
        assert(gate.images(ket) is Some);
        assert(usable(seq![ket], width));
        assert(usable(tail, width)) by {
            assert forall|i: int| 0 <= i < tail.len() implies (#[trigger] tail[i]) == kets[from + 1
                + i] by {}
        }
        lemma_run_stages_concat(gates, 0, seq![ket], tail, width, bits);
    } else {
        assert(kets.skip(from as int) =~= Seq::<KetView>::empty());
        lemma_run_stages_empty(gates, 0);
    }
}

/// Applying gates one after another to a state, and applying them in order
/// to a list of kets that brings to each basis state what the state holds
/// there, end with the same amplitude on each basis state.
proof fn lemma_inline_from(
    gates: Seq<Gate>,
    from: nat,
    current: Seq<KetView>,
    shadow: Seq<KetView>,
    width: nat,
)
    requires
        forall|i: int|
            0 <= i < gates.len() ==> reversible(#[trigger] gates[i]) && gates[i].in_range(width),
        tidy(current, width),
        usable(shadow, width),
        forall|bits: Seq<bool>|
            bits.len() == width ==> #[trigger] amplitude_at(current, bits) == sum_from(
                shadow,
                0,
                bits,
            ),
        run(gates, from, current, width) is Ok,
        run_stages(gates, from, shadow) is Some,
    ensures
        tidy(run(gates, from, current, width)->Ok_0, width),
        forall|bits: Seq<bool>|
            bits.len() == width ==> #[trigger] amplitude_at(
                run(gates, from, current, width)->Ok_0,
                bits,
            ) == sum_from(run_stages(gates, from, shadow)->Some_0, 0, bits),
    decreases gates.len() - from,
{
    if from < gates.len() {
        let gate = gates[from as int];
        let next = transform(gate, current, width)->Ok_0;
        let moved = stage(gate, shadow)->Some_0;
        lemma_stage_usable(gate, shadow, width);
        assert forall|bits: Seq<bool>| bits.len() == width implies #[trigger] amplitude_at(
            next,
            bits,
        ) == sum_from(moved, 0, bits) by {
            lemma_plain_action(gate, current, width, bits);
            lemma_stage_sum(gate, shadow, width, bits);
            lemma_images_sum_acts(gate, shadow, width, 0, bits);
            assert(amplitude_at(current, bits) == sum_from(shadow, 0, bits));
            match gate {
                Gate::H { target } => {
                    let other = flipped(bits, target as int);
                    assert(amplitude_at(current, other) == sum_from(shadow, 0, other));
                },
                Gate::X { target } => {
                    let other = flipped(bits, target as int);
                    assert(amplitude_at(current, other) == sum_from(shadow, 0, other));
                },
                Gate::CX { control, target } => {
                    let other = flipped(bits, target as int);
                    assert(amplitude_at(current, other) == sum_from(shadow, 0, other));
                },
                Gate::Toffoli { controls, target } => {
                    let other = flipped(bits, target as int);
                    assert(amplitude_at(current, other) == sum_from(shadow, 0, other));
                },
                _ => {},
            }
        }
        lemma_transform_amplitude(gate, current, width, Seq::empty());
        lemma_inline_from(gates, from + 1, next, moved, width);
    }
}

/// A composite of reversible plain gates does to a state what its gates do
/// when applied one after another: where both can be applied, they leave the
/// same amplitude on every basis state.
pub proof fn law_composite_inlines(state: State, gate: Gate)
    requires
        state.wf(),
        gate is Composite,
        forall|i: int| 0 <= i < gate->gates@.len() ==> reversible(#[trigger] gate->gates@[i]),
    ensures
        transform(gate, state.listing(), state.num_qubits as nat) matches Ok(together) ==> (run(
            gate->gates@,
            0,
            state.listing(),
            state.num_qubits as nat,
        ) matches Ok(in_turn) ==> tidy(together, state.num_qubits as nat) && tidy(
            in_turn,
            state.num_qubits as nat,
        ) && amplitudes(together) == amplitudes(in_turn)),
{
    let kets = state.listing();
    let width = state.num_qubits as nat;
    let gates = gate->gates@;
    if transform(gate, kets, width) is Ok && run(gates, 0, kets, width) is Ok {
        let together = transform(gate, kets, width)->Ok_0;
        let in_turn = run(gates, 0, kets, width)->Ok_0;
        lemma_transform_images(gate, kets, width, 0, Seq::empty());
        lemma_transform_amplitude(gate, kets, width, Seq::empty());
        assert(kets.skip(0) =~= kets);
        lemma_composite_sum(gate, kets, width, 0, Seq::empty());
        assert forall|bits: Seq<bool>| bits.len() == width implies #[trigger] amplitude_at(
            kets,
            bits,
        ) == sum_from(kets, 0, bits) by {
            lemma_tidy_sum(kets, width, 0, bits);
        }
        lemma_inline_from(gates, 0, kets, kets, width);
        assert forall|bits: Seq<bool>| bits.len() == width implies #[trigger] amplitude_at(
            together,
            bits,
        ) == amplitude_at(in_turn, bits) by {
            lemma_transform_amplitude(gate, kets, width, bits);
            lemma_composite_sum(gate, kets, width, 0, bits);
        }
        lemma_same_amplitudes(together, in_turn, width);
    }
}

/// A composite of reversible plain gates keeps the sum of the squared
/// magnitudes of a state's amplitudes. This is said of the case in which
/// its gates can also be applied one after another. The sum is taken over
/// the common denominator `2^(m + n)`, where `m` is the largest exponent
/// among the state's amplitudes and `n` the number of gates.
pub proof fn law_norm_preserved_by_composite(state: State, gate: Gate)
    requires
        state.wf(),
        gate is Composite,
        forall|i: int| 0 <= i < gate->gates@.len() ==> reversible(#[trigger] gate->gates@[i]),
    ensures
        transform(gate, state.listing(), state.num_qubits as nat) matches Ok(next) ==> (run(
            gate->gates@,
            0,
            state.listing(),
            state.num_qubits as nat,
        ) is Ok ==> {
            &&& tidy(next, state.num_qubits as nat)
            &&& bounded(next, exponent_bound(state.listing()) + gate->gates@.len())
            &&& total_weight(next, exponent_bound(state.listing()) + gate->gates@.len())
                == total_weight(
                state.listing(),
                exponent_bound(state.listing()) + gate->gates@.len(),
            )
        }),
{
    let kets = state.listing();
    let width = state.num_qubits as nat;
    let gates = gate->gates@;
    if transform(gate, kets, width) is Ok && run(gates, 0, kets, width) is Ok {
        law_composite_inlines(state, gate);
        law_norm_preserved_by_circuit(state, gates);
        lemma_total_same(
            transform(gate, kets, width)->Ok_0,
            run(gates, 0, kets, width)->Ok_0,
            width,
            exponent_bound(kets) + gates.len(),
        );
    }
}

} // verus!
