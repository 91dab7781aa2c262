//! What holds of the engine for every state.

use crate::error::SimError;
use crate::gates::gate::{all_controls_set, run, transform, transform_from, Gate};
use crate::quantum::ket::{flipped, KetView};
use crate::norm::{
    bounded, exponent_bound, lemma_absorb_weight, lemma_exponent_bound, lemma_total_scales,
    prefix_weight, total_weight,
};
use crate::quantum::algebra::{
    lemma_hadamard_twice, lemma_hadamard_weights, lemma_halve_lift, lemma_phase_weight,
    lemma_plus_commutes, lemma_signed_lift,
};
use crate::quantum::amplitude::Cyclo;
use crate::quantum::state::{
    absorb, absorb_all, amplitude_at, amplitudes, holds, lemma_absorb_amplitude,
    lemma_absorb_tidy, lemma_slot, slot, tidy, State,
};
use vstd::prelude::*;

verus! {

/// What a state asks of each of its kets.
pub open spec fn sound(ket: KetView, width: nat) -> bool {
    &&& ket.bits.len() == width
    &&& ket.amplitude.fits()
    &&& ket.amplitude.reduced()
    &&& !ket.amplitude.is_zero()
}

/// The first image of a ket.
pub open spec fn image(gate: Gate, ket: KetView) -> KetView {
    gate.images(ket)->Some_0[0]
}

/// The first image of each ket of a list.
pub open spec fn image_list(gate: Gate, kets: Seq<KetView>) -> Seq<KetView> {
    Seq::new(kets.len(), |i: int| image(gate, kets[i]))
}

/// Whether a gate only renames basis states: each ket has one image, which
/// a state can hold, and kets with different bits have images with
/// different bits.
pub open spec fn relabels(gate: Gate, width: nat) -> bool {
    &&& gate.in_range(width)
    &&& forall|ket: KetView|
        sound(ket, width) ==> #[trigger] gate.images(ket) == Some(seq![image(gate, ket)]) && sound(
            image(gate, ket),
            width,
        )
    &&& forall|x: KetView, y: KetView|
        sound(x, width) && sound(y, width) && x.bits != y.bits ==> (#[trigger] image(gate, x)).bits
            != (#[trigger] image(gate, y)).bits
}

/// `lemma_relabel` from index `from` on, the kets before it already mapped.
proof fn lemma_relabel_from(gate: Gate, kets: Seq<KetView>, width: nat, from: nat)
    requires
        relabels(gate, width),
        tidy(kets, width),
        from <= kets.len(),
    ensures
        transform_from(gate, kets, width, from, image_list(gate, kets.take(from as int))) == Ok::<
            Seq<KetView>,
            SimError,
        >(image_list(gate, kets)),
    decreases kets.len() - from,
{
    let merged = image_list(gate, kets.take(from as int));
    if from < kets.len() {
        let ket = kets[from as int];
        let img = image(gate, ket);
        assert(sound(ket, width));
        assert(gate.images(ket) == Some(seq![img]));
        assert forall|j: int| 0 <= j < merged.len() implies (#[trigger] merged[j]).bits
            != img.bits by {
            assert(sound(kets[j], width));
            assert(kets[j].bits != ket.bits);
            assert(merged[j] == image(gate, kets[j]));
        }
        assert(!holds(merged, img.bits));
        assert(absorb(merged, width, img) == Ok::<Seq<KetView>, SimError>(merged.push(img)));
        reveal_with_fuel(absorb_all, 3);
        assert(absorb_all(merged, width, seq![img], 0) == Ok::<Seq<KetView>, SimError>(
            merged.push(img),
        ));
        assert(merged.push(img) =~= image_list(gate, kets.take((from + 1) as int)));
        lemma_relabel_from(gate, kets, width, from + 1);
    } else {
        assert(kets.take(from as int) =~= kets);
    }
}

/// A gate that only renames basis states maps the kets of a state one by
/// one, in their order, and nothing merges.
pub proof fn lemma_relabel(gate: Gate, kets: Seq<KetView>, width: nat)
    requires
        relabels(gate, width),
        tidy(kets, width),
    ensures
        transform(gate, kets, width) == Ok::<Seq<KetView>, SimError>(image_list(gate, kets)),
        tidy(image_list(gate, kets), width),
{
    assert(image_list(gate, kets.take(0)) =~= Seq::<KetView>::empty());
    lemma_relabel_from(gate, kets, width, 0);
    let out = image_list(gate, kets);
    assert forall|i: int, j: int| 0 <= i < j < out.len() implies (#[trigger] out[i]).bits != (
    #[trigger] out[j]).bits by {
        assert(sound(kets[i], width) && sound(kets[j], width));
        assert(kets[i].bits != kets[j].bits);
    }
    assert forall|i: int| 0 <= i < out.len() implies sound(#[trigger] out[i], width) by {
        assert(sound(kets[i], width));
        assert(gate.images(kets[i]) == Some(seq![image(gate, kets[i])]));
    }
}

/// X, T and T† only rename basis states or turn their phase.
pub proof fn lemma_phase_and_flip_relabel(width: nat, target: usize)
    requires
        target < width,
    ensures
        relabels(Gate::X { target }, width),
        relabels(Gate::T { target }, width),
        relabels(Gate::TDgr { target }, width),
{
    let x = Gate::X { target };
    assert forall|a: KetView, b: KetView|
        sound(a, width) && sound(b, width) && a.bits != b.bits implies (#[trigger] image(x, a)).bits
        != (#[trigger] image(x, b)).bits by {
        if image(x, a).bits == image(x, b).bits {
            assert(flipped(flipped(a.bits, target as int), target as int) =~= a.bits);
            assert(flipped(flipped(b.bits, target as int), target as int) =~= b.bits);
        }
    }
}

/// Applying X to the same qubit twice gives back the state, ket by ket.
/// Where the state has no such qubit, the first application already fails.
pub proof fn law_x_involution(state: State, target: usize)
    requires
        state.wf(),
    ensures
        match transform(Gate::X { target }, state.listing(), state.num_qubits as nat) {
            Ok(once) => {
                &&& tidy(once, state.num_qubits as nat)
                &&& transform(Gate::X { target }, once, state.num_qubits as nat) == Ok::<
                    Seq<KetView>,
                    SimError,
                >(state.listing())
            },
            Err(e) => e == SimError::IndexOutOfRange && target >= state.num_qubits,
        },
{
    let width = state.num_qubits as nat;
    let kets = state.listing();
    let x = Gate::X { target };
    if target < width {
        lemma_phase_and_flip_relabel(width, target);
        lemma_relabel(x, kets, width);
        let once = image_list(x, kets);
        lemma_relabel(x, once, width);
        assert forall|i: int| 0 <= i < kets.len() implies image_list(x, once)[i] == kets[i] by {
            assert(flipped(flipped(kets[i].bits, target as int), target as int) =~= kets[i].bits);
        }
        assert(image_list(x, once) =~= kets);
    }
}

/// Applying T and then T† to the same qubit, or T† and then T, gives back
/// the state, ket by ket. Where the state has no such qubit, the first
/// application already fails.
pub proof fn law_t_tdg_inverse(state: State, target: usize)
    requires
        state.wf(),
    ensures
        match transform(Gate::T { target }, state.listing(), state.num_qubits as nat) {
            Ok(once) => {
                &&& tidy(once, state.num_qubits as nat)
                &&& transform(Gate::TDgr { target }, once, state.num_qubits as nat) == Ok::<
                    Seq<KetView>,
                    SimError,
                >(state.listing())
            },
            Err(e) => e == SimError::IndexOutOfRange && target >= state.num_qubits,
        },
        match transform(Gate::TDgr { target }, state.listing(), state.num_qubits as nat) {
            Ok(once) => {
                &&& tidy(once, state.num_qubits as nat)
                &&& transform(Gate::T { target }, once, state.num_qubits as nat) == Ok::<
                    Seq<KetView>,
                    SimError,
                >(state.listing())
            },
            Err(e) => e == SimError::IndexOutOfRange && target >= state.num_qubits,
        },
{
    let width = state.num_qubits as nat;
    let kets = state.listing();
    let t = Gate::T { target };
    let tdg = Gate::TDgr { target };
    if target < width {
        lemma_phase_and_flip_relabel(width, target);
        lemma_relabel(t, kets, width);
        lemma_relabel(tdg, image_list(t, kets), width);
        assert(image_list(tdg, image_list(t, kets)) =~= kets);
        lemma_relabel(tdg, kets, width);
        lemma_relabel(t, image_list(tdg, kets), width);
        assert(image_list(t, image_list(tdg, kets)) =~= kets);
    }
}

/// What Hadamard on `target` leaves on a basis state: its own amplitude,
/// negated if its target bit is set, plus that of the state with the target
/// bit toggled, both times `1/√2`.
pub open spec fn hadamard_amplitude(kets: Seq<KetView>, target: usize, bits: Seq<bool>) -> Cyclo {
    amplitude_at(kets, bits).halve().signed(bits[target as int]).plus(
        amplitude_at(kets, flipped(bits, target as int)).halve(),
    )
}

/// As `hadamard_amplitude`, of the kets before index `from` alone.
pub open spec fn hadamard_part(kets: Seq<KetView>, target: usize, from: nat, bits: Seq<bool>)
    -> Cyclo {
    let other = flipped(bits, target as int);
    let own = if holds(kets, bits) && slot(kets, bits) < from {
        amplitude_at(kets, bits).halve().signed(bits[target as int])
    } else {
        Cyclo::zero()
    };
    let partner = if holds(kets, other) && slot(kets, other) < from {
        amplitude_at(kets, other).halve()
    } else {
        Cyclo::zero()
    };
    own.plus(partner)
}

/// The two images of a ket under Hadamard.
pub open spec fn hadamard_images(ket: KetView, target: usize) -> Seq<KetView> {
    let half = ket.amplitude.halve();
    seq![
        KetView { bits: ket.bits, amplitude: half.signed(ket.bits[target as int]) },
        KetView { bits: flipped(ket.bits, target as int), amplitude: half },
    ]
}

/// The list after the images of the ket at `from` were inserted.
pub open spec fn hadamard_step(
    kets: Seq<KetView>,
    width: nat,
    target: usize,
    from: nat,
    merged: Seq<KetView>,
) -> Seq<KetView> {
    let produced = hadamard_images(kets[from as int], target);
    let once = absorb(merged, width, produced[0])->Ok_0;
    absorb(once, width, produced[1])->Ok_0
}

/// What the kets before `from` have left on every basis state.
pub open spec fn hadamard_so_far(
    kets: Seq<KetView>,
    width: nat,
    target: usize,
    from: nat,
    merged: Seq<KetView>,
) -> bool {
    forall|bits: Seq<bool>|
        bits.len() == width ==> #[trigger] amplitude_at(merged, bits) == hadamard_part(
            kets,
            target,
            from,
            bits,
        )
}

/// One ket more: its two images are inserted, and every basis state holds
/// what the kets up to it leave there.
proof fn lemma_hadamard_step(
    kets: Seq<KetView>,
    width: nat,
    target: usize,
    from: nat,
    merged: Seq<KetView>,
)
    requires
        tidy(kets, width),
        tidy(merged, width),
        target < width,
        from < kets.len(),
        hadamard_so_far(kets, width, target, from, merged),
        transform_from(Gate::H { target }, kets, width, from, merged) is Ok,
    ensures
        absorb(merged, width, hadamard_images(kets[from as int], target)[0]) is Ok,
        absorb(
            absorb(merged, width, hadamard_images(kets[from as int], target)[0])->Ok_0,
            width,
            hadamard_images(kets[from as int], target)[1],
        ) is Ok,
        kets[from as int].amplitude.halve().fits(),
        kets[from as int].amplitude.halve().reduced(),
        tidy(absorb(merged, width, hadamard_images(kets[from as int], target)[0])->Ok_0, width),
        tidy(hadamard_step(kets, width, target, from, merged), width),
        hadamard_so_far(kets, width, target, from + 1, hadamard_step(kets, width, target, from, merged)),
        transform_from(Gate::H { target }, kets, width, from, merged) == transform_from(
            Gate::H { target },
            kets,
            width,
            from + 1,
            hadamard_step(kets, width, target, from, merged),
        ),
{
    let gate = Gate::H { target };
    let t = target as int;
    let ket = kets[from as int];
    let half = ket.amplitude.halve();
    let first = KetView { bits: ket.bits, amplitude: half.signed(ket.bits[t]) };
    let second = KetView { bits: flipped(ket.bits, t), amplitude: half };
    lemma_slot(kets, from as int);
    lemma_halve_lift(ket.amplitude, ket.amplitude.k);
    assert(gate.images(ket) == Some(seq![first, second]));
    reveal_with_fuel(absorb_all, 3);
    let produced = seq![first, second];
    assert(produced =~= hadamard_images(ket, target));
    assert(absorb_all(merged, width, produced, 0) is Ok);
    let once = absorb(merged, width, first)->Ok_0;
    lemma_absorb_tidy(merged, width, first);
    let next = absorb(once, width, second)->Ok_0;
    lemma_absorb_tidy(once, width, second);
    assert(absorb_all(merged, width, produced, 0) == Ok::<Seq<KetView>, SimError>(next));
    assert forall|bits: Seq<bool>| bits.len() == width implies #[trigger] amplitude_at(next, bits)
        == hadamard_part(kets, target, from + 1, bits) by {
        lemma_absorb_amplitude(merged, width, first, bits);
        lemma_absorb_amplitude(once, width, second, bits);
        let other = flipped(bits, t);
        assert(flipped(other, t) =~= bits);
        assert(flipped(second.bits, t) =~= ket.bits);
        assert(amplitude_at(merged, bits) == hadamard_part(kets, target, from, bits));
        if holds(kets, bits) {
            lemma_slot(kets, slot(kets, bits));
            lemma_halve_lift(amplitude_at(kets, bits), amplitude_at(kets, bits).k);
            lemma_signed_lift(
                amplitude_at(kets, bits).halve(),
                bits[t],
                amplitude_at(kets, bits).halve().k,
            );
        }
        if holds(kets, other) {
            lemma_slot(kets, slot(kets, other));
            lemma_halve_lift(amplitude_at(kets, other), amplitude_at(kets, other).k);
        }
        if bits == ket.bits {
            let partner = if holds(kets, other) && slot(kets, other) < from {
                amplitude_at(kets, other).halve()
            } else {
                Cyclo::zero()
            };
            lemma_signed_lift(half, ket.bits[t], half.k);
            lemma_plus_commutes(partner, first.amplitude);
        }
    }
}

/// One ket more: the total weight grows by the weight of that ket.
proof fn lemma_hadamard_step_weight(
    kets: Seq<KetView>,
    width: nat,
    target: usize,
    from: nat,
    merged: Seq<KetView>,
    to: nat,
)
    requires
        tidy(kets, width),
        tidy(merged, width),
        target < width,
        from < kets.len(),
        hadamard_so_far(kets, width, target, from, merged),
        bounded(kets, to),
        bounded(merged, to + 1),
        kets[from as int].amplitude.halve().fits(),
        kets[from as int].amplitude.halve().reduced(),
        absorb(merged, width, hadamard_images(kets[from as int], target)[0]) is Ok,
        tidy(absorb(merged, width, hadamard_images(kets[from as int], target)[0])->Ok_0, width),
        absorb(
            absorb(merged, width, hadamard_images(kets[from as int], target)[0])->Ok_0,
            width,
            hadamard_images(kets[from as int], target)[1],
        ) is Ok,
    ensures
        bounded(hadamard_step(kets, width, target, from, merged), to + 1),
        total_weight(hadamard_step(kets, width, target, from, merged), to + 1) == total_weight(
            merged,
            to + 1,
        ).plus(kets[from as int].amplitude.weight_at(to + 1)),
{
    let t = target as int;
    let ket = kets[from as int];
    let first = hadamard_images(ket, target)[0];
    let second = hadamard_images(ket, target)[1];
    let once = absorb(merged, width, first)->Ok_0;
    let there_bits = flipped(ket.bits, t);
    let v = if holds(kets, there_bits) && slot(kets, there_bits) < from {
        amplitude_at(kets, there_bits)
    } else {
        Cyclo::zero()
    };
    lemma_slot(kets, from as int);
    if holds(kets, there_bits) {
        lemma_slot(kets, slot(kets, there_bits));
    }
    assert(flipped(there_bits, t) =~= ket.bits);
    assert(amplitude_at(merged, ket.bits) == hadamard_part(kets, target, from, ket.bits));
    assert(amplitude_at(merged, there_bits) == hadamard_part(kets, target, from, there_bits));
    lemma_hadamard_weights(ket.amplitude, v, ket.bits[t], to + 1);
    lemma_absorb_weight(merged, width, first, to + 1);
    lemma_absorb_amplitude(merged, width, first, there_bits);
    lemma_absorb_weight(once, width, second, to + 1);
}

/// `lemma_hadamard` from index `from` on.
proof fn lemma_hadamard_from(
    kets: Seq<KetView>,
    width: nat,
    target: usize,
    from: nat,
    merged: Seq<KetView>,
    to: nat,
)
    requires
        tidy(kets, width),
        tidy(merged, width),
        target < width,
        from <= kets.len(),
        hadamard_so_far(kets, width, target, from, merged),
        transform_from(Gate::H { target }, kets, width, from, merged) is Ok,
        bounded(kets, to),
        bounded(merged, to + 1),
        total_weight(merged, to + 1) == prefix_weight(kets, from, to + 1),
    ensures
        tidy(transform_from(Gate::H { target }, kets, width, from, merged)->Ok_0, width),
        bounded(transform_from(Gate::H { target }, kets, width, from, merged)->Ok_0, to + 1),
        total_weight(transform_from(Gate::H { target }, kets, width, from, merged)->Ok_0, to + 1)
            == total_weight(kets, to + 1),
        hadamard_so_far(
            kets,
            width,
            target,
            kets.len(),
            transform_from(Gate::H { target }, kets, width, from, merged)->Ok_0,
        ),
    decreases kets.len() - from,
{
    if from < kets.len() {
        lemma_hadamard_step(kets, width, target, from, merged);
        lemma_hadamard_step_weight(kets, width, target, from, merged, to);
        lemma_hadamard_from(
            kets,
            width,
            target,
            from + 1,
            hadamard_step(kets, width, target, from, merged),
            to,
        );
    }
}

/// One application of Hadamard, basis state by basis state, and what it
/// does to the sum of the squared magnitudes: nothing.
pub proof fn lemma_hadamard(kets: Seq<KetView>, width: nat, target: usize, to: nat)
    requires
        tidy(kets, width),
        bounded(kets, to),
        transform(Gate::H { target }, kets, width) is Ok,
    ensures
        target < width,
        tidy(transform(Gate::H { target }, kets, width)->Ok_0, width),
        bounded(transform(Gate::H { target }, kets, width)->Ok_0, to + 1),
        total_weight(transform(Gate::H { target }, kets, width)->Ok_0, to + 1) == total_weight(
            kets,
            to + 1,
        ),
        forall|bits: Seq<bool>|
            bits.len() == width ==> #[trigger] amplitude_at(
                transform(Gate::H { target }, kets, width)->Ok_0,
                bits,
            ) == hadamard_amplitude(kets, target, bits),
{
    let start = Seq::<KetView>::empty();
    assert(hadamard_so_far(kets, width, target, 0, start));
    lemma_hadamard_from(kets, width, target, 0, start, to);
    let out = transform(Gate::H { target }, kets, width)->Ok_0;
    assert forall|bits: Seq<bool>| bits.len() == width implies #[trigger] amplitude_at(out, bits)
        == hadamard_amplitude(kets, target, bits) by {
        assert(amplitude_at(out, bits) == hadamard_part(kets, target, kets.len(), bits));
        let other = flipped(bits, target as int);
        if holds(kets, bits) {
            lemma_slot(kets, slot(kets, bits));
        }
        if holds(kets, other) {
            lemma_slot(kets, slot(kets, other));
        }
    }
}

/// Applying Hadamard to the same qubit twice gives back the superposition:
/// the same basis states with the same amplitudes. This is said of the case
/// in which both applications succeed; either fails where the state has no
/// such qubit or an amplitude leaves machine range.
pub proof fn law_h_self_inverse(state: State, target: usize)
    requires
        state.wf(),
    ensures
        transform(Gate::H { target }, state.listing(), state.num_qubits as nat) matches Ok(once)
            ==> {
            &&& tidy(once, state.num_qubits as nat)
            &&& transform(Gate::H { target }, once, state.num_qubits as nat) matches Ok(twice)
                ==> tidy(twice, state.num_qubits as nat) && amplitudes(twice) == state@
        },
{
    let width = state.num_qubits as nat;
    let kets = state.listing();
    let gate = Gate::H { target };
    if transform(gate, kets, width) is Ok {
        let once = transform(gate, kets, width)->Ok_0;
        lemma_exponent_bound(kets);
        lemma_hadamard(kets, width, target, exponent_bound(kets));
        if transform(gate, once, width) is Ok {
            let twice = transform(gate, once, width)->Ok_0;
            lemma_hadamard(once, width, target, exponent_bound(kets) + 1);
            assert forall|bits: Seq<bool>| bits.len() == width implies #[trigger] amplitude_at(
                twice,
                bits,
            ) == amplitude_at(kets, bits) by {
                let other = flipped(bits, target as int);
                assert(flipped(other, target as int) =~= bits);
                assert(amplitude_at(once, bits) == hadamard_amplitude(kets, target, bits));
                assert(amplitude_at(once, other) == hadamard_amplitude(kets, target, other));
                if holds(kets, bits) {
                    lemma_slot(kets, slot(kets, bits));
                }
                if holds(kets, other) {
                    lemma_slot(kets, slot(kets, other));
                }
                lemma_hadamard_twice(
                    amplitude_at(kets, bits),
                    amplitude_at(kets, other),
                    bits[target as int],
                );
            }
            assert forall|bits: Seq<bool>| holds(twice, bits) == holds(kets, bits) by {
                if holds(twice, bits) {
                    lemma_slot(twice, slot(twice, bits));
                    assert(amplitude_at(twice, bits) == amplitude_at(kets, bits));
                }
                if holds(kets, bits) {
                    lemma_slot(kets, slot(kets, bits));
                    assert(amplitude_at(twice, bits) == amplitude_at(kets, bits));
                }
            }
            assert forall|bits: Seq<bool>| holds(twice, bits) implies amplitudes(twice)[bits]
                == amplitudes(kets)[bits] by {
                lemma_slot(twice, slot(twice, bits));
                assert(amplitude_at(twice, bits) == amplitude_at(kets, bits));
            }
            assert(amplitudes(twice) =~= amplitudes(kets));
        }
    }
}

/// CX with control and target apart, and Toffoli with its target not among
/// its controls, only rename basis states.
pub proof fn lemma_controlled_relabel(width: nat, gate: Gate)
    requires
        gate.in_range(width),
        gate is CX || gate is Toffoli,
        reversible(gate),
    ensures
        relabels(gate, width),
{
    assert forall|a: KetView, b: KetView|
        sound(a, width) && sound(b, width) && a.bits != b.bits implies (#[trigger] image(
        gate,
        a,
    )).bits != (#[trigger] image(gate, b)).bits by {
        if image(gate, a).bits == image(gate, b).bits {
            match gate {
                Gate::CX { control, target } => {
                    let t = target as int;
                    assert(image(gate, a).bits[control as int] == a.bits[control as int]);
                    assert(image(gate, b).bits[control as int] == b.bits[control as int]);
                    assert(flipped(flipped(a.bits, t), t) =~= a.bits);
                    assert(flipped(flipped(b.bits, t), t) =~= b.bits);
                },
                Gate::Toffoli { controls, target } => {
                    let t = target as int;
                    lemma_controls_untouched(controls@, a.bits, target);
                    lemma_controls_untouched(controls@, b.bits, target);
                    assert(all_controls_set(controls@, image(gate, a).bits) == all_controls_set(
                        controls@,
                        a.bits,
                    ));
                    assert(all_controls_set(controls@, image(gate, b).bits) == all_controls_set(
                        controls@,
                        b.bits,
                    ));
                    assert(flipped(flipped(a.bits, t), t) =~= a.bits);
                    assert(flipped(flipped(b.bits, t), t) =~= b.bits);
                },
                _ => {},
            }
        }
    }
}

/// Toggling a bit that is no control leaves the controls as they are.
pub proof fn lemma_controls_untouched(controls: Seq<usize>, bits: Seq<bool>, target: usize)
    requires
        !controls.contains(target),
        target < bits.len(),
        forall|i: int| 0 <= i < controls.len() ==> #[trigger] controls[i] < bits.len(),
    ensures
        all_controls_set(controls, flipped(bits, target as int)) == all_controls_set(controls, bits),
{
    assert forall|i: int| 0 <= i < controls.len() implies flipped(bits, target as int)[#[trigger] controls[i] as int]
        == bits[controls[i] as int] by {
        assert(controls.contains(controls[i]));
    }
}

/// Whether a gate is one of the plain gates and undoes itself or has an
/// inverse in the set: every plain gate but a CX whose control is its
/// target, and a Toffoli whose target is one of its controls.
pub open spec fn reversible(gate: Gate) -> bool {
    match gate {
        Gate::CX { control, target } => control != target,
        Gate::Toffoli { controls, target } => !controls@.contains(target),
        Gate::Composite { gates } => false,
        _ => true,
    }
}

/// A gate that is neither Hadamard nor composite keeps the weight of each ket.
proof fn lemma_relabel_weight(gate: Gate, kets: Seq<KetView>, width: nat, n: nat, to: nat)
    requires
        tidy(kets, width),
        bounded(kets, to),
        n <= kets.len(),
        gate.in_range(width),
        !(gate is H),
        !(gate is Composite),
    ensures
        prefix_weight(image_list(gate, kets), n, to) == prefix_weight(kets, n, to),
        bounded(image_list(gate, kets), to),
    decreases n,
{
    assert forall|i: int| 0 <= i < kets.len() implies (#[trigger] image_list(gate, kets)[i]).amplitude.k
        <= to && image_list(gate, kets)[i].amplitude.weight_at(to) == kets[i].amplitude.weight_at(
        to,
    ) by {
        lemma_phase_weight(kets[i].amplitude, to);
    }
    if n > 0 {
        lemma_relabel_weight(gate, kets, width, (n - 1) as nat, to);
    }
}

/// `law_norm_preserved` of the kets of a state, over any common denominator
/// `2^(to + 1)` for which `to` bounds the exponents.
pub proof fn lemma_norm_preserved(kets: Seq<KetView>, width: nat, gate: Gate, to: nat)
    requires
        tidy(kets, width),
        reversible(gate),
        bounded(kets, to),
        transform(gate, kets, width) is Ok,
    ensures
        tidy(transform(gate, kets, width)->Ok_0, width),
        bounded(transform(gate, kets, width)->Ok_0, to + 1),
        total_weight(transform(gate, kets, width)->Ok_0, to + 1) == total_weight(kets, to + 1),
{
    match gate {
        Gate::H { target } => {
            lemma_hadamard(kets, width, target, to);
        },
        Gate::X { target } => {
            lemma_phase_and_flip_relabel(width, target);
        },
        Gate::T { target } => {
            lemma_phase_and_flip_relabel(width, target);
        },
        Gate::TDgr { target } => {
            lemma_phase_and_flip_relabel(width, target);
        },
        _ => {
            lemma_controlled_relabel(width, gate);
        },
    }
    if !(gate is H) {
        lemma_relabel(gate, kets, width);
        lemma_relabel_weight(gate, kets, width, kets.len(), to + 1);
    }
}

/// A reversible plain gate keeps the sum of the squared magnitudes of a
/// state's amplitudes. The sum is taken over the common denominator
/// `2^(m + 1)`, where `m` is the largest exponent among the state's
/// amplitudes; it is what [`total_weight`] names.
pub proof fn law_norm_preserved(state: State, gate: Gate)
    requires
        state.wf(),
        reversible(gate),
    ensures
        transform(gate, state.listing(), state.num_qubits as nat) matches Ok(next) ==> {
            &&& tidy(next, state.num_qubits as nat)
            &&& bounded(next, exponent_bound(state.listing()) + 1)
            &&& total_weight(next, exponent_bound(state.listing()) + 1) == total_weight(
                state.listing(),
                exponent_bound(state.listing()) + 1,
            )
        },
{
    if transform(gate, state.listing(), state.num_qubits as nat) is Ok {
        lemma_exponent_bound(state.listing());
        lemma_norm_preserved(
            state.listing(),
            state.num_qubits as nat,
            gate,
            exponent_bound(state.listing()),
        );
    }
}

/// `law_norm_preserved_by_circuit` from index `from` on, for any `to` that
/// bounds the exponents.
pub proof fn lemma_norm_preserved_run(
    gates: Seq<Gate>,
    from: nat,
    kets: Seq<KetView>,
    width: nat,
    to: nat,
)
    requires
        tidy(kets, width),
        bounded(kets, to),
        from <= gates.len(),
        forall|i: int| 0 <= i < gates.len() ==> reversible(#[trigger] gates[i]),
        run(gates, from, kets, width) is Ok,
    ensures
        tidy(run(gates, from, kets, width)->Ok_0, width),
        bounded(run(gates, from, kets, width)->Ok_0, to + (gates.len() - from) as nat),
        total_weight(run(gates, from, kets, width)->Ok_0, to + (gates.len() - from) as nat)
            == total_weight(kets, to + (gates.len() - from) as nat),
    decreases gates.len() - from,
{
    if from < gates.len() {
        let left = (gates.len() - from - 1) as nat;
        let next = transform(gates[from as int], kets, width)->Ok_0;
        lemma_norm_preserved(kets, width, gates[from as int], to);
        lemma_norm_preserved_run(gates, from + 1, next, width, to + 1);
        lemma_total_scales(kets, kets, to, 1);
        lemma_total_scales(next, kets, to + 1, left);
    }
}

/// A circuit of reversible plain gates, applied gate by gate, keeps the sum
/// of the squared magnitudes of a state's amplitudes. The sum is taken over
/// the common denominator `2^(m + n)`, where `m` is the largest exponent
/// among the state's amplitudes and `n` the number of gates.
pub proof fn law_norm_preserved_by_circuit(state: State, gates: Seq<Gate>)
    requires
        state.wf(),
        forall|i: int| 0 <= i < gates.len() ==> reversible(#[trigger] gates[i]),
    ensures
        run(gates, 0, state.listing(), state.num_qubits as nat) matches Ok(last) ==> {
            &&& tidy(last, state.num_qubits as nat)
            &&& bounded(last, exponent_bound(state.listing()) + gates.len())
            &&& total_weight(last, exponent_bound(state.listing()) + gates.len()) == total_weight(
                state.listing(),
                exponent_bound(state.listing()) + gates.len(),
            )
        },
{
    if run(gates, 0, state.listing(), state.num_qubits as nat) is Ok {
        lemma_exponent_bound(state.listing());
        lemma_norm_preserved_run(
            gates,
            0,
            state.listing(),
            state.num_qubits as nat,
            exponent_bound(state.listing()),
        );
    }
}

} // verus!
