//! Sparse states: a superposition held as its basis kets with non-zero
//! amplitude, each bit pattern at most once.

use crate::error::SimError;
use crate::quantum::amplitude::{Amplitude, Cyclo};
use crate::quantum::bits::{max_width, BitPattern};
use crate::quantum::ket::{views, Ket, KetView};
use vstd::prelude::*;

verus! {

/// Whether some ket of the list has the given bits.
pub open spec fn holds(kets: Seq<KetView>, bits: Seq<bool>) -> bool {
    exists|i: int| 0 <= i < kets.len() && (#[trigger] kets[i]).bits == bits
}

/// The place of a ket with the given bits, where the list holds one.
pub open spec fn slot(kets: Seq<KetView>, bits: Seq<bool>) -> int {
    choose|i: int| 0 <= i < kets.len() && (#[trigger] kets[i]).bits == bits
}

/// No two kets of the list have the same bits.
pub open spec fn distinct(kets: Seq<KetView>) -> bool {
    forall|i: int, j: int|
        0 <= i < j < kets.len() ==> (#[trigger] kets[i]).bits != (#[trigger] kets[j]).bits
}

/// What a state must hold of its kets: no bit pattern twice, every ket
/// `width` qubits wide, every amplitude in lowest terms and not zero.
pub open spec fn tidy(kets: Seq<KetView>, width: nat) -> bool {
    &&& distinct(kets)
    &&& forall|i: int|
        0 <= i < kets.len() ==> {
            &&& (#[trigger] kets[i]).bits.len() == width
            &&& kets[i].amplitude.fits()
            &&& kets[i].amplitude.reduced()
            &&& !kets[i].amplitude.is_zero()
        }
}

/// The superposition that a list of kets stands for: the amplitude of each
/// bit pattern that occurs in it.
pub open spec fn amplitudes(kets: Seq<KetView>) -> Map<Seq<bool>, Cyclo> {
    Map::new(|bits: Seq<bool>| holds(kets, bits), |bits: Seq<bool>| kets[slot(kets, bits)].amplitude)
}

/// The amplitude that a list of kets gives a basis state: zero where the
/// list holds no ket with those bits.
pub open spec fn amplitude_at(kets: Seq<KetView>, bits: Seq<bool>) -> Cyclo {
    if holds(kets, bits) {
        kets[slot(kets, bits)].amplitude
    } else {
        Cyclo::zero()
    }
}

/// A ket with non-zero amplitude merged into a list: added to the ket with
/// the same bits, which leaves the list when the sum is zero, or appended
/// where there is none. `None` where the sum leaves machine range.
pub open spec fn accumulate(kets: Seq<KetView>, ket: KetView) -> Option<Seq<KetView>> {
    if holds(kets, ket.bits) {
        let i = slot(kets, ket.bits);
        let sum = kets[i].amplitude.plus(ket.amplitude);
        if !kets[i].amplitude.plus_fits(ket.amplitude) {
            None
        } else if sum.is_zero() {
            Some(kets.remove(i))
        } else {
            Some(kets.update(i, KetView { bits: ket.bits, amplitude: sum }))
        }
    } else {
        Some(kets.push(ket))
    }
}

/// What inserting a ket makes of the kets of a state `width` qubits wide.
/// A ket with amplitude zero changes nothing, whatever its width.
pub open spec fn absorb(kets: Seq<KetView>, width: nat, ket: KetView) -> Result<
    Seq<KetView>,
    SimError,
> {
    if ket.amplitude.is_zero() {
        Ok(kets)
    } else if ket.bits.len() != width {
        Err(SimError::WidthMismatch)
    } else {
        match accumulate(kets, ket) {
            None => Err(SimError::AmplitudeOverflow),
            Some(merged) => Ok(merged),
        }
    }
}

/// The kets of `incoming` from index `from` on, inserted one after another.
pub open spec fn absorb_all(kets: Seq<KetView>, width: nat, incoming: Seq<KetView>, from: nat)
    -> Result<Seq<KetView>, SimError>
    decreases incoming.len() - from,
{
    if from >= incoming.len() {
        Ok(kets)
    } else {
        match absorb(kets, width, incoming[from as int]) {
            Err(e) => Err(e),
            Ok(next) => absorb_all(next, width, incoming, from + 1),
        }
    }
}

/// The kets of a list whose amplitude is not zero, in their order.
pub open spec fn without_zeros(kets: Seq<KetView>) -> Seq<KetView>
    decreases kets.len(),
{
    if kets.len() == 0 {
        kets
    } else if kets.last().amplitude.is_zero() {
        without_zeros(kets.drop_last())
    } else {
        without_zeros(kets.drop_last()).push(kets.last())
    }
}

/// Whether all kets of a list are equally wide.
pub open spec fn same_widths(kets: Seq<KetView>) -> bool {
    forall|i: int| 0 <= i < kets.len() ==> (#[trigger] kets[i]).bits.len() == kets[0].bits.len()
}

/// The width of the first ket of a list, 0 for the empty list.
pub open spec fn common_width(kets: Seq<KetView>) -> nat {
    if kets.len() == 0 {
        0
    } else {
        kets[0].bits.len()
    }
}

/// A list without zero amplitudes is left as it is.
pub proof fn lemma_without_zeros(kets: Seq<KetView>)
    requires
        forall|i: int| 0 <= i < kets.len() ==> !(#[trigger] kets[i]).amplitude.is_zero(),
    ensures
        without_zeros(kets) == kets,
    decreases kets.len(),
{
    if kets.len() > 0 {
        lemma_without_zeros(kets.drop_last());
        assert(kets.drop_last().push(kets.last()) =~= kets);
    }
}

/// In a list without repeated bits, a ket's place is the place of its bits.
pub proof fn lemma_slot(kets: Seq<KetView>, i: int)
    requires
        distinct(kets),
        0 <= i < kets.len(),
    ensures
        holds(kets, kets[i].bits),
        slot(kets, kets[i].bits) == i,
{
    let j = slot(kets, kets[i].bits);
    assert(0 <= j < kets.len() && kets[j].bits == kets[i].bits);
}

/// Inserting into a tidy list leaves a tidy list.
pub proof fn lemma_absorb_tidy(kets: Seq<KetView>, width: nat, ket: KetView)
    requires
        tidy(kets, width),
        ket.amplitude.fits(),
        ket.amplitude.reduced(),
        absorb(kets, width, ket) is Ok,
    ensures
        tidy(absorb(kets, width, ket)->Ok_0, width),
{
    let out = absorb(kets, width, ket)->Ok_0;
    if !ket.amplitude.is_zero() {
        if holds(kets, ket.bits) {
            let i = slot(kets, ket.bits);
            let sum = kets[i].amplitude.plus(ket.amplitude);
            crate::quantum::amplitude::lemma_plus_reduced(kets[i].amplitude, ket.amplitude);
            if sum.is_zero() {
                assert forall|a: int, b: int| 0 <= a < b < out.len() implies (#[trigger] out[a]).bits
                    != (#[trigger] out[b]).bits by {
                    let a0 = if a < i { a } else { a + 1 };
                    let b0 = if b < i { b } else { b + 1 };
                    assert(out[a] == kets[a0] && out[b] == kets[b0]);
                }
                assert forall|a: int| 0 <= a < out.len() implies {
                    &&& (#[trigger] out[a]).bits.len() == width
                    &&& out[a].amplitude.fits()
                    &&& out[a].amplitude.reduced()
                    &&& !out[a].amplitude.is_zero()
                } by {
                    let a0 = if a < i { a } else { a + 1 };
                    assert(out[a] == kets[a0]);
                }
            } else {
                assert forall|a: int, b: int| 0 <= a < b < out.len() implies (#[trigger] out[a]).bits
                    != (#[trigger] out[b]).bits by {
                    assert(out[a].bits == kets[a].bits && out[b].bits == kets[b].bits);
                }
            }
        } else {
            assert forall|a: int, b: int| 0 <= a < b < out.len() implies (#[trigger] out[a]).bits
                != (#[trigger] out[b]).bits by {
                if b == kets.len() {
                    assert(kets[a].bits != ket.bits);
                } else {
                    assert(out[a] == kets[a] && out[b] == kets[b]);
                }
            }
        }
    }
}

/// A sparse state of `num_qubits` qubits.
#[derive(Debug)]
pub struct State {
    pub kets: Vec<Ket>,
    pub num_qubits: usize,
}

impl View for State {
    type V = Map<Seq<bool>, Cyclo>;

    /// The amplitude of each basis state that the superposition holds.
    open spec fn view(&self) -> Map<Seq<bool>, Cyclo> {
        amplitudes(views(self.kets@))
    }
}

impl State {
    /// The state's invariant: see [`tidy`].
    pub open spec fn wf(&self) -> bool {
        tidy(views(self.kets@), self.num_qubits as nat)
    }

    /// The kets in storage order.
    pub open spec fn listing(&self) -> Seq<KetView> {
        views(self.kets@)
    }

    /// A state of `num_qubits` qubits that holds no ket.
    pub fn new(num_qubits: usize) -> (r: State)
        ensures
            r.num_qubits == num_qubits,
            r.kets@.len() == 0,
            r.wf(),
    {
        State { kets: Vec::new(), num_qubits }
    }

    /// The ground state of `num_qubits` qubits: the ket with every bit
    /// clear, with amplitude 1, and no other.
    pub fn ground(num_qubits: usize) -> (r: State)
        requires
            num_qubits <= max_width(),
        ensures
            r.num_qubits == num_qubits,
            r.wf(),
            r.listing() == seq![
                KetView { bits: Seq::new(num_qubits as nat, |i: int| false), amplitude: Cyclo::one() },
            ],
    {
        let mut state = State::new(num_qubits);
        assert(state.listing() =~= Seq::<KetView>::empty());
        let ket = Ket::new_zero_ket(num_qubits);
        assert(!holds(state.listing(), ket.bits()));
        let done = state.add_or_insert(ket);
        assert(state.listing() =~= seq![ket@]);
        state
    }

    /// The number of qubits.
    pub fn num_qubits(&self) -> (n: usize)
        ensures
            n == self.num_qubits,
    {
        self.num_qubits
    }

    /// Where the ket with the given bits is stored.
    pub fn find(&self, bits: &BitPattern) -> (r: Option<usize>)
        ensures
            match r {
                Some(i) => i < self.kets@.len() && self.kets@[i as int].bits() == bits@,
                None => !holds(self.listing(), bits@),
            },
    {
        let mut i: usize = 0;
        while i < self.kets.len()
            invariant
                i <= self.kets@.len(),
                forall|j: int| 0 <= j < i ==> (#[trigger] self.kets@[j]).bits() != bits@,
            decreases self.kets@.len() - i,
        {
            if self.kets[i].bits.same_bits(bits) {
                return Some(i);
            }
            i += 1;
        }
        assert forall|j: int| 0 <= j < self.listing().len() implies (#[trigger] self.listing()[j]).bits
            != bits@ by {
            assert(self.kets@[j].bits() != bits@);
        }
        None
    }

    /// The amplitude stored for the bits of `ket`, if any.
    pub fn amplitude_of(&self, ket: &Ket) -> (r: Option<Amplitude>)
        requires
            self.wf(),
        ensures
            r is Some <==> self@.contains_key(ket.bits()),
            r matches Some(x) ==> x@ == self@[ket.bits()],
    {
        match self.find(&ket.bits) {
            Some(i) => {
                proof {
                    lemma_slot(self.listing(), i as int);
                }
                Some(self.kets[i].amplitude)
            },
            None => None,
        }
    }

    /// Inserts a ket: its amplitude is added to that of the stored ket with
    /// the same bits, and the entry is dropped when the sum is zero. On an
    /// error the state is unchanged.
    pub fn add_or_insert(&mut self, ket: Ket) -> (r: Result<(), SimError>)
        requires
            old(self).wf(),
            ket.wf(),
        ensures
            final(self).wf(),
            final(self).num_qubits == old(self).num_qubits,
            match absorb(old(self).listing(), old(self).num_qubits as nat, ket@) {
                Ok(kets) => r is Ok && final(self).listing() == kets,
                Err(e) => r == Err::<(), SimError>(e) && final(self).kets@ == old(self).kets@,
            },
    {
        let ghost before = self.listing();
        if ket.amplitude.is_zero() {
            return Ok(());
        }
        if ket.width() != self.num_qubits {
            return Err(SimError::WidthMismatch);
        }
        proof {
            if absorb(before, self.num_qubits as nat, ket@) is Ok {
                lemma_absorb_tidy(before, self.num_qubits as nat, ket@);
            }
        }
        match self.find(&ket.bits) {
            Some(i) => {
                proof {
                    lemma_slot(before, i as int);
                }
                match self.kets[i].amplitude.plus(&ket.amplitude) {
                    None => Err(SimError::AmplitudeOverflow),
                    Some(sum) => {
                        if sum.is_zero() {
                            self.kets.remove(i);
                            assert(self.listing() =~= before.remove(i as int));
                        } else {
                            let mut merged = ket;
                            merged.amplitude = sum;
                            self.kets.set(i, merged);
                            assert(self.listing() =~= before.update(
                                i as int,
                                KetView { bits: ket.bits(), amplitude: sum@ },
                            ));
                        }
                        Ok(())
                    },
                }
            },
            None => {
                self.kets.push(ket);
                assert(self.listing() =~= before.push(ket@));
                Ok(())
            },
        }
    }

    /// A state built from a list of kets by inserting each in turn. All kets
    /// must be equally wide, else `WidthMismatch`; an empty list gives the
    /// empty state of no qubits.
    pub fn from_ket_vec(kets: &Vec<Ket>) -> (r: Result<State, SimError>)
        requires
            forall|i: int| 0 <= i < kets@.len() ==> (#[trigger] kets@[i]).wf(),
        ensures
            match r {
                Ok(state) => {
                    &&& same_widths(views(kets@))
                    &&& state.wf()
                    &&& state.num_qubits == common_width(views(kets@))
                    &&& absorb_all(
                        Seq::empty(),
                        common_width(views(kets@)),
                        views(kets@),
                        0,
                    ) == Ok::<Seq<KetView>, SimError>(state.listing())
                },
                Err(e) => if same_widths(views(kets@)) {
                    absorb_all(Seq::empty(), common_width(views(kets@)), views(kets@), 0) == Err::<
                        Seq<KetView>,
                        SimError,
                    >(e)
                } else {
                    e == SimError::WidthMismatch
                },
            },
    {
        let ghost incoming = views(kets@);
        if kets.len() == 0 {
            let state = State::new(0);
            assert(state.listing() =~= Seq::<KetView>::empty());
            return Ok(state);
        }
        let num_qubits = kets[0].width();
        let mut i: usize = 0;
        while i < kets.len()
            invariant
                i <= kets@.len(),
                kets@.len() > 0,
                incoming == views(kets@),
                num_qubits == kets@[0].bits().len(),
                forall|j: int| 0 <= j < i ==> (#[trigger] incoming[j]).bits.len() == num_qubits,
            decreases kets@.len() - i,
        {
            if kets[i].width() != num_qubits {
                assert(incoming[i as int].bits.len() != incoming[0].bits.len());
                return Err(SimError::WidthMismatch);
            }
            i += 1;
        }
        let mut state = State::new(num_qubits);
        assert(state.listing() =~= Seq::<KetView>::empty());
        assert(same_widths(incoming));
        let mut i: usize = 0;
        while i < kets.len()
            invariant
                i <= kets@.len(),
                incoming == views(kets@),
                same_widths(incoming),
                common_width(incoming) == num_qubits,
                forall|j: int| 0 <= j < kets@.len() ==> (#[trigger] kets@[j]).wf(),
                state.wf(),
                state.num_qubits == num_qubits,
                absorb_all(state.listing(), num_qubits as nat, incoming, i as nat) == absorb_all(
                    Seq::empty(),
                    num_qubits as nat,
                    incoming,
                    0,
                ),
            decreases kets@.len() - i,
        {
            match state.add_or_insert(kets[i].duplicate()) {
                Ok(()) => {},
                Err(e) => {
                    return Err(e);
                },
            }
            i += 1;
        }
        Ok(state)
    }

    /// Removes the ket with the bits of `ket`, if the state holds one.
    pub fn remove(&mut self, ket: &Ket)
        requires
            old(self).wf(),
        ensures
            final(self).wf(),
            final(self).num_qubits == old(self).num_qubits,
            final(self)@ == old(self)@.remove(ket.bits()),
    {
        let ghost before = self.listing();
        match self.find(&ket.bits) {
            Some(i) => {
                self.kets.remove(i);
                assert(self.listing() =~= before.remove(i as int));
                proof {
                    lemma_remove(before, i as int);
                }
            },
            None => {
                assert(self@ =~= old(self)@.remove(ket.bits()));
            },
        }
    }

    /// Removes every ket whose amplitude is zero. Meant for a state whose
    /// kets were written to directly.
    pub fn remove_zero_amplitude_kets(&mut self)
        ensures
            final(self).num_qubits == old(self).num_qubits,
            final(self).listing() == without_zeros(old(self).listing()),
            old(self).wf() ==> final(self).wf() && final(self).listing() == old(self).listing(),
    {
        let ghost before = self.listing();
        proof {
            if self.wf() {
                lemma_without_zeros(before);
            }
        }
        let mut kept: Vec<Ket> = Vec::new();
        let mut i: usize = 0;
        assert(before.take(0) =~= Seq::<KetView>::empty());
        while i < self.kets.len()
            invariant
                i <= self.kets@.len(),
                self.listing() == before,
                self.num_qubits == old(self).num_qubits,
                views(kept@) == without_zeros(before.take(i as int)),
            decreases self.kets@.len() - i,
        {
            let ghost done = views(kept@);
            assert(before.take(i + 1).drop_last() =~= before.take(i as int));
            assert(before.take(i + 1).last() == before[i as int]);
            if !self.kets[i].amplitude.is_zero() {
                kept.push(self.kets[i].duplicate());
                assert(views(kept@) =~= done.push(before[i as int]));
            }
            i += 1;
        }
        assert(before.take(i as int) =~= before);
        self.kets = kept;
    }
}

/// Taking a ket out of a tidy list takes its bits out of the superposition
/// and leaves the list tidy.
pub proof fn lemma_remove(kets: Seq<KetView>, i: int)
    requires
        distinct(kets),
        0 <= i < kets.len(),
    ensures
        distinct(kets.remove(i)),
        amplitudes(kets.remove(i)) == amplitudes(kets).remove(kets[i].bits),
        forall|width: nat| tidy(kets, width) ==> tidy(kets.remove(i), width),
{
    let out = kets.remove(i);
    assert forall|a: int, b: int| 0 <= a < b < out.len() implies (#[trigger] out[a]).bits != (
    #[trigger] out[b]).bits by {
        let a0 = if a < i { a } else { a + 1 };
        let b0 = if b < i { b } else { b + 1 };
        assert(out[a] == kets[a0] && out[b] == kets[b0]);
    }
    assert forall|bits: Seq<bool>| holds(out, bits) <==> (holds(kets, bits) && bits != kets[i].bits) by {
        if holds(out, bits) {
            let a = slot(out, bits);
            let a0 = if a < i { a } else { a + 1 };
            assert(out[a] == kets[a0]);
        }
        if holds(kets, bits) && bits != kets[i].bits {
            let a0 = slot(kets, bits);
            let a = if a0 < i { a0 } else { a0 - 1 };
            assert(out[a] == kets[a0]);
        }
    }
    assert forall|bits: Seq<bool>| holds(out, bits) implies out[slot(out, bits)].amplitude
        == kets[slot(kets, bits)].amplitude by {
        let a = slot(out, bits);
        let a0 = if a < i { a } else { a + 1 };
        assert(out[a] == kets[a0]);
        lemma_slot(kets, a0);
    }
    assert(amplitudes(out) =~= amplitudes(kets).remove(kets[i].bits));
    assert forall|width: nat| tidy(kets, width) implies tidy(out, width) by {
        assert forall|a: int| 0 <= a < out.len() implies {
            &&& (#[trigger] out[a]).bits.len() == width
            &&& out[a].amplitude.fits()
            &&& out[a].amplitude.reduced()
            &&& !out[a].amplitude.is_zero()
        } by {
            let a0 = if a < i { a } else { a + 1 };
            assert(out[a] == kets[a0]);
        }
    }
}

/// The merge policy in terms of amplitudes: inserting a ket adds its
/// amplitude to that of its basis state and leaves every other basis state
/// as it was.
pub proof fn lemma_absorb_amplitude(kets: Seq<KetView>, width: nat, ket: KetView, bits: Seq<bool>)
    requires
        tidy(kets, width),
        ket.amplitude.fits(),
        ket.amplitude.reduced(),
        absorb(kets, width, ket) is Ok,
    ensures
        amplitude_at(absorb(kets, width, ket)->Ok_0, bits) == (if bits == ket.bits {
            amplitude_at(kets, bits).plus(ket.amplitude)
        } else {
            amplitude_at(kets, bits)
        }),
{
    let out = absorb(kets, width, ket)->Ok_0;
    lemma_absorb_tidy(kets, width, ket);
    if holds(kets, bits) {
        lemma_slot(kets, slot(kets, bits));
    }
    if ket.amplitude.is_zero() {
    } else if holds(kets, ket.bits) {
        let i = slot(kets, ket.bits);
        let sum = kets[i].amplitude.plus(ket.amplitude);
        crate::quantum::amplitude::lemma_plus_reduced(kets[i].amplitude, ket.amplitude);
        if sum.is_zero() {
            lemma_remove(kets, i);
            assert(amplitudes(out).dom().contains(bits) == holds(out, bits));
            assert(amplitudes(kets).dom().contains(bits) == holds(kets, bits));
            if holds(out, bits) {
                assert(amplitudes(out)[bits] == out[slot(out, bits)].amplitude);
                assert(amplitudes(kets)[bits] == kets[slot(kets, bits)].amplitude);
            }
        } else {
            if holds(kets, bits) {
                let j = slot(kets, bits);
                assert(out[j].bits == bits);
                lemma_slot(out, j);
            } else if holds(out, bits) {
                let j = slot(out, bits);
                assert(kets[j].bits == bits);
            }
        }
    } else {
        if holds(kets, bits) {
            let j = slot(kets, bits);
            assert(out[j].bits == bits);
            lemma_slot(out, j);
        } else if bits == ket.bits {
            assert(out[kets.len() as int].bits == bits);
            lemma_slot(out, kets.len() as int);
        } else if holds(out, bits) {
            let j = slot(out, bits);
            assert(kets[j].bits == bits);
        }
    }
}

/// A state holds as many kets as its superposition has basis states.
pub proof fn lemma_count(kets: Seq<KetView>, width: nat)
    requires
        tidy(kets, width),
    ensures
        amplitudes(kets).dom().finite(),
        amplitudes(kets).dom().len() == kets.len(),
    decreases kets.len(),
{
    if kets.len() == 0 {
        assert(amplitudes(kets).dom() =~= Set::<Seq<bool>>::empty());
    } else {
        let i = kets.len() - 1;
        let rest = kets.remove(i);
        lemma_remove(kets, i);
        lemma_slot(kets, i);
        lemma_count(rest, width);
        assert(amplitudes(kets).dom() =~= amplitudes(rest).dom().insert(kets[i].bits));
    }
}

} // verus!
