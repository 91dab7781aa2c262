//! Basis kets: one classical bit pattern of the register and its amplitude.

use crate::error::SimError;
use crate::quantum::amplitude::{Amplitude, Cyclo};
use crate::quantum::bits::{max_width, word_bits, BitPattern};
use vstd::prelude::*;
use vstd::std_specs::cmp::PartialEqSpecImpl;

verus! {

/// What a ket stands for: its bits, index by qubit, and its amplitude.
pub struct KetView {
    pub bits: Seq<bool>,
    pub amplitude: Cyclo,
}

/// A basis ket. Two kets name the same basis state when their bits agree,
/// whatever their amplitudes.
#[derive(Debug, Clone)]
pub struct Ket {
    pub amplitude: Amplitude,
    pub bits: BitPattern,
}

/// `bits` with the bit at `index` toggled.
pub open spec fn flipped(bits: Seq<bool>, index: int) -> Seq<bool> {
    bits.update(index, !bits[index])
}

/// What each ket of a sequence stands for.
pub open spec fn views(kets: Seq<Ket>) -> Seq<KetView> {
    kets.map_values(|k: Ket| k@)
}

/// Every ket is well formed and `width` qubits wide.
pub open spec fn all_wf(kets: Seq<Ket>, width: nat) -> bool {
    forall|i: int| 0 <= i < kets.len() ==> (#[trigger] kets[i]).wf() && kets[i].bits().len() == width
}

/// How a ket is written: a bar, the bits from the last qubit to the first,
/// and a closing angle bracket.
pub open spec fn label_of(bits: Seq<bool>) -> Seq<char> {
    seq!['|'] + Seq::new(
        bits.len(),
        |i: int|
            if bits[bits.len() - 1 - i] {
                '1'
            } else {
                '0'
            },
    ) + seq!['\u{27e9}']
}

/// `String::push`: appends one character.
#[verifier::external_body]
fn push_char(text: &mut String, c: char)
    ensures
        final(text)@ == old(text)@.push(c),
{
    text.push(c);
}

impl View for Ket {
    type V = KetView;

    open spec fn view(&self) -> KetView {
        KetView { bits: self.bits(), amplitude: self.amplitude@ }
    }
}

impl PartialEq for Ket {
    /// Kets are equal when their bits are, whatever their amplitudes.
    fn eq(&self, other: &Ket) -> (r: bool) {
        self.bits.same_bits(&other.bits)
    }
}

impl PartialEqSpecImpl for Ket {
    open spec fn obeys_eq_spec() -> bool {
        true
    }

    open spec fn eq_spec(&self, other: &Ket) -> bool {
        self.bits() == other.bits()
    }
}

impl Ket {
    /// The ket's bits, index by qubit.
    pub open spec fn bits(&self) -> Seq<bool> {
        self.bits@
    }

    /// The amplitude is in lowest terms and within machine range.
    pub open spec fn wf(&self) -> bool {
        self.amplitude.wf()
    }

    /// A ket as wide as a machine word, whose bits are those of `ket_bits`,
    /// least significant first.
    pub fn new(ket_bits: usize, amplitude: Amplitude) -> (r: Ket)
        ensures
            r.bits() == word_bits(ket_bits),
            r.amplitude == amplitude,
    {
        Ket { amplitude, bits: BitPattern::from_element(ket_bits) }
    }

    /// A ket with the given bits and amplitude.
    pub fn from_bit_vec(ket_bits: BitPattern, amplitude: Amplitude) -> (r: Ket)
        ensures
            r.bits() == ket_bits@,
            r.amplitude == amplitude,
    {
        Ket { amplitude, bits: ket_bits }
    }

    /// A ket whose bits are copied from a slice.
    pub fn from_bit_slice(ket_bits: &[bool], amplitude: Amplitude) -> (r: Ket)
        requires
            ket_bits@.len() <= max_width(),
        ensures
            r.bits() == ket_bits@,
            r.amplitude == amplitude,
    {
        Ket { amplitude, bits: BitPattern::from_bools(ket_bits) }
    }

    /// The ground state of `num_qubits` qubits: every bit clear, amplitude 1.
    pub fn new_zero_ket(num_qubits: usize) -> (r: Ket)
        requires
            num_qubits <= max_width(),
        ensures
            r.bits() == Seq::new(num_qubits as nat, |i: int| false),
            r.amplitude@ == Cyclo::one(),
            r.wf(),
    {
        Ket { amplitude: Amplitude::one(), bits: BitPattern::repeat(false, num_qubits) }
    }

    /// The bits of the ket.
    pub fn bit_vec(&self) -> (r: &BitPattern)
        ensures
            r@ == self.bits(),
    {
        &self.bits
    }

    /// The number of qubits.
    pub fn width(&self) -> (n: usize)
        ensures
            n == self.bits().len(),
    {
        self.bits.len()
    }

    /// The bit at `index`, or `IndexOutOfRange` when the ket has no such qubit.
    pub fn get(&self, index: usize) -> (r: Result<bool, SimError>)
        ensures
            r == (if index < self.bits().len() {
                Ok::<bool, SimError>(self.bits()[index as int])
            } else {
                Err::<bool, SimError>(SimError::IndexOutOfRange)
            }),
    {
        match self.bits.get(index) {
            Some(bit) => Ok(bit),
            None => Err(SimError::IndexOutOfRange),
        }
    }

    /// Toggles the bit at `index`; on `IndexOutOfRange` the ket is unchanged.
    pub fn flip(&mut self, index: usize) -> (r: Result<(), SimError>)
        ensures
            final(self).amplitude == old(self).amplitude,
            index < old(self).bits().len() ==> r is Ok && final(self).bits() == flipped(
                old(self).bits(),
                index as int,
            ),
            index >= old(self).bits().len() ==> r == Err::<(), SimError>(SimError::IndexOutOfRange)
                && final(self).bits() == old(self).bits(),
    {
        match self.bits.get(index) {
            Some(bit) => {
                self.bits.set(index, !bit);
                Ok(())
            },
            None => Err(SimError::IndexOutOfRange),
        }
    }

    /// The bit at an index that the ket has.
    pub fn bit(&self, index: usize) -> (r: bool)
        requires
            index < self.bits().len(),
        ensures
            r == self.bits()[index as int],
    {
        match self.bits.get(index) {
            Some(bit) => bit,
            None => false,
        }
    }

    /// Toggles the bit at an index that the ket has.
    pub fn toggle(&mut self, index: usize)
        requires
            index < old(self).bits().len(),
        ensures
            final(self).amplitude == old(self).amplitude,
            final(self).bits() == flipped(old(self).bits(), index as int),
    {
        let bit = self.bit(index);
        self.bits.set(index, !bit);
    }

    /// The ket's label: see [`label_of`].
    pub fn label(&self) -> (r: String)
        ensures
            r@ == label_of(self.bits()),
    {
        let n = self.bits.len();
        let mut out = String::new();
        push_char(&mut out, '|');
        let ghost digits = Seq::new(
            n as nat,
            |i: int|
                if self.bits()[n - 1 - i] {
                    '1'
                } else {
                    '0'
                },
        );
        let mut left: usize = n;
        while left > 0
            invariant
                left <= n,
                n == self.bits().len(),
                digits.len() == n,
                forall|i: int|
                    0 <= i < n ==> digits[i] == (if self.bits()[n - 1 - i] {
                        '1'
                    } else {
                        '0'
                    }),
                out@ == seq!['|'] + digits.take(n - left),
            decreases left,
        {
            left -= 1;
            let c = if self.bit(left) { '1' } else { '0' };
            assert(digits.take(n - left) =~= digits.take(n - left - 1).push(c));
            push_char(&mut out, c);
            assert(out@ =~= seq!['|'] + digits.take(n - left));
        }
        assert(digits.take(n as int) =~= digits);
        push_char(&mut out, '\u{27e9}');
        assert(out@ =~= label_of(self.bits()));
        out
    }

    /// A copy of the ket.
    pub fn duplicate(&self) -> (r: Ket)
        ensures
            r@ == self@,
            r.amplitude == self.amplitude,
    {
        Ket { amplitude: self.amplitude, bits: self.bits.clone() }
    }

    /// Whether both kets name the same basis state.
    pub fn same_bits(&self, other: &Ket) -> (r: bool)
        ensures
            r == (self.bits() == other.bits()),
    {
        self.bits.same_bits(&other.bits)
    }

    /// Whether both kets name the same basis state with the same amplitude.
    pub fn are_equivalent(&self, other: &Ket) -> (r: bool)
        ensures
            r == (self@ == other@),
    {
        self.bits.same_bits(&other.bits) && self.amplitude == other.amplitude
    }
}

} // verus!
