//! Bit patterns of basis kets, stored in `bitvec`'s `BitVec`.
//!
//! Verus sees a [`BitPattern`] only through its view, the sequence of booleans
//! it holds. Every function in this file that is marked `external_body` states,
//! without proof, what one method of `bitvec` does to that sequence.

use bitvec::vec::BitVec;
use vstd::prelude::*;

verus! {

/// A bit vector of `bitvec`, with the default storage (`usize` words, least
/// significant bit first). Index `i` is qubit `i`.
#[verifier::external_body]
#[derive(Debug)]
pub struct BitPattern {
    inner: BitVec,
}

/// The bits that a bit pattern holds, position by position.
pub uninterp spec fn pattern(bits: BitPattern) -> Seq<bool>;

/// The largest number of bits that a bit vector can hold
/// (`BitSlice::MAX_BITS`: an eighth of the address space).
pub open spec fn max_width() -> int {
    usize::MAX as int / 8
}

/// The bits of a machine word, least significant first.
pub open spec fn word_bits(word: usize) -> Seq<bool> {
    Seq::new(usize::BITS as nat, |i: int| (word >> (i as usize)) & 1 == 1)
}

/// Whether two bit sequences hold the same bits before index `upto`.
pub open spec fn agree(a: Seq<bool>, b: Seq<bool>, upto: int) -> bool {
    forall|k: int| 0 <= k < upto ==> a[k] == b[k]
}

/// Whether `a` and `b` agree before index `at`, and there `a` has a clear
/// bit where `b` has a set one, or `a` ends and `b` goes on.
pub open spec fn splits_at(a: Seq<bool>, b: Seq<bool>, at: int) -> bool {
    &&& 0 <= at <= a.len()
    &&& at <= b.len()
    &&& agree(a, b, at)
    &&& (at < a.len() && at < b.len() && !a[at] && b[at]) || (at == a.len() && at < b.len())
}

/// The order of bit patterns: by the first index at which they differ,
/// clear before set; a pattern comes before each one that it begins.
pub open spec fn comes_before(a: Seq<bool>, b: Seq<bool>) -> bool {
    exists|at: int| splits_at(a, b, at)
}

impl View for BitPattern {
    type V = Seq<bool>;

    open spec fn view(&self) -> Seq<bool> {
        pattern(*self)
    }
}

impl Clone for BitPattern {
    fn clone(&self) -> (r: BitPattern)
        ensures
            r@ == self@,
    {
        self.duplicate()
    }
}

impl BitPattern {
    /// A bit pattern with the given bits, position by position.
    pub fn from_bools(values: &[bool]) -> (r: BitPattern)
        requires
            values@.len() <= max_width(),
        ensures
            r@ == values@,
    {
        let mut out = BitPattern::repeat(false, values.len());
        let mut i: usize = 0;
        while i < values.len()
            invariant
                i <= values@.len(),
                out@.len() == values@.len(),
                forall|j: int| 0 <= j < i ==> out@[j] == values@[j],
            decreases values@.len() - i,
        {
            out.set(i, values[i]);
            i += 1;
        }
        assert(out@ =~= values@);
        out
    }

    /// The bits held, position by position.
    pub fn to_bools(&self) -> (r: Vec<bool>)
        ensures
            r@ == self@,
    {
        let n = self.len();
        let mut out: Vec<bool> = Vec::new();
        let mut i: usize = 0;
        while i < n
            invariant
                n == self@.len(),
                i <= n,
                out@ == self@.take(i as int),
            decreases n - i,
        {
            match self.get(i) {
                Some(bit) => {
                    out.push(bit);
                },
                None => {},
            }
            assert(self@.take(i + 1) =~= self@.take(i as int).push(self@[i as int]));
            i += 1;
        }
        assert(self@.take(n as int) =~= self@);
        out
    }

    /// `BitVec::len`: the number of bits held.
    #[verifier::external_body]
    pub(crate) fn len(&self) -> (n: usize)
        ensures
            n == pattern(*self).len(),
    {
        self.inner.len()
    }

    /// `BitSlice::get` with a `usize` index: the bit at `index`, or `None`
    /// when `index` is not below the length.
    #[verifier::external_body]
    pub(crate) fn get(&self, index: usize) -> (r: Option<bool>)
        ensures
            r == (if index < pattern(*self).len() {
                Some(pattern(*self)[index as int])
            } else {
                None
            }),
    {
        self.inner.get(index).map(|b| *b)
    }

    /// `BitSlice::set`: writes `value` at `index` and leaves every other bit
    /// as it was. It panics when `index` is out of bounds, which `requires`
    /// excludes.
    #[verifier::external_body]
    pub(crate) fn set(&mut self, index: usize, value: bool)
        requires
            index < pattern(*old(self)).len(),
        ensures
            pattern(*final(self)) == pattern(*old(self)).update(index as int, value),
    {
        self.inner.set(index, value);
    }

    /// `BitVec::repeat`: `len` copies of `bit`. It panics when `len` exceeds
    /// `BitSlice::MAX_BITS`, which `requires` excludes.
    #[verifier::external_body]
    pub(crate) fn repeat(bit: bool, len: usize) -> (r: BitPattern)
        requires
            len <= max_width(),
        ensures
            pattern(r) == Seq::new(len as nat, |i: int| bit),
    {
        BitPattern { inner: BitVec::repeat(bit, len) }
    }

    /// `BitVec::from_element`: the bits of one machine word, least
    /// significant first.
    #[verifier::external_body]
    pub(crate) fn from_element(word: usize) -> (r: BitPattern)
        ensures
            pattern(r) == word_bits(word),
    {
        BitPattern { inner: BitVec::from_element(word) }
    }

    /// `BitVec::clone`: a new bit vector with the same bits.
    #[verifier::external_body]
    pub(crate) fn duplicate(&self) -> (r: BitPattern)
        ensures
            pattern(r) == pattern(*self),
    {
        BitPattern { inner: self.inner.clone() }
    }

    /// `BitSlice`'s `<`: bit vectors are ordered by the first index at which
    /// they differ, the one with the clear bit first; where one ends before
    /// they differ, the shorter one is first.
    #[verifier::external_body]
    pub(crate) fn precedes(&self, other: &BitPattern) -> (r: bool)
        ensures
            r == comes_before(pattern(*self), pattern(*other)),
    {
        self.inner.as_bitslice() < other.inner.as_bitslice()
    }

    /// `BitSlice`'s `==`: true exactly when both hold the same number of bits
    /// and agree at every position.
    #[verifier::external_body]
    pub(crate) fn same_bits(&self, other: &BitPattern) -> (r: bool)
        ensures
            r == (pattern(*self) == pattern(*other)),
    {
        self.inner.as_bitslice() == other.inner.as_bitslice()
    }
}

} // verus!
