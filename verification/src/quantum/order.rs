//! The kets of a state in the order of their bit patterns, and the
//! comparison of states that rests on it.

use crate::quantum::bits::{agree, comes_before, splits_at};
use crate::quantum::ket::{views, Ket, KetView};
use crate::quantum::state::{amplitudes, holds, lemma_count, lemma_slot, slot, tidy, State};
use vstd::prelude::*;

verus! {

/// Each ket comes before every later one.
pub open spec fn ascending(kets: Seq<KetView>) -> bool {
    forall|i: int, j: int|
        0 <= i < j < kets.len() ==> comes_before((#[trigger] kets[i]).bits, (#[trigger] kets[j]).bits)
}

/// Both lists are equally long and every ket of one is a ket of the other.
pub open spec fn same_kets(x: Seq<KetView>, y: Seq<KetView>) -> bool {
    &&& x.len() == y.len()
    &&& forall|i: int| 0 <= i < x.len() ==> y.contains(#[trigger] x[i])
    &&& forall|i: int| 0 <= i < y.len() ==> x.contains(#[trigger] y[i])
}

/// `lemma_order_total` for patterns that agree before index `upto`.
proof fn lemma_first_difference(a: Seq<bool>, b: Seq<bool>, upto: int)
    requires
        a != b,
        0 <= upto <= a.len(),
        upto <= b.len(),
        agree(a, b, upto),
    ensures
        comes_before(a, b) || comes_before(b, a),
    decreases a.len() - upto,
{
    if upto == a.len() || upto == b.len() {
        if a.len() == b.len() {
            assert(a =~= b);
        } else if upto == a.len() {
            assert(splits_at(a, b, upto));
        } else {
            assert(splits_at(b, a, upto));
        }
    } else if a[upto] != b[upto] {
        if b[upto] {
            assert(splits_at(a, b, upto));
        } else {
            assert(splits_at(b, a, upto));
        }
    } else {
        lemma_first_difference(a, b, upto + 1);
    }
}

/// Of two different bit patterns one comes before the other.
pub proof fn lemma_order_total(a: Seq<bool>, b: Seq<bool>)
    requires
        a != b,
    ensures
        comes_before(a, b) || comes_before(b, a),
{
    lemma_first_difference(a, b, 0);
}

/// What comes before a pattern comes before all that the pattern comes
/// before.
pub proof fn lemma_order_transitive(a: Seq<bool>, b: Seq<bool>, c: Seq<bool>)
    requires
        comes_before(a, b),
        comes_before(b, c),
    ensures
        comes_before(a, c),
{
    let i = choose|at: int| splits_at(a, b, at);
    let j = choose|at: int| splits_at(b, c, at);
    if i <= j {
        assert(splits_at(a, c, i));
    } else {
        assert(splits_at(a, c, j));
    }
}

impl State {
    /// The kets in the order of their bit patterns.
    pub fn sorted_kets(&self) -> (r: Vec<Ket>)
        requires
            self.wf(),
        ensures
            ascending(views(r@)),
            same_kets(views(r@), self.listing()),
    {
        let ghost source = self.listing();
        let mut out: Vec<Ket> = Vec::new();
        let mut i: usize = 0;
        while i < self.kets.len()
            invariant
                i <= self.kets@.len(),
                self.wf(),
                source == self.listing(),
                ascending(views(out@)),
                same_kets(views(out@), source.take(i as int)),
            decreases self.kets@.len() - i,
        {
            let ket = self.kets[i].duplicate();
            let ghost before = views(out@);
            let mut at: usize = 0;
            while at < out.len() && !ket.bits.precedes(&out[at].bits)
                invariant
                    at <= out@.len(),
                    before == views(out@),
                    forall|j: int| 0 <= j < at ==> !comes_before(ket.bits(), (#[trigger] before[j]).bits),
                decreases out@.len() - at,
            {
                at += 1;
            }
            out.insert(at, ket);
            let ghost after = views(out@);
            assert(after =~= before.insert(at as int, ket@));
            proof {
                let taken = source.take(i as int);
                let grown = source.take(i + 1);
                assert(grown =~= taken.push(ket@));
                assert forall|a: int, b: int| 0 <= a < b < after.len() implies comes_before(
                    (#[trigger] after[a]).bits,
                    (#[trigger] after[b]).bits,
                ) by {
                    if b == at {
                        assert(after[a] == before[a]);
                        assert(taken.contains(before[a]));
                        let k = choose|k: int| 0 <= k < taken.len() && taken[k] == before[a];
                        assert(source[k].bits != source[i as int].bits);
                        lemma_order_total(before[a].bits, ket.bits());
                    } else if a == at {
                        assert(after[b] == before[b - 1]);
                        if b - 1 > at {
                            lemma_order_transitive(
                                ket.bits(),
                                before[at as int].bits,
                                before[b - 1].bits,
                            );
                        }
                    } else {
                        let a0 = if a < at { a } else { a - 1 };
                        let b0 = if b < at { b } else { b - 1 };
                        assert(after[a] == before[a0] && after[b] == before[b0]);
                    }
                }
                assert forall|a: int| 0 <= a < after.len() implies grown.contains(
                    #[trigger] after[a],
                ) by {
                    if a == at {
                        assert(grown[i as int] == ket@);
                    } else {
                        let a0 = if a < at { a } else { a - 1 };
                        assert(after[a] == before[a0]);
                        assert(taken.contains(before[a0]));
                        let k = choose|k: int| 0 <= k < taken.len() && taken[k] == before[a0];
                        assert(grown[k] == after[a]);
                    }
                }
                assert forall|k: int| 0 <= k < grown.len() implies after.contains(
                    #[trigger] grown[k],
                ) by {
                    if k == i {
                        assert(after[at as int] == grown[k]);
                    } else {
                        assert(grown[k] == taken[k]);
                        assert(before.contains(taken[k]));
                        let a0 = choose|a0: int| 0 <= a0 < before.len() && before[a0] == taken[k];
                        let a = if a0 < at { a0 } else { a0 + 1 };
                        assert(after[a] == grown[k]);
                    }
                }
            }
            i += 1;
        }
        assert(source.take(i as int) =~= source);
        out
    }
}

/// No bit pattern comes before itself.
pub proof fn lemma_order_irreflexive(a: Seq<bool>)
    ensures
        !comes_before(a, a),
{
}

/// There is one way to put the kets of a list in ascending order.
pub proof fn lemma_ascending_unique(x: Seq<KetView>, y: Seq<KetView>)
    requires
        ascending(x),
        ascending(y),
        same_kets(x, y),
    ensures
        x == y,
    decreases x.len(),
{
    if x.len() > 0 {
        let n = x.len() - 1;
        let front_x = x.drop_last();
        let front_y = y.drop_last();
        assert(y.contains(x[n]));
        let j = choose|j: int| 0 <= j < y.len() && y[j] == x[n];
        assert(x.contains(y[n]));
        let i = choose|i: int| 0 <= i < x.len() && x[i] == y[n];
        lemma_order_irreflexive(x[n].bits);
        lemma_order_irreflexive(y[n].bits);
        if j < n {
            if i < n {
                lemma_order_transitive(x[i].bits, x[n].bits, y[n].bits);
            }
        }
        assert(x[n] == y[n]);
        assert forall|a: int| 0 <= a < front_x.len() implies front_y.contains(
            #[trigger] front_x[a],
        ) by {
            assert(y.contains(x[a]));
            let b = choose|b: int| 0 <= b < y.len() && y[b] == x[a];
            lemma_order_irreflexive(x[a].bits);
            assert(b < n);
            assert(front_y[b] == front_x[a]);
        }
        assert forall|b: int| 0 <= b < front_y.len() implies front_x.contains(
            #[trigger] front_y[b],
        ) by {
            assert(x.contains(y[b]));
            let a = choose|a: int| 0 <= a < x.len() && x[a] == y[b];
            lemma_order_irreflexive(y[b].bits);
            assert(a < n);
            assert(front_x[a] == front_y[b]);
        }
        lemma_ascending_unique(front_x, front_y);
        assert(x =~= front_x.push(x[n]));
        assert(y =~= front_y.push(y[n]));
    } else {
        assert(x =~= y);
    }
}

/// States hold the same kets exactly when they are the same superposition.
pub proof fn lemma_same_kets(x: Seq<KetView>, y: Seq<KetView>, width: nat)
    requires
        tidy(x, width),
        tidy(y, width),
    ensures
        same_kets(x, y) <==> amplitudes(x) == amplitudes(y),
{
    if same_kets(x, y) {
        assert forall|bits: Seq<bool>| holds(x, bits) == holds(y, bits) by {
            if holds(x, bits) {
                let i = slot(x, bits);
                assert(y.contains(x[i]));
            }
            if holds(y, bits) {
                let j = slot(y, bits);
                assert(x.contains(y[j]));
            }
        }
        assert forall|bits: Seq<bool>| holds(x, bits) implies amplitudes(x)[bits] == amplitudes(
            y,
        )[bits] by {
            let i = slot(x, bits);
            assert(y.contains(x[i]));
            let j = choose|j: int| 0 <= j < y.len() && y[j] == x[i];
            lemma_slot(y, j);
        }
        assert(amplitudes(x) =~= amplitudes(y));
    }
    if amplitudes(x) == amplitudes(y) {
        lemma_count(x, width);
        lemma_count(y, width);
        assert forall|i: int| 0 <= i < x.len() implies y.contains(#[trigger] x[i]) by {
            lemma_held_alike(x, y, i);
        }
        assert forall|i: int| 0 <= i < y.len() implies x.contains(#[trigger] y[i]) by {
            lemma_held_alike(y, x, i);
        }
    }
}

/// A ket of a state is a ket of each state that is the same superposition.
proof fn lemma_held_alike(x: Seq<KetView>, y: Seq<KetView>, i: int)
    requires
        amplitudes(x) == amplitudes(y),
        0 <= i < x.len(),
        forall|a: int, b: int| 0 <= a < b < x.len() ==> (#[trigger] x[a]).bits != (#[trigger] x[b]).bits,
    ensures
        y.contains(x[i]),
{
    let bits = x[i].bits;
    assert(holds(x, bits));
    let own = slot(x, bits);
    assert(x[own].bits == bits);
    assert(own == i);
    assert(amplitudes(x).dom().contains(bits));
    assert(amplitudes(y).dom().contains(bits));
    let j = slot(y, bits);
    assert(y[j].bits == bits);
    assert(amplitudes(x)[bits] == x[i].amplitude);
    assert(amplitudes(y)[bits] == y[j].amplitude);
    assert(y[j] == x[i]);
}

/// Lists that hold the same kets as two lists that hold the same kets hold
/// the same kets.
proof fn lemma_same_kets_chain(
    sorted_x: Seq<KetView>,
    x: Seq<KetView>,
    y: Seq<KetView>,
    sorted_y: Seq<KetView>,
)
    requires
        same_kets(sorted_x, x),
        same_kets(x, y),
        same_kets(sorted_y, y),
    ensures
        same_kets(sorted_x, sorted_y),
{
    assert forall|i: int| 0 <= i < sorted_x.len() implies sorted_y.contains(
        #[trigger] sorted_x[i],
    ) by {
        assert(x.contains(sorted_x[i]));
        let a = choose|a: int| 0 <= a < x.len() && x[a] == sorted_x[i];
        assert(y.contains(x[a]));
        let b = choose|b: int| 0 <= b < y.len() && y[b] == x[a];
        assert(sorted_y.contains(y[b]));
    }
    assert forall|i: int| 0 <= i < sorted_y.len() implies sorted_x.contains(
        #[trigger] sorted_y[i],
    ) by {
        assert(y.contains(sorted_y[i]));
        let b = choose|b: int| 0 <= b < y.len() && y[b] == sorted_y[i];
        assert(x.contains(y[b]));
        let a = choose|a: int| 0 <= a < x.len() && x[a] == y[b];
        assert(sorted_x.contains(x[a]));
    }
}

impl State {
    /// Whether two states are the same superposition: equally many qubits,
    /// the same basis kets, each with the same amplitude, in whatever order
    /// they are stored. States with different numbers of kets differ; the
    /// others are put in the order of their bit patterns and compared ket
    /// by ket.
    pub fn are_equivalent(&self, other: &State) -> (r: bool)
        requires
            self.wf(),
            other.wf(),
        ensures
            r == (self.num_qubits == other.num_qubits && self@ == other@),
    {
        if self.num_qubits != other.num_qubits {
            return false;
        }
        if self.kets.len() != other.kets.len() {
            proof {
                lemma_count(self.listing(), self.num_qubits as nat);
                lemma_count(other.listing(), other.num_qubits as nat);
            }
            return false;
        }
        let ours = self.sorted_kets();
        let theirs = other.sorted_kets();
        proof {
            lemma_same_kets(self.listing(), other.listing(), self.num_qubits as nat);
            if self@ == other@ {
                lemma_same_kets_chain(
                    views(ours@),
                    self.listing(),
                    other.listing(),
                    views(theirs@),
                );
                lemma_ascending_unique(views(ours@), views(theirs@));
            }
        }
        let mut i: usize = 0;
        while i < ours.len()
            invariant
                i <= ours@.len(),
                ours@.len() == theirs@.len(),
                self.num_qubits == other.num_qubits,
                self@ == other@ ==> views(ours@) == views(theirs@),
                forall|j: int| 0 <= j < i ==> views(ours@)[j] == views(theirs@)[j],
            decreases ours@.len() - i,
        {
            if !ours[i].are_equivalent(&theirs[i]) {
                assert(views(ours@)[i as int] != views(theirs@)[i as int]);
                return false;
            }
            i += 1;
        }
        proof {
            assert(views(ours@) =~= views(theirs@));
            lemma_same_kets_back(
                views(ours@),
                self.listing(),
                other.listing(),
            );
        }
        true
    }
}

/// Lists that hold the same kets as one list hold the same kets.
proof fn lemma_same_kets_back(sorted: Seq<KetView>, x: Seq<KetView>, y: Seq<KetView>)
    requires
        same_kets(sorted, x),
        same_kets(sorted, y),
    ensures
        same_kets(x, y),
{
    assert forall|i: int| 0 <= i < x.len() implies y.contains(#[trigger] x[i]) by {
        assert(sorted.contains(x[i]));
        let a = choose|a: int| 0 <= a < sorted.len() && sorted[a] == x[i];
        assert(y.contains(sorted[a]));
    }
    assert forall|i: int| 0 <= i < y.len() implies x.contains(#[trigger] y[i]) by {
        assert(sorted.contains(y[i]));
        let a = choose|a: int| 0 <= a < sorted.len() && sorted[a] == y[i];
        assert(x.contains(sorted[a]));
    }
}

} // verus!
