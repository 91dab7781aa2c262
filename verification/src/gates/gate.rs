//! Supported gates, and the engine that applies a gate to a ket or a state.

use crate::error::SimError;
use crate::quantum::ket::{all_wf, flipped, views, Ket, KetView};
use crate::quantum::state::{absorb_all, State};
use vstd::prelude::*;

verus! {

/// The supported gates. Qubits are named by index.
#[derive(Debug, PartialEq)]
pub enum Gate {
    H { target: usize },
    X { target: usize },
    T { target: usize },
    TDgr { target: usize },
    CX { control: usize, target: usize },
    Toffoli { controls: Vec<usize>, target: usize },
    Composite { gates: Vec<Gate> },
}

/// What a gate makes of one ket.
pub enum GateKetResult {
    Ket(Ket),
    Kets(Vec<Ket>),
    NotImplemented(String),
}

/// Whether every control bit is set.
pub open spec fn all_controls_set(controls: Seq<usize>, bits: Seq<bool>) -> bool {
    forall|i: int| 0 <= i < controls.len() ==> bits[#[trigger] controls[i] as int]
}

impl Gate {
    /// Whether every qubit named by this gate is below `width`.
    pub open spec fn in_range(self, width: nat) -> bool
        decreases self,
    {
        match self {
            Gate::H { target } => target < width,
            Gate::X { target } => target < width,
            Gate::T { target } => target < width,
            Gate::TDgr { target } => target < width,
            Gate::CX { control, target } => control < width && target < width,
            Gate::Toffoli { controls, target } => target < width && forall|i: int|
                0 <= i < controls@.len() ==> #[trigger] controls@[i] < width,
            Gate::Composite { gates } => forall|i: int|
                0 <= i < gates@.len() ==> (#[trigger] gates@[i]).in_range(width),
        }
    }

    /// The kets that this gate makes of `ket`, in the order in which they are
    /// produced, or `None` where an amplitude leaves machine range.
    /// Meant for gates that are in range for the ket.
    pub open spec fn images(self, ket: KetView) -> Option<Seq<KetView>>
        decreases self, 0nat,
    {
        match self {
            Gate::H { target } => {
                let half = ket.amplitude.halve();
                if half.fits() {
                    Some(
                        seq![
                            KetView {
                                bits: ket.bits,
                                amplitude: if ket.bits[target as int] { half.neg() } else { half },
                            },
                            KetView { bits: flipped(ket.bits, target as int), amplitude: half },
                        ],
                    )
                } else {
                    None
                }
            },
            Gate::X { target } => Some(
                seq![KetView { bits: flipped(ket.bits, target as int), amplitude: ket.amplitude }],
            ),
            Gate::T { target } => Some(
                seq![
                    KetView {
                        bits: ket.bits,
                        amplitude: if ket.bits[target as int] {
                            ket.amplitude.times_omega()
                        } else {
                            ket.amplitude
                        },
                    },
                ],
            ),
            Gate::TDgr { target } => Some(
                seq![
                    KetView {
                        bits: ket.bits,
                        amplitude: if ket.bits[target as int] {
                            ket.amplitude.times_omega_inv()
                        } else {
                            ket.amplitude
                        },
                    },
                ],
            ),
            Gate::CX { control, target } => Some(
                seq![
                    KetView {
                        bits: if ket.bits[control as int] {
                            flipped(ket.bits, target as int)
                        } else {
                            ket.bits
                        },
                        amplitude: ket.amplitude,
                    },
                ],
            ),
            Gate::Toffoli { controls, target } => Some(
                seq![
                    KetView {
                        bits: if all_controls_set(controls@, ket.bits) {
                            flipped(ket.bits, target as int)
                        } else {
                            ket.bits
                        },
                        amplitude: ket.amplitude,
                    },
                ],
            ),
            Gate::Composite { gates } => run_stages(gates@, 0, seq![ket]),
        }
    }
}

/// The gates from index `from` on, applied in order: each to every ket that
/// the one before it produced.
pub open spec fn run_stages(gates: Seq<Gate>, from: nat, kets: Seq<KetView>) -> Option<
    Seq<KetView>,
>
    decreases gates, gates.len() - from,
{
    if from >= gates.len() {
        Some(kets)
    } else {
        match stage(gates[from as int], kets) {
            None => None,
            Some(next) => run_stages(gates, from + 1, next),
        }
    }
}

/// One gate applied to each ket of a sequence, from the last ket to the first:
/// the images of the last ket come first. Nothing is merged.
pub open spec fn stage(gate: Gate, kets: Seq<KetView>) -> Option<Seq<KetView>>
    decreases gate, kets.len(),
{
    if kets.len() == 0 {
        Some(Seq::empty())
    } else {
        match gate.images(kets.last()) {
            None => None,
            Some(first) => match stage(gate, kets.drop_last()) {
                None => None,
                Some(rest) => Some(first + rest),
            },
        }
    }
}

/// `prefix` put before a sequence that may be missing.
pub open spec fn prepend(prefix: Seq<KetView>, rest: Option<Seq<KetView>>) -> Option<Seq<KetView>> {
    match rest {
        None => None,
        Some(r) => Some(prefix + r),
    }
}

impl GateKetResult {
    /// The kets held, in order.
    pub open spec fn kets(self) -> Seq<KetView> {
        match self {
            GateKetResult::Ket(k) => seq![k@],
            GateKetResult::Kets(v) => views(v@),
            GateKetResult::NotImplemented(_) => Seq::empty(),
        }
    }

    /// Every ket held is well formed and `width` qubits wide.
    pub open spec fn wf(self, width: nat) -> bool {
        match self {
            GateKetResult::Ket(k) => k.wf() && k.bits().len() == width,
            GateKetResult::Kets(v) => all_wf(v@, width),
            GateKetResult::NotImplemented(_) => true,
        }
    }

    /// The kets held, as one list.
    pub fn into_kets(self) -> (r: Vec<Ket>)
        ensures
            views(r@) == self.kets(),
            forall|width: nat| self.wf(width) ==> all_wf(r@, width),
    {
        match self {
            GateKetResult::Ket(k) => {
                let mut out: Vec<Ket> = Vec::new();
                out.push(k);
                assert(views(out@) =~= seq![k@]);
                out
            },
            GateKetResult::Kets(v) => v,
            GateKetResult::NotImplemented(_) => {
                let out: Vec<Ket> = Vec::new();
                assert(views(out@) =~= Seq::<KetView>::empty());
                out
            },
        }
    }
}

impl Gate {
    /// Whether every qubit named by this gate is below `width`.
    pub fn fits_width(&self, width: usize) -> (r: bool)
        ensures
            r == self.in_range(width as nat),
        decreases self,
    {
        match self {
            Gate::H { target } => *target < width,
            Gate::X { target } => *target < width,
            Gate::T { target } => *target < width,
            Gate::TDgr { target } => *target < width,
            Gate::CX { control, target } => *control < width && *target < width,
            Gate::Toffoli { controls, target } => {
                if *target >= width {
                    return false;
                }
                let mut i: usize = 0;
                while i < controls.len()
                    invariant
                        i <= controls@.len(),
                        self is Toffoli,
                        self->controls == *controls,
                        forall|j: int| 0 <= j < i ==> #[trigger] controls@[j] < width,
                    decreases controls@.len() - i,
                {
                    if controls[i] >= width {
                        return false;
                    }
                    i += 1;
                }
                true
            },
            Gate::Composite { gates } => {
                let mut i: usize = 0;
                while i < gates.len()
                    invariant
                        i <= gates@.len(),
                        self is Composite,
                        self->gates == *gates,
                        forall|j: int| 0 <= j < i ==> (#[trigger] gates@[j]).in_range(width as nat),
                    decreases gates@.len() - i,
                {
                    if !gates[i].fits_width(width) {
                        return false;
                    }
                    i += 1;
                }
                true
            },
        }
    }
}

/// Whether every control bit of a ket is set.
fn controls_set(controls: &Vec<usize>, ket: &Ket) -> (r: bool)
    requires
        forall|i: int| 0 <= i < controls@.len() ==> #[trigger] controls@[i] < ket.bits().len(),
    ensures
        r == all_controls_set(controls@, ket.bits()),
{
    let mut i: usize = 0;
    while i < controls.len()
        invariant
            i <= controls@.len(),
            forall|j: int| 0 <= j < controls@.len() ==> #[trigger] controls@[j] < ket.bits().len(),
            forall|j: int| 0 <= j < i ==> ket.bits()[#[trigger] controls@[j] as int],
        decreases controls@.len() - i,
    {
        if !ket.bit(controls[i]) {
            return false;
        }
        i += 1;
    }
    true
}

/// A list of one ket.
fn single(ket: Ket) -> (r: Vec<Ket>)
    ensures
        r@ == seq![ket],
        views(r@) == seq![ket@],
{
    let mut out: Vec<Ket> = Vec::new();
    out.push(ket);
    assert(out@ =~= seq![ket]);
    assert(views(out@) =~= seq![ket@]);
    out
}

/// The images of one ket under a gate that is in range for it.
fn produce(gate: &Gate, ket: Ket) -> (r: Option<Vec<Ket>>)
    requires
        ket.wf(),
        gate.in_range(ket.bits().len()),
    ensures
        r is Some <==> gate.images(ket@) is Some,
        r matches Some(v) ==> gate.images(ket@) == Some(views(v@)) && all_wf(v@, ket.bits().len()),
    decreases gate,
{
    let ghost given = ket@;
    let mut image = ket;
    match gate {
        Gate::H { target } => {
            let half = match image.amplitude.halve() {
                Some(half) => half,
                None => {
                    return None;
                },
            };
            let mut other = image.duplicate();
            other.toggle(*target);
            other.amplitude = half;
            image.amplitude = if image.bit(*target) { half.negate() } else { half };
            let mut out: Vec<Ket> = Vec::new();
            out.push(image);
            out.push(other);
            assert(views(out@) =~= gate.images(given)->Some_0);
            Some(out)
        },
        Gate::X { target } => {
            image.toggle(*target);
            Some(single(image))
        },
        Gate::T { target } => {
            if image.bit(*target) {
                image.amplitude = image.amplitude.times_omega();
            }
            Some(single(image))
        },
        Gate::TDgr { target } => {
            if image.bit(*target) {
                image.amplitude = image.amplitude.times_omega_inv();
            }
            Some(single(image))
        },
        Gate::CX { control, target } => {
            if image.bit(*control) {
                image.toggle(*target);
            }
            Some(single(image))
        },
        Gate::Toffoli { controls, target } => {
            if controls_set(controls, &image) {
                image.toggle(*target);
            }
            Some(single(image))
        },
        Gate::Composite { gates } => {
            let ghost width = image.bits().len();
            let ghost start = seq![image@];
            let mut cur = single(image);
            let mut i: usize = 0;
            while i < gates.len()
                invariant
                    i <= gates@.len(),
                    gate is Composite,
                    gate->gates == *gates,
                    gate.in_range(width),
                    all_wf(cur@, width),
                    given == ket@,
                    gate.images(given) == run_stages(gates@, 0, start),
                    run_stages(gates@, i as nat, views(cur@)) == run_stages(gates@, 0, start),
                decreases gates@.len() - i,
            {
                let g = &gates[i];
                let ghost input = views(cur@);
                let mut out: Vec<Ket> = Vec::new();
                assert(views(out@) + input =~= input);
                while cur.len() > 0
                    invariant
                        i < gates@.len(),
                        gate is Composite,
                        gate->gates == *gates,
                        *g == gates@[i as int],
                        g.in_range(width),
                        all_wf(cur@, width),
                        all_wf(out@, width),
                        stage(*g, input) == prepend(views(out@), stage(*g, views(cur@))),
                        given == ket@,
                    gate.images(given) == run_stages(gates@, 0, start),
                        run_stages(gates@, i as nat, input) == run_stages(gates@, 0, start),
                    decreases cur@.len(),
                {
                    let ghost before = views(cur@);
                    let ghost done = views(out@);
                    let k = match cur.pop() {
                        Some(k) => k,
                        None => {
                            return None;
                        },
                    };
                    assert(views(cur@) =~= before.drop_last());
                    assert(k@ == before.last());
                    match produce(g, k) {
                        None => {
                            assert(stage(*g, before) is None);
                            assert(run_stages(gates@, i as nat, input) is None);
                            return None;
                        },
                        Some(more) => {
                            let mut more = more;
                            let ghost first = views(more@);
                            out.append(&mut more);
                            assert(views(out@) =~= done + first);
                            proof {
                                match stage(*g, views(cur@)) {
                                    None => {},
                                    Some(rest) => {
                                        assert((done + first) + rest =~= done + (first + rest));
                                    },
                                }
                            }
                        },
                    }
                }
                assert(views(cur@) =~= Seq::<KetView>::empty());
                assert(views(out@) + Seq::<KetView>::empty() =~= views(out@));
                cur = out;
                i += 1;
            }
            Some(cur)
        },
    }
}

/// Applies a gate to one ket.
///
/// A gate must name only qubits that the ket has: otherwise nothing is
/// applied and `IndexOutOfRange` is returned. The result holds the kets that
/// [`Gate::images`] lists, as `Ket` when there is exactly one and as `Kets`
/// otherwise; `NotImplemented` is never returned.
pub fn apply_gate_to_ket(gate: &Gate, ket: Ket) -> (r: Result<GateKetResult, SimError>)
    requires
        ket.wf(),
    ensures
        match r {
            Ok(res) => {
                &&& gate.in_range(ket.bits().len())
                &&& gate.images(ket@) == Some(res.kets())
                &&& res.wf(ket.bits().len())
                &&& res is Ket <==> res.kets().len() == 1
                &&& !(res is NotImplemented)
            },
            Err(e) => if gate.in_range(ket.bits().len()) {
                e == SimError::AmplitudeOverflow && gate.images(ket@) is None
            } else {
                e == SimError::IndexOutOfRange
            },
        },
{
    if !gate.fits_width(ket.width()) {
        return Err(SimError::IndexOutOfRange);
    }
    match produce(gate, ket) {
        None => Err(SimError::AmplitudeOverflow),
        Some(kets) => {
            let mut kets = kets;
            if kets.len() == 1 {
                let ghost before = kets@;
                match kets.pop() {
                    Some(only) => {
                        assert(views(before) =~= seq![only@]);
                        Ok(GateKetResult::Ket(only))
                    },
                    None => Ok(GateKetResult::Kets(kets)),
                }
            } else {
                Ok(GateKetResult::Kets(kets))
            }
        },
    }
}

/// What a gate that is in range makes of the kets of a state: starting from
/// `merged`, the images of each ket from index `from` on are inserted in turn.
pub open spec fn transform_from(
    gate: Gate,
    kets: Seq<KetView>,
    width: nat,
    from: nat,
    merged: Seq<KetView>,
) -> Result<Seq<KetView>, SimError>
    decreases kets.len() - from,
{
    if from >= kets.len() {
        Ok(merged)
    } else {
        match gate.images(kets[from as int]) {
            None => Err(SimError::AmplitudeOverflow),
            Some(produced) => match absorb_all(merged, width, produced, 0) {
                Err(e) => Err(e),
                Ok(next) => transform_from(gate, kets, width, from + 1, next),
            },
        }
    }
}

/// What a gate makes of the kets of a state `width` qubits wide.
pub open spec fn transform(gate: Gate, kets: Seq<KetView>, width: nat) -> Result<
    Seq<KetView>,
    SimError,
> {
    if gate.in_range(width) {
        transform_from(gate, kets, width, 0, Seq::empty())
    } else {
        Err(SimError::IndexOutOfRange)
    }
}

/// Applies a gate to a state: every image of every ket is inserted into a
/// fresh state of the same width, where equal bit patterns accumulate and
/// cancel. The state given is consumed; on an error no state is returned.
pub fn apply_gate_to_state(state: State, gate: &Gate) -> (r: Result<State, SimError>)
    requires
        state.wf(),
    ensures
        match transform(*gate, state.listing(), state.num_qubits as nat) {
            Ok(kets) => r matches Ok(next) && next.listing() == kets && next.wf() && next.num_qubits
                == state.num_qubits,
            Err(e) => r matches Err(x) && x == e,
        },
{
    let width = state.num_qubits;
    if !gate.fits_width(width) {
        return Err(SimError::IndexOutOfRange);
    }
    let ghost input = state.listing();
    let mut next = State::new(width);
    assert(next.listing() =~= Seq::<KetView>::empty());
    let mut i: usize = 0;
    while i < state.kets.len()
        invariant
            i <= state.kets@.len(),
            state.wf(),
            state.num_qubits == width,
            input == state.listing(),
            gate.in_range(width as nat),
            next.wf(),
            next.num_qubits == width,
            transform_from(*gate, input, width as nat, i as nat, next.listing()) == transform_from(
                *gate,
                input,
                width as nat,
                0,
                Seq::empty(),
            ),
        decreases state.kets@.len() - i,
    {
        assert(input[i as int].bits.len() == width);
        let produced = match apply_gate_to_ket(gate, state.kets[i].duplicate()) {
            Ok(result) => result.into_kets(),
            Err(e) => {
                return Err(e);
            },
        };
        let ghost merged = next.listing();
        let mut j: usize = 0;
        while j < produced.len()
            invariant
                j <= produced@.len(),
                i < input.len(),
                all_wf(produced@, width as nat),
                gate.images(input[i as int]) == Some(views(produced@)),
                transform_from(*gate, input, width as nat, i as nat, merged) == transform_from(
                    *gate,
                    input,
                    width as nat,
                    0,
                    Seq::empty(),
                ),
                transform(*gate, state.listing(), state.num_qubits as nat) == transform_from(
                    *gate,
                    input,
                    width as nat,
                    0,
                    Seq::empty(),
                ),
                next.wf(),
                next.num_qubits == width,
                absorb_all(next.listing(), width as nat, views(produced@), j as nat) == absorb_all(
                    merged,
                    width as nat,
                    views(produced@),
                    0,
                ),
            decreases produced@.len() - j,
        {
            match next.add_or_insert(produced[j].duplicate()) {
                Ok(()) => {},
                Err(e) => {
                    return Err(e);
                },
            }
            j += 1;
        }
        i += 1;
    }
    Ok(next)
}

/// The gates of a list from index `from` on, applied to the kets of a state
/// one after another.
pub open spec fn run(gates: Seq<Gate>, from: nat, kets: Seq<KetView>, width: nat) -> Result<
    Seq<KetView>,
    SimError,
>
    decreases gates.len() - from,
{
    if from >= gates.len() {
        Ok(kets)
    } else {
        match transform(gates[from as int], kets, width) {
            Err(e) => Err(e),
            Ok(next) => run(gates, from + 1, next, width),
        }
    }
}

/// Applies a list of gates to a state, one after another: each to the state
/// that the one before it left. The first error ends the run.
pub fn apply_gates_to_state(state: State, gates: &Vec<Gate>) -> (r: Result<State, SimError>)
    requires
        state.wf(),
    ensures
        match run(gates@, 0, state.listing(), state.num_qubits as nat) {
            Ok(kets) => r matches Ok(last) && last.listing() == kets && last.wf() && last.num_qubits
                == state.num_qubits,
            Err(e) => r matches Err(x) && x == e,
        },
{
    let ghost width = state.num_qubits as nat;
    let ghost start = state.listing();
    let mut current = state;
    let mut i: usize = 0;
    while i < gates.len()
        invariant
            i <= gates@.len(),
            current.wf(),
            current.num_qubits == width,
            width == state.num_qubits,
            start == state.listing(),
            run(gates@, i as nat, current.listing(), width) == run(gates@, 0, start, width),
        decreases gates@.len() - i,
    {
        match apply_gate_to_state(current, &gates[i]) {
            Ok(next) => {
                current = next;
            },
            Err(e) => {
                return Err(e);
            },
        }
        i += 1;
    }
    Ok(current)
}

} // verus!
