//! From the lines of a circuit description to gates.

use crate::error::SimError;
use crate::gates::gate::Gate;
use vstd::prelude::*;

verus! {

/// One instruction line, already split into a gate's name and the qubits
/// it names.
pub enum GateLineResult {
    SingleTarget { gate_name: String, target: usize },
    MultiTarget { gate_name: String, targets: Vec<usize> },
}

impl GateLineResult {
    /// Name of a gate, as written.
    pub open spec fn name(self) -> Seq<char> {
        match self {
            GateLineResult::SingleTarget { gate_name, target } => gate_name@,
            GateLineResult::MultiTarget { gate_name, targets } => gate_name@,
        }
    }

    /// The qubits named, in the order of the line.
    pub open spec fn operands(self) -> Seq<usize> {
        match self {
            GateLineResult::SingleTarget { gate_name, target } => seq![target],
            GateLineResult::MultiTarget { gate_name, targets } => targets@,
        }
    }
}

/// Whether the engine has a gate of this name for this many operands.
pub open spec fn supported(name: Seq<char>, operands: nat) -> bool {
    ||| (name == "h"@ || name == "x"@ || name == "t"@ || name == "tdg"@) && operands == 1
    ||| name == "cx"@ && operands == 2
    ||| name == "ccx"@ && operands >= 2
}

/// Whether `gate` is what an instruction with this name and these operands
/// asks for. Of a multi-control gate the last operand is the target.
pub open spec fn describes(name: Seq<char>, operands: Seq<usize>, gate: Gate) -> bool {
    ||| name == "h"@ && operands.len() == 1 && gate == (Gate::H { target: operands[0] })
    ||| name == "x"@ && operands.len() == 1 && gate == (Gate::X { target: operands[0] })
    ||| name == "t"@ && operands.len() == 1 && gate == (Gate::T { target: operands[0] })
    ||| name == "tdg"@ && operands.len() == 1 && gate == (Gate::TDgr { target: operands[0] })
    ||| name == "cx"@ && operands.len() == 2 && gate == (Gate::CX {
        control: operands[0],
        target: operands[1],
    })
    ||| name == "ccx"@ && operands.len() >= 2 && (gate matches Gate::Toffoli { controls, target }
        && controls@ == operands.drop_last() && target == operands.last())
}

/// Whether a name is the given word.
fn named(name: &String, literal: &str) -> (r: bool)
    ensures
        r == (name@ == literal@),
{
    let other = literal.to_owned();
    *name == other
}

/// Builds what an instruction line asks for, or `UnsupportedGate` where
/// the engine has none of that name for that many operands.
pub fn build_gate_from_line_result(line_result: GateLineResult) -> (r: Result<Gate, SimError>)
    ensures
        match r {
            Ok(gate) => describes(line_result.name(), line_result.operands(), gate),
            Err(e) => e == SimError::UnsupportedGate && !supported(
                line_result.name(),
                line_result.operands().len(),
            ),
        },
{
    proof {
        reveal_strlit("h");
        reveal_strlit("x");
        reveal_strlit("t");
        reveal_strlit("tdg");
        reveal_strlit("cx");
        reveal_strlit("ccx");
    }
    match line_result {
        GateLineResult::SingleTarget { gate_name, target } => {
            match single_qubit_gate(&gate_name, target) {
                Some(gate) => Ok(gate),
                None => Err(SimError::UnsupportedGate),
            }
        },
        GateLineResult::MultiTarget { gate_name, targets } => {
            let mut targets = targets;
            let ghost operands = targets@;
            if targets.len() == 1 {
                match single_qubit_gate(&gate_name, targets[0]) {
                    Some(gate) => Ok(gate),
                    None => Err(SimError::UnsupportedGate),
                }
            } else if targets.len() == 2 && named(&gate_name, "cx") {
                Ok(Gate::CX { control: targets[0], target: targets[1] })
            } else if targets.len() >= 2 && named(&gate_name, "ccx") {
                match targets.pop() {
                    Some(target) => {
                        assert(targets@ =~= operands.drop_last());
                        Ok(Gate::Toffoli { controls: targets, target })
                    },
                    None => Err(SimError::UnsupportedGate),
                }
            } else {
                Err(SimError::UnsupportedGate)
            }
        },
    }
}

/// The single-qubit gate of the given name, if there is one.
fn single_qubit_gate(name: &String, target: usize) -> (r: Option<Gate>)
    ensures
        match r {
            Some(gate) => describes(name@, seq![target], gate),
            None => !supported(name@, 1),
        },
{
    proof {
        reveal_strlit("h");
        reveal_strlit("x");
        reveal_strlit("t");
        reveal_strlit("tdg");
        reveal_strlit("cx");
        reveal_strlit("ccx");
    }
    if named(name, "h") {
        Some(Gate::H { target })
    } else if named(name, "x") {
        Some(Gate::X { target })
    } else if named(name, "t") {
        Some(Gate::T { target })
    } else if named(name, "tdg") {
        Some(Gate::TDgr { target })
    } else {
        None
    }
}

/// What `regex` finds first in `text` for `pattern`: the text of the
/// leftmost match, or `None` where there is no match or the pattern does not
/// compile.
pub uninterp spec fn regex_find(pattern: Seq<char>, text: Seq<char>) -> Option<Seq<char>>;

/// What `regex` captures in `text` for `pattern`: for each match, from left
/// to right, the text of its first group where that group took part. `None`
/// where the pattern does not compile.
pub uninterp spec fn regex_groups(pattern: Seq<char>, text: Seq<char>) -> Option<
    Seq<Option<Seq<char>>>,
>;

/// The text of each captured group.
pub open spec fn texts(groups: Seq<Option<String>>) -> Seq<Option<Seq<char>>> {
    groups.map_values(
        |g: Option<String>|
            match g {
                Some(s) => Some(s@),
                None => None,
            },
    )
}

/// `Regex::new` and `Regex::find`: the leftmost match of the pattern, which
/// depends on pattern and text alone. Nothing is claimed of what matches.
#[verifier::external_body]
fn first_match(pattern: &str, text: &str) -> (r: Option<String>)
    ensures
        regex_find(pattern@, text@) == (match r {
            Some(s) => Some(s@),
            None => None,
        }),
{
    match regex::Regex::new(pattern) {
        Ok(re) => re.find(text).map(|m| m.as_str().to_string()),
        Err(_) => None,
    }
}

/// `Regex::new` and `Regex::captures_iter`: the first group of each match,
/// which depends on pattern and text alone. Nothing is claimed of what
/// matches.
#[verifier::external_body]
fn first_groups(pattern: &str, text: &str) -> (r: Option<Vec<Option<String>>>)
    ensures
        regex_groups(pattern@, text@) == (match r {
            Some(groups) => Some(texts(groups@)),
            None => None,
        }),
{
    match regex::Regex::new(pattern) {
        Ok(re) => Some(
            re.captures_iter(text).map(|c| c.get(1).map(|m| m.as_str().to_string())).collect(),
        ),
        Err(_) => None,
    }
}

/// Whether a character is one of `0` to `9`.
pub open spec fn is_digit(c: char) -> bool {
    48 <= c as u32 <= 57
}

/// The number that a string of decimal digits writes.
pub open spec fn decimal_value(s: Seq<char>) -> nat
    decreases s.len(),
{
    if s.len() == 0 {
        0
    } else {
        decimal_value(s.drop_last()) * 10 + (s.last() as u32 - 48) as nat
    }
}

/// Whether a string writes a number that fits a machine word: digits only,
/// at least one.
pub open spec fn is_index(s: Seq<char>) -> bool {
    &&& s.len() > 0
    &&& forall|i: int| 0 <= i < s.len() ==> is_digit(#[trigger] s[i])
    &&& decimal_value(s) <= usize::MAX
}

/// The digits read so far never write more than all of them.
proof fn lemma_decimal_prefix(s: Seq<char>, n: int)
    requires
        0 <= n <= s.len(),
        forall|i: int| 0 <= i < s.len() ==> is_digit(#[trigger] s[i]),
    ensures
        decimal_value(s.take(n)) <= decimal_value(s),
    decreases s.len() - n,
{
    if n < s.len() {
        assert(s.take(n + 1).drop_last() =~= s.take(n));
        assert(s.take(n + 1).last() == s[n]);
        lemma_decimal_prefix(s, n + 1);
    } else {
        assert(s.take(n) =~= s);
    }
}

/// The number that a string of decimal digits writes, where it fits a
/// machine word.
pub fn parse_index(text: &str) -> (r: Option<usize>)
    ensures
        r is Some <==> is_index(text@),
        r matches Some(v) ==> v == decimal_value(text@),
{
    let n = text.unicode_len();
    if n == 0 {
        return None;
    }
    let mut value: usize = 0;
    let mut i: usize = 0;
    assert(text@.take(0) =~= Seq::<char>::empty());
    while i < n
        invariant
            i <= n,
            n == text@.len(),
            value == decimal_value(text@.take(i as int)),
            forall|j: int| 0 <= j < i ==> is_digit(#[trigger] text@[j]),
        decreases n - i,
    {
        let c = text.get_char(i);
        let code = c as u32;
        if code < 48 || code > 57 {
            return None;
        }
        let digit: usize = (code - 48) as usize;
        assert(text@.take(i + 1).drop_last() =~= text@.take(i as int));
        assert(text@.take(i + 1).last() == text@[i as int]);
        if value > (usize::MAX - digit) / 10 {
            proof {
                if forall|j: int| 0 <= j < text@.len() ==> is_digit(#[trigger] text@[j]) {
                    lemma_decimal_prefix(text@, i + 1);
                }
            }
            return None;
        }
        value = value * 10 + digit;
        i += 1;
    }
    assert(text@.take(n as int) =~= text@);
    Some(value)
}

/// The operands that the captured groups write, where each is an index.
pub open spec fn operands_of(groups: Seq<Option<Seq<char>>>) -> Option<Seq<usize>> {
    if forall|i: int| 0 <= i < groups.len() ==> (#[trigger] groups[i]) is Some && is_index(
        groups[i]->Some_0,
    ) {
        Some(Seq::new(groups.len(), |i: int| decimal_value(groups[i]->Some_0) as usize))
    } else {
        None
    }
}

/// Name and operands of the instruction line that was matched, if its name
/// was found and each operand is an index.
pub open spec fn line_of(name: Option<Seq<char>>, groups: Option<Seq<Option<Seq<char>>>>)
    -> Option<(Seq<char>, Seq<usize>)> {
    match (name, groups) {
        (Some(n), Some(g)) => match operands_of(g) {
            Some(operands) => Some((n, operands)),
            None => None,
        },
        _ => None,
    }
}

/// An instruction line from what was matched in it: the leading word and
/// the index of each qubit named. One operand makes a `SingleTarget`, any
/// other number a `MultiTarget`.
pub fn gate_line_from_matches(name: Option<String>, groups: Option<Vec<Option<String>>>) -> (r:
    Option<GateLineResult>)
    ensures
        match r {
            Some(line) => {
                &&& groups is Some
                &&& name is Some
                &&& line_of(Some(name->Some_0@), Some(texts(groups->Some_0@))) == Some(
                    (line.name(), line.operands()),
                )
                &&& line is SingleTarget <==> line.operands().len() == 1
            },
            None => name is None || groups is None || line_of(
                Some(name->Some_0@),
                Some(texts(groups->Some_0@)),
            ) is None,
        },
{
    let gate_name = match name {
        Some(n) => n,
        None => {
            return None;
        },
    };
    let found = match groups {
        Some(g) => g,
        None => {
            return None;
        },
    };
    let mut targets: Vec<usize> = Vec::new();
    let mut i: usize = 0;
    while i < found.len()
        invariant
            i <= found@.len(),
            targets@.len() == i,
            name == Some(gate_name),
            groups == Some(found),
            forall|j: int|
                0 <= j < i ==> (#[trigger] texts(found@)[j]) is Some && is_index(
                    texts(found@)[j]->Some_0,
                ) && targets@[j] == decimal_value(texts(found@)[j]->Some_0),
        decreases found@.len() - i,
    {
        let index = match &found[i] {
            Some(text) => parse_index(text.as_str()),
            None => None,
        };
        match index {
            Some(v) => {
                targets.push(v);
            },
            None => {
                assert(!((texts(found@)[i as int]) is Some && is_index(
                    texts(found@)[i as int]->Some_0,
                )));
                return None;
            },
        }
        i += 1;
    }
    assert(operands_of(texts(found@)) is Some);
    assert(targets@ =~= operands_of(texts(found@))->Some_0);
    if targets.len() == 1 {
        let target = targets[0];
        assert(seq![target] =~= targets@);
        Some(GateLineResult::SingleTarget { gate_name, target })
    } else {
        Some(GateLineResult::MultiTarget { gate_name, targets })
    }
}

/// Reads one instruction line: its name is the leading run of word
/// characters, its operands are the numbers written after each `q`, in
/// brackets or not. What matches is `regex`'s to say; the line is then put
/// together as [`gate_line_from_matches`] says.
pub fn parse_gate_line(line: &str) -> (r: Option<GateLineResult>)
    ensures
        match r {
            Some(found) => {
                &&& line_of(regex_find(r"^\w+"@, line@), regex_groups(r"q\[*(\d+)\]*"@, line@))
                    == Some((found.name(), found.operands()))
                &&& found is SingleTarget <==> found.operands().len() == 1
            },
            None => line_of(regex_find(r"^\w+"@, line@), regex_groups(r"q\[*(\d+)\]*"@, line@))
                is None,
        },
{
    let name = first_match(r"^\w+", line);
    let groups = first_groups(r"q\[*(\d+)\]*", line);
    gate_line_from_matches(name, groups)
}

} // verus!
