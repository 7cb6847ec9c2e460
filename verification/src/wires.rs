//! Wires that carry one binary digit each, gates that combine two wires
//! into a third, and the numbers that wires with a common initial stand
//! for.

use crate::arith::fits;
use vstd::arithmetic::overflow::CheckedU64;
use vstd::prelude::*;

verus! {

/// The number of digits that `decimal_to_bits` gives.
pub const WIDTH: usize = 46;

/// The number with the binary digits `binary`, the first digit being the
/// one of the highest value.
pub open spec fn value_of(binary: Seq<bool>) -> nat
    decreases binary.len(),
{
    if binary.len() == 0 {
        0
    } else {
        2 * value_of(binary.drop_last()) + if binary.last() {
            1nat
        } else {
            0nat
        }
    }
}

/// The number with the given binary digits, highest first; `None` where
/// it does not fit in 64 bits.
pub fn decimal_value(binary: &[bool]) -> (val: Option<u64>)
    ensures
        fits(val, value_of(binary@) as int),
{
    let mut val = CheckedU64::new(0);
    let mut i: usize = 0;
    while i < binary.len()
        invariant
            i <= binary.len(),
            val@ == value_of(binary@.take(i as int)),
        decreases binary.len() - i,
    {
        assert(binary@.take(i + 1).drop_last() =~= binary@.take(i as int));
        val = val.mul_value(2);
        if binary[i] {
            val = val.add_value(1);
        }
        i += 1;
    }
    assert(binary@.take(binary.len() as int) =~= binary@);
    val.to_option()
}

/// Binary digit number `i` of `n`, counted from the digit of the lowest
/// value.
pub open spec fn bit_of(n: u64, i: int) -> bool {
    (n >> (i as u64)) & 1 == 1
}

/// The lowest 46 binary digits of `n`, the highest of them first.
pub fn decimal_to_bits(n: u64) -> (bits: Vec<bool>)
    ensures
        bits.len() == WIDTH,
        forall|k: int| 0 <= k < WIDTH ==> bits[k] == bit_of(n, WIDTH - 1 - k),
{
    let mut bits: Vec<bool> = Vec::new();
    let mut i: usize = WIDTH;
    while i > 0
        invariant
            i <= WIDTH,
            bits.len() == WIDTH - i,
            forall|k: int| 0 <= k < bits.len() ==> bits[k] == bit_of(n, WIDTH - 1 - k),
        decreases i,
    {
        i -= 1;
        let bit = ((n >> (i as u64)) & 1) == 1;
        bits.push(bit);
    }
    bits
}

/// What a gate does with its two inputs.
#[derive(Clone, Copy, Debug, PartialEq, Eq, Structural)]
pub enum Operation {
    And,
    Or,
    Xor,
}

/// A gate: the numbers of its two input wires and of its output wire, and
/// its operation.
#[derive(Clone, Copy, Debug)]
pub struct Gate {
    pub left: usize,
    pub right: usize,
    pub out: usize,
    pub kind: Operation,
}

/// A circuit: the names of the wires, the digits that the wires carry, as
/// far as they are known, and the gates. A wire is known by its place in
/// the two lists.
pub struct Circuit {
    pub names: Vec<Vec<char>>,
    pub values: Vec<Option<bool>>,
    pub gates: Vec<Gate>,
}

/// The name `a` comes before the name `b` from place `i` on, given that
/// they agree before it: at the first place where they differ `a` has the
/// smaller character, or `a` ends there and `b` goes on.
pub open spec fn comes_before(a: Seq<char>, b: Seq<char>, i: int) -> bool
    decreases a.len() - i,
{
    if i < 0 || i >= a.len() {
        i < b.len()
    } else if i >= b.len() {
        false
    } else if a[i] != b[i] {
        (a[i] as u32) < (b[i] as u32)
    } else {
        comes_before(a, b, i + 1)
    }
}

/// Wire `w` is known and its name starts with `query`.
pub open spec fn selected(names: Seq<Vec<char>>, values: Seq<Option<bool>>, query: char, w: int) -> bool {
    &&& 0 <= w < names.len()
    &&& w < values.len()
    &&& values[w].is_some()
    &&& names[w].len() > 0
    &&& names[w][0] == query
}

/// The number of selected wires below number `upto` whose name comes
/// before the name of wire `w`.
pub open spec fn below(
    names: Seq<Vec<char>>,
    values: Seq<Option<bool>>,
    query: char,
    w: int,
    upto: int,
) -> nat
    decreases upto,
{
    if upto <= 0 {
        0
    } else {
        below(names, values, query, w, upto - 1) + if selected(names, values, query, upto - 1)
            && comes_before(names[upto - 1]@, names[w]@, 0) {
            1nat
        } else {
            0nat
        }
    }
}

/// Two to the power `n`.
pub open spec fn two_to(n: nat) -> nat
    decreases n,
{
    if n == 0 {
        1
    } else {
        2 * two_to((n - 1) as nat)
    }
}

/// The number that the selected wires below number `upto` stand for: a
/// wire that carries a 1 counts two to the power of the number of selected
/// wires whose name comes before its own, so that the wire with the first
/// name carries the digit of the lowest value.
pub open spec fn wire_value(names: Seq<Vec<char>>, values: Seq<Option<bool>>, query: char, upto: int) -> nat
    decreases upto,
{
    if upto <= 0 {
        0
    } else {
        wire_value(names, values, query, upto - 1) + if selected(names, values, query, upto - 1)
            && values[upto - 1] == Some(true) {
            two_to(below(names, values, query, upto - 1, names.len() as int))
        } else {
            0nat
        }
    }
}

fn before(a: &Vec<char>, b: &Vec<char>) -> (less: bool)
    ensures
        less == comes_before(a@, b@, 0),
{
    let mut i: usize = 0;
    while i < a.len() && i < b.len() && a[i] == b[i]
        invariant
            i <= a.len(),
            i <= b.len(),
            comes_before(a@, b@, i as int) == comes_before(a@, b@, 0),
        decreases a.len() - i,
    {
        i += 1;
    }
    if i >= a.len() {
        i < b.len()
    } else if i >= b.len() {
        false
    } else {
        (a[i] as u32) < (b[i] as u32)
    }
}

fn is_selected(names: &Vec<Vec<char>>, values: &Vec<Option<bool>>, query: char, w: usize) -> (yes: bool)
    ensures
        yes == selected(names@, values@, query, w as int),
{
    w < names.len() && w < values.len() && values[w].is_some() && names[w].len() > 0 && names[w][0]
        == query
}

/// The number that the known wires whose name starts with `query` stand
/// for, the wire with the first name carrying the digit of the lowest
/// value; `None` where it does not fit in 64 bits.
pub fn extract_value(names: &Vec<Vec<char>>, values: &Vec<Option<bool>>, query: char) -> (val: Option<
    u64,
>)
    ensures
        fits(val, wire_value(names@, values@, query, names.len() as int) as int),
{
    let mut val = CheckedU64::new(0);
    let mut w: usize = 0;
    while w < names.len()
        invariant
            w <= names.len(),
            val@ == wire_value(names@, values@, query, w as int),
        decreases names.len() - w,
    {
        if is_selected(names, values, query, w) && values[w] == Some(true) {
            let mut weight = CheckedU64::new(1);
            let mut v: usize = 0;
            while v < names.len()
                invariant
                    v <= names.len(),
                    w < names.len(),
                    weight@ == two_to(below(names@, values@, query, w as int, v as int)),
                decreases names.len() - v,
            {
                if is_selected(names, values, query, v) && before(&names[v], &names[w]) {
                    weight = weight.mul_value(2);
                }
                v += 1;
            }
            val = val.add_checked(&weight);
        }
        w += 1;
    }
    val.to_option()
}

/// The digit that a gate of this kind makes of two digits.
pub open spec fn combine(kind: Operation, left: bool, right: bool) -> bool {
    match kind {
        Operation::And => left && right,
        Operation::Or => left || right,
        Operation::Xor => left != right,
    }
}

/// The digits after the first `upto` gates have worked once, in order: a
/// gate whose two inputs are known puts its digit on its output wire.
pub open spec fn pass(values: Seq<Option<bool>>, gates: Seq<Gate>, upto: int) -> Seq<Option<bool>>
    decreases upto,
{
    if upto <= 0 {
        values
    } else {
        let before = pass(values, gates, upto - 1);
        let gate = gates[upto - 1];
        if gate.left < before.len() && gate.right < before.len() && gate.out < before.len()
            && before[gate.left as int].is_some() && before[gate.right as int].is_some() {
            before.update(
                gate.out as int,
                Some(
                    combine(
                        gate.kind,
                        before[gate.left as int].unwrap(),
                        before[gate.right as int].unwrap(),
                    ),
                ),
            )
        } else {
            before
        }
    }
}

/// The output wire of a gate is a target where its name starts with `z`.
pub open spec fn is_target(names: Seq<Vec<char>>, gate: Gate) -> bool {
    gate.out < names.len() && names[gate.out as int].len() > 0 && names[gate.out as int][0] == 'z'
}

/// The targets among the outputs of the first `upto` gates are all known.
pub open spec fn targets_known(names: Seq<Vec<char>>, values: Seq<Option<bool>>, gates: Seq<Gate>, upto: int) -> bool {
    forall|g: int|
        0 <= g < upto && g < gates.len() && is_target(names, #[trigger] gates[g]) ==> gates[g].out
            < values.len() && values[gates[g].out as int].is_some()
}

/// The digits once all targets are known, after as many passes over the
/// gates as that takes; `None` where `passes` passes are not enough.
pub open spec fn settled(
    names: Seq<Vec<char>>,
    values: Seq<Option<bool>>,
    gates: Seq<Gate>,
    passes: nat,
) -> Option<Seq<Option<bool>>>
    decreases passes,
{
    if targets_known(names, values, gates, gates.len() as int) {
        Some(values)
    } else if passes == 0 {
        None
    } else {
        settled(names, pass(values, gates, gates.len() as int), gates, (passes - 1) as nat)
    }
}

fn gate_result(kind: Operation, left: bool, right: bool) -> (out: bool)
    ensures
        out == combine(kind, left, right),
{
    match kind {
        Operation::And => left && right,
        Operation::Or => left || right,
        Operation::Xor => left != right,
    }
}

fn all_targets_known(names: &Vec<Vec<char>>, values: &Vec<Option<bool>>, gates: &Vec<Gate>) -> (yes: bool)
    ensures
        yes == targets_known(names@, values@, gates@, gates.len() as int),
{
    let mut g: usize = 0;
    while g < gates.len()
        invariant
            g <= gates.len(),
            targets_known(names@, values@, gates@, g as int),
        decreases gates.len() - g,
    {
        let out = gates[g].out;
        if out < names.len() && names[out].len() > 0 && names[out][0] == 'z' {
            if out >= values.len() || values[out].is_none() {
                return false;
            }
        }
        g += 1;
    }
    true
}

fn one_pass(values: &mut Vec<Option<bool>>, gates: &Vec<Gate>)
    ensures
        final(values)@ == pass(old(values)@, gates@, gates.len() as int),
{
    let mut g: usize = 0;
    while g < gates.len()
        invariant
            g <= gates.len(),
            values@ == pass(old(values)@, gates@, g as int),
        decreases gates.len() - g,
    {
        let gate = gates[g];
        if gate.left < values.len() && gate.right < values.len() && gate.out < values.len() {
            match (values[gate.left], values[gate.right]) {
                (Some(left), Some(right)) => {
                    values.set(gate.out, Some(gate_result(gate.kind, left, right)));
                },
                _ => {},
            }
        }
        g += 1;
    }
}

/// The number of passes after which a circuit that settles at all has
/// settled: one for every gate.
pub open spec fn pass_limit(gates: Seq<Gate>) -> nat {
    gates.len()
}

/// The number that the wires whose name starts with `z` stand for once the
/// gates have worked: the gates work pass by pass, in order, until every
/// output wire whose name starts with `z` is known. `None` where that is
/// not so after one pass for every gate, or where the number does not fit
/// in 64 bits.
pub fn part1(circuit: &Circuit) -> (val: Option<u64>)
    ensures
        match settled(circuit.names@, circuit.values@, circuit.gates@, pass_limit(circuit.gates@)) {
            Some(values) => fits(val, wire_value(circuit.names@, values, 'z', circuit.names.len() as int) as int),
            None => val.is_none(),
        },
{
    let mut values = circuit.values.clone();
    let mut left = circuit.gates.len();
    loop
        invariant
            settled(circuit.names@, values@, circuit.gates@, left as nat) == settled(
                circuit.names@,
                circuit.values@,
                circuit.gates@,
                pass_limit(circuit.gates@),
            ),
        decreases left,
    {
        if all_targets_known(&circuit.names, &values, &circuit.gates) {
            return extract_value(&circuit.names, &values, 'z');
        }
        if left == 0 {
            return None;
        }
        one_pass(&mut values, &circuit.gates);
        left -= 1;
    }
}

} // verus!
