//! A machine with three registers and eight instructions on three-bit
//! operands, and the search for the smallest value of register A that makes
//! a program of the usual loop shape print itself.

use vstd::arithmetic::div_mod::lemma_basic_div;
use vstd::arithmetic::power2::{lemma2_to64, lemma_pow2_strictly_increases, pow2};
use vstd::bits::lemma_u64_shr_is_div;
use vstd::prelude::*;

verus! {

/// The registers, the index of the next instruction and what was printed.
pub struct Machine {
    pub a: u64,
    pub b: u64,
    pub c: u64,
    pub pointer: int,
    pub output: Seq<u8>,
}

/// The value of a combo operand: 0 to 3 stand for themselves, 4 to 6 for
/// the registers A, B and C. 7 is reserved and has no value of its own.
pub open spec fn combo_value(operand: u8, a: u64, b: u64, c: u64) -> u64 {
    if operand < 4 {
        operand as u64
    } else if operand == 4 {
        a
    } else if operand == 5 {
        b
    } else if operand == 6 {
        c
    } else {
        0
    }
}

/// The opcodes whose operand is a combo operand.
pub open spec fn takes_combo(opcode: u8) -> bool {
    opcode == 0 || opcode == 2 || opcode == 5 || opcode == 6 || opcode == 7
}

/// Every opcode is one of the eight, and no combo operand is above 6.
pub open spec fn program_ok(program: Seq<[u8; 2]>) -> bool {
    forall|i: int|
        0 <= i < program.len() ==> {
            &&& (#[trigger] program[i])[0] <= 7
            &&& takes_combo(program[i][0]) ==> program[i][1] <= 6
        }
}

/// `a` divided by two to the power `by`, rounded down.
pub open spec fn divided(a: u64, by: u64) -> u64 {
    (a as nat / pow2(by as nat)) as u64
}

/// The machine after the instruction at its pointer; a machine whose
/// pointer is past the end of the program stays as it is.
pub open spec fn step(m: Machine, program: Seq<[u8; 2]>) -> Machine {
    if !(0 <= m.pointer < program.len()) {
        m
    } else {
        let opcode = program[m.pointer][0];
        let operand = program[m.pointer][1];
        let combo = combo_value(operand, m.a, m.b, m.c);
        let next = m.pointer + 1;
        if opcode == 0 {
            Machine { a: divided(m.a, combo), pointer: next, ..m }
        } else if opcode == 1 {
            Machine { b: m.b ^ (operand as u64), pointer: next, ..m }
        } else if opcode == 2 {
            Machine { b: combo % 8, pointer: next, ..m }
        } else if opcode == 3 {
            if m.a != 0 {
                Machine { pointer: operand as int, ..m }
            } else {
                Machine { pointer: next, ..m }
            }
        } else if opcode == 4 {
            Machine { b: m.b ^ m.c, pointer: next, ..m }
        } else if opcode == 5 {
            Machine { output: m.output.push((combo % 8) as u8), pointer: next, ..m }
        } else if opcode == 6 {
            Machine { b: divided(m.a, combo), pointer: next, ..m }
        } else {
            Machine { c: divided(m.a, combo), pointer: next, ..m }
        }
    }
}

/// The machine after `n` instructions.
pub open spec fn run(m: Machine, program: Seq<[u8; 2]>, n: nat) -> Machine
    decreases n,
{
    if n == 0 {
        m
    } else {
        step(run(m, program, (n - 1) as nat), program)
    }
}

/// The pointer is past the end of the program.
pub open spec fn halted(m: Machine, program: Seq<[u8; 2]>) -> bool {
    !(0 <= m.pointer < program.len())
}

/// The machine gets past the end of the program after some number of
/// instructions.
pub open spec fn halts(m: Machine, program: Seq<[u8; 2]>) -> bool {
    exists|n: nat| halted(#[trigger] run(m, program, n), program)
}

/// The machine as it stands when it has halted.
pub open spec fn outcome(m: Machine, program: Seq<[u8; 2]>) -> Machine {
    run(m, program, choose|n: nat| halted(#[trigger] run(m, program, n), program))
}

/// The machine that starts a program with the given registers.
pub open spec fn initial(a: u64, b: u64, c: u64) -> Machine {
    Machine { a, b, c, pointer: 0, output: Seq::empty() }
}

/// A halted machine does not change any more.
pub proof fn lemma_halted_stays(m: Machine, program: Seq<[u8; 2]>, n: nat, later: nat)
    requires
        halted(run(m, program, n), program),
        n <= later,
    ensures
        run(m, program, later) == run(m, program, n),
    decreases later,
{
    if later > n {
        lemma_halted_stays(m, program, n, (later - 1) as nat);
    }
}

/// The same registers and the same program give the same output and the
/// same final registers, whatever number of instructions the machine is
/// watched for once it has halted.
pub proof fn lemma_outcome_is_determined(m: Machine, program: Seq<[u8; 2]>, n: nat)
    requires
        halted(run(m, program, n), program),
    ensures
        run(m, program, n) == outcome(m, program),
{
    let k = choose|k: nat| halted(#[trigger] run(m, program, k), program);
    if k <= n {
        lemma_halted_stays(m, program, k, n);
    } else {
        lemma_halted_stays(m, program, n, k);
    }
}

proof fn lemma_shift_divides(a: u64, by: u64)
    ensures
        by < 64 ==> a >> by == divided(a, by),
        by >= 64 ==> divided(a, by) == 0,
{
    if by < 64 {
        lemma_u64_shr_is_div(a, by);
    } else {
        lemma2_to64();
        if by > 64 {
            lemma_pow2_strictly_increases(64, by as nat);
        }
        lemma_basic_div(a as int, pow2(by as nat) as int);
    }
}

/// The value that a combo operand stands for.
pub fn combo(operand: u8, register_a: u64, register_b: u64, register_c: u64) -> (value: u64)
    requires
        operand <= 6,
    ensures
        value == combo_value(operand, register_a, register_b, register_c),
{
    if operand < 4 {
        operand as u64
    } else if operand == 4 {
        register_a
    } else if operand == 5 {
        register_b
    } else {
        register_c
    }
}

fn divide(a: u64, by: u64) -> (q: u64)
    ensures
        q == divided(a, by),
{
    proof {
        lemma_shift_divides(a, by);
    }
    if by >= 64 {
        0
    } else {
        a >> by
    }
}

/// Runs the program from its first instruction until the pointer steps past
/// its end, and returns the registers A, B, C and the output.
pub fn run_program(
    register_a: u64,
    register_b: u64,
    register_c: u64,
    instructions: &Vec<[u8; 2]>,
) -> (end: (u64, u64, u64, Vec<u8>))
    requires
        program_ok(instructions@),
        halts(initial(register_a, register_b, register_c), instructions@),
    ensures
        ({
            let last = outcome(initial(register_a, register_b, register_c), instructions@);
            &&& end.0 == last.a
            &&& end.1 == last.b
            &&& end.2 == last.c
            &&& end.3@ == last.output
        }),
{
    let ghost program = instructions@;
    let ghost first = initial(register_a, register_b, register_c);
    let ghost time = choose|n: nat| halted(#[trigger] run(first, program, n), program);
    let ghost mut done: nat = 0;
    let mut reg_a = register_a;
    let mut reg_b = register_b;
    let mut reg_c = register_c;
    let mut pointer: usize = 0;
    let mut output: Vec<u8> = Vec::new();
    while pointer < instructions.len()
        invariant
            program == instructions@,
            program_ok(program),
            halted(run(first, program, time), program),
            run(first, program, done) == (Machine {
                a: reg_a,
                b: reg_b,
                c: reg_c,
                pointer: pointer as int,
                output: output@,
            }),
            done <= time,
        decreases time - done,
    {
        proof {
            if done == time {
                assert(false);
            }
            assert(run(first, program, done + 1) == step(run(first, program, done), program));
        }
        let instruction = instructions[pointer];
        let opcode = instruction[0];
        let operand = instruction[1];
        assert(program[pointer as int][0] == opcode);
        assert(program[pointer as int][1] == operand);
        if opcode == 0 {
            reg_a = divide(reg_a, combo(operand, reg_a, reg_b, reg_c));
            pointer += 1;
        } else if opcode == 1 {
            reg_b = reg_b ^ (operand as u64);
            pointer += 1;
        } else if opcode == 2 {
            reg_b = combo(operand, reg_a, reg_b, reg_c) % 8;
            pointer += 1;
        } else if opcode == 3 {
            if reg_a != 0 {
                pointer = operand as usize;
            } else {
                pointer += 1;
            }
        } else if opcode == 4 {
            reg_b = reg_b ^ reg_c;
            pointer += 1;
        } else if opcode == 5 {
            output.push((combo(operand, reg_a, reg_b, reg_c) % 8) as u8);
            pointer += 1;
        } else if opcode == 6 {
            reg_b = divide(reg_a, combo(operand, reg_a, reg_b, reg_c));
            pointer += 1;
        } else {
            reg_c = divide(reg_a, combo(operand, reg_a, reg_b, reg_c));
            pointer += 1;
        }
        proof {
            done = done + 1;
        }
    }
    proof {
        lemma_outcome_is_determined(first, program, done);
    }
    (reg_a, reg_b, reg_c, output)
}

/// No instruction of the program is a jump.
pub open spec fn straight_line(program: Seq<[u8; 2]>) -> bool {
    forall|i: int| 0 <= i < program.len() ==> (#[trigger] program[i])[0] != 3
}

proof fn lemma_pointer_advances(m: Machine, program: Seq<[u8; 2]>, n: nat)
    requires
        straight_line(program),
        0 <= m.pointer,
    ensures
        halted(run(m, program, n), program) || run(m, program, n).pointer == m.pointer + n,
    decreases n,
{
    if n > 0 {
        lemma_pointer_advances(m, program, (n - 1) as nat);
    }
}

/// A program without jumps halts, whatever the registers hold.
pub proof fn lemma_straight_line_halts(m: Machine, program: Seq<[u8; 2]>)
    requires
        straight_line(program),
        0 <= m.pointer,
    ensures
        halts(m, program),
{
    lemma_pointer_advances(m, program, program.len());
    assert(halted(run(m, program, program.len()), program));
}

/// The bytes of the program, opcode and operand in turn.
pub open spec fn flat(program: Seq<[u8; 2]>) -> Seq<u8> {
    Seq::new(2 * program.len(), |i: int| program[i / 2][i % 2])
}

/// Started with `a` in register A, the program prints `target` and nothing
/// else.
pub open spec fn prints_only(program: Seq<[u8; 2]>, a: u64, b: u64, c: u64, target: u8) -> bool {
    outcome(initial(a, b, c), program).output == seq![target]
}

/// `v` is a candidate after the given number of rounds. The only candidate
/// before the first round is 0. A round takes a candidate `s` and a digit
/// `i` below 8, runs the loop body with `s + i` in register A, and puts
/// `8 * (s + i)` forward if the body prints just the byte that the round
/// looks for; the rounds go through the expected bytes from the last to the
/// first.
pub open spec fn accepted(
    body: Seq<[u8; 2]>,
    b: u64,
    c: u64,
    expected: Seq<u8>,
    rounds: nat,
    v: int,
) -> bool
    decreases rounds,
{
    if rounds == 0 {
        v == 0
    } else {
        let a = v / 8;
        &&& 0 <= v
        &&& v % 8 == 0
        &&& a <= u64::MAX
        &&& accepted(body, b, c, expected, (rounds - 1) as nat, a - a % 8)
        &&& prints_only(body, a as u64, b, c, expected[expected.len() - rounds])
    }
}

/// Eight to the power `n`.
pub open spec fn pow8(n: nat) -> nat
    decreases n,
{
    if n == 0 {
        1
    } else {
        8 * pow8((n - 1) as nat)
    }
}

proof fn lemma_pow8_grows(n: nat, m: nat)
    requires
        n <= m,
    ensures
        pow8(n) <= pow8(m),
        pow8(n) >= 1,
    decreases m,
{
    if n < m {
        lemma_pow8_grows(n, (m - 1) as nat);
    } else if n > 0 {
        lemma_pow8_grows((n - 1) as nat, (n - 1) as nat);
    }
}

proof fn lemma_pow8_21()
    ensures
        pow8(21) == 0x8000_0000_0000_0000,
{
    reveal_with_fuel(pow8, 22);
}

/// A candidate after `rounds` rounds is a multiple of 8 below eight to the
/// power `rounds + 1`.
proof fn lemma_accepted_is_small(
    body: Seq<[u8; 2]>,
    b: u64,
    c: u64,
    expected: Seq<u8>,
    rounds: nat,
    v: int,
)
    requires
        accepted(body, b, c, expected, rounds, v),
    ensures
        0 <= v,
        v % 8 == 0,
        v + 8 <= pow8(rounds + 1),
    decreases rounds,
{
    reveal_with_fuel(pow8, 2);
    if rounds > 0 {
        let a = v / 8;
        lemma_accepted_is_small(body, b, c, expected, (rounds - 1) as nat, a - a % 8);
    }
}

/// `w` comes from a candidate among the first `k` of `valid`, or from
/// candidate `k` with a digit below `i`.
pub open spec fn produced(
    body: Seq<[u8; 2]>,
    b: u64,
    c: u64,
    target: u8,
    valid: Seq<u64>,
    k: int,
    i: int,
    w: u64,
) -> bool {
    let a = w / 8;
    &&& w % 8 == 0
    &&& prints_only(body, a, b, c, target)
    &&& exists|kk: int|
        0 <= kk < valid.len() && #[trigger] valid[kk] == a - a % 8 && (kk < k || (kk == k && a % 8
            < i))
}

/// The smallest value of register A with which a program of the usual
/// shape, a loop body that prints one byte and shifts A by three bits,
/// closed by a jump, prints its own bytes.
///
/// The value is built three bits at a time, from the last expected byte to
/// the first, by the rounds that `accepted` describes; the loop body is the
/// program without its last instruction. The result is the smallest last
/// candidate divided by 8, or `None` where no candidate is left.
pub fn part2(register_b: u64, register_c: u64, instructions: &Vec<[u8; 2]>) -> (least: Option<u64>)
    requires
        1 <= instructions.len() <= 10,
        program_ok(instructions@),
        straight_line(instructions@.drop_last()),
    ensures
        ({
            let body = instructions@.drop_last();
            let expected = flat(instructions@);
            match least {
                Some(a) => {
                    &&& accepted(body, register_b, register_c, expected, expected.len(), 8 * a)
                    &&& forall|v: int| #[trigger]
                        accepted(body, register_b, register_c, expected, expected.len(), v) ==> 8
                            * a <= v
                },
                None => forall|v: int|
                    !#[trigger] accepted(body, register_b, register_c, expected, expected.len(), v),
            }
        }),
{
    let ghost program = instructions@;
    let ghost body_seq = program.drop_last();
    let ghost wanted = flat(program);
    let mut body: Vec<[u8; 2]> = Vec::new();
    let mut expected: Vec<u8> = Vec::new();
    let mut n: usize = 0;
    while n < instructions.len()
        invariant
            n <= instructions.len(),
            instructions.len() <= 10,
            program == instructions@,
            body@ == program.take(if n < instructions.len() { n as int } else { n - 1 }),
            expected.len() == 2 * n,
            forall|j: int| 0 <= j < 2 * n ==> expected[j] == program[j / 2][j % 2],
        decreases instructions.len() - n,
    {
        if n + 1 < instructions.len() {
            body.push(instructions[n]);
            assert(body@ =~= program.take(n + 1));
        } else {
            assert(body@ =~= program.take(n as int));
        }
        expected.push(instructions[n][0]);
        expected.push(instructions[n][1]);
        n += 1;
    }
    assert(body@ =~= body_seq);
    assert(expected@ =~= wanted);
    assert(program_ok(body@));
    let mut valid: Vec<u64> = Vec::new();
    valid.push(0);
    let mut round: usize = 0;
    assert(valid@[0] == 0);
    while round < expected.len()
        invariant
            round <= expected.len(),
            expected.len() <= 20,
            expected@ == wanted,
            body@ == body_seq,
            program_ok(body_seq),
            straight_line(body_seq),
            forall|v: int| #[trigger]
                accepted(body_seq, register_b, register_c, wanted, round as nat, v) <==> (0 <= v
                    <= u64::MAX && valid@.contains(v as u64)),
        decreases expected.len() - round,
    {
        let target = expected[expected.len() - 1 - round];
        let mut next: Vec<u64> = Vec::new();
        let mut k: usize = 0;
        proof {
            lemma_pow8_grows(round as nat + 2, 21);
            lemma_pow8_21();
        }
        while k < valid.len()
            invariant
                k <= valid.len(),
                round < expected.len(),
                expected.len() <= 20,
                body@ == body_seq,
                program_ok(body_seq),
                straight_line(body_seq),
                pow8(round as nat + 2) <= 0x8000_0000_0000_0000,
                target == wanted[wanted.len() - (round + 1)],
                forall|v: int| #[trigger]
                    accepted(body_seq, register_b, register_c, wanted, round as nat, v) <==> (0
                        <= v <= u64::MAX && valid@.contains(v as u64)),
                forall|w: u64|
                    next@.contains(w) <==> produced(
                        body_seq,
                        register_b,
                        register_c,
                        target,
                        valid@,
                        k as int,
                        0,
                        w,
                    ),
            decreases valid.len() - k,
        {
            let s = valid[k];
            proof {
                assert(valid@.contains(s));
                assert(accepted(body_seq, register_b, register_c, wanted, round as nat, s as int));
                lemma_accepted_is_small(
                    body_seq,
                    register_b,
                    register_c,
                    wanted,
                    round as nat,
                    s as int,
                );
                reveal_with_fuel(pow8, 2);
            }
            let mut i: u64 = 0;
            while i < 8
                invariant
                    k < valid.len(),
                    i <= 8,
                    s == valid[k as int],
                    s % 8 == 0,
                    s + 8 <= pow8(round as nat + 1),
                    pow8(round as nat + 2) == 8 * pow8(round as nat + 1),
                    pow8(round as nat + 2) <= 0x8000_0000_0000_0000,
                    body@ == body_seq,
                    program_ok(body_seq),
                    straight_line(body_seq),
                    forall|w: u64|
                        next@.contains(w) <==> produced(
                            body_seq,
                            register_b,
                            register_c,
                            target,
                            valid@,
                            k as int,
                            i as int,
                            w,
                        ),
                decreases 8 - i,
            {
                let a = s + i;
                proof {
                    lemma_straight_line_halts(initial(a, register_b, register_c), body_seq);
                }
                let end = run_program(a, register_b, register_c, &body);
                let hit = end.3.len() == 1 && end.3[0] == target;
                proof {
                    assert(hit == prints_only(body_seq, a, register_b, register_c, target)) by {
                        if hit {
                            assert(end.3@ =~= seq![target]);
                        }
                    }
                }
                let ghost before = next@;
                if hit {
                    next.push(8 * a);
                }
                proof {
                    let made: u64 = (8 * a) as u64;
                    assert(made / 8 == a && made % 8 == 0 && a % 8 == i && a - a % 8 == s);
                    assert forall|w: u64| next@.contains(w) <==> produced(
                        body_seq,
                        register_b,
                        register_c,
                        target,
                        valid@,
                        k as int,
                        i + 1,
                        w,
                    ) by {
                        let old_in = produced(
                            body_seq,
                            register_b,
                            register_c,
                            target,
                            valid@,
                            k as int,
                            i as int,
                            w,
                        );
                        assert(before.contains(w) == old_in);
                        if hit {
                            assert(next@ == before.push(made));
                            assert(next@[before.len() as int] == made);
                            if before.contains(w) {
                                let j = choose|j: int| 0 <= j < before.len() && before[j] == w;
                                assert(next@[j] == w);
                            }
                            if next@.contains(w) && w != made {
                                let j = choose|j: int| 0 <= j < next@.len() && next@[j] == w;
                                assert(before[j] == w);
                            }
                        }
                        if w == made {
                            assert(valid@[k as int] == a - a % 8);
                        } else if w % 8 == 0 {
                            let aw = w / 8;
                            if aw - aw % 8 == s && aw % 8 == i {
                                assert(aw == a);
                                assert(false);
                            }
                        }
                    }
                }
                i += 1;
            }
            proof {
                assert forall|w: u64| next@.contains(w) <==> produced(
                    body_seq,
                    register_b,
                    register_c,
                    target,
                    valid@,
                    k + 1,
                    0,
                    w,
                ) by {
                    let aw = w / 8;
                    assert(aw % 8 < 8);
                }
            }
            k += 1;
        }
        proof {
            let after: nat = (round + 1) as nat;
            assert forall|v: int| #[trigger]
                accepted(body_seq, register_b, register_c, wanted, after, v) <==> (0 <= v
                    <= u64::MAX && next@.contains(v as u64)) by {
                if accepted(body_seq, register_b, register_c, wanted, after, v) {
                    lemma_accepted_is_small(body_seq, register_b, register_c, wanted, after, v);
                    let a = v / 8;
                    let s = a - a % 8;
                    assert((after - 1) as nat == round as nat);
                    assert(accepted(body_seq, register_b, register_c, wanted, round as nat, s));
                    assert(valid@.contains(s as u64));
                    let kk = choose|kk: int| 0 <= kk < valid@.len() && valid@[kk] == s as u64;
                    assert(valid@[kk] == a - a % 8);
                    assert(produced(
                        body_seq,
                        register_b,
                        register_c,
                        target,
                        valid@,
                        valid@.len() as int,
                        0,
                        v as u64,
                    ));
                }
                if 0 <= v <= u64::MAX && next@.contains(v as u64) {
                    let w = v as u64;
                    let a = w / 8;
                    let kk = choose|kk: int|
                        0 <= kk < valid@.len() && #[trigger] valid@[kk] == a - a % 8 && (kk
                            < valid@.len() || (kk == valid@.len() && a % 8 < 0));
                    assert(valid@.contains(valid@[kk]));
                    let s = a - a % 8;
                    assert(valid@.contains(s as u64));
                    assert(accepted(body_seq, register_b, register_c, wanted, round as nat, s));
                    assert((after - 1) as nat == round as nat);
                    assert(wanted[wanted.len() - after] == target);
                }
            }
        }
        valid = next;
        round += 1;
    }
    if valid.len() == 0 {
        return None;
    }
    let mut least = valid[0];
    let mut k: usize = 1;
    while k < valid.len()
        invariant
            1 <= k <= valid.len(),
            valid@.contains(least),
            forall|j: int| 0 <= j < k ==> least <= valid[j],
        decreases valid.len() - k,
    {
        if valid[k] < least {
            least = valid[k];
        }
        k += 1;
    }
    proof {
        assert(accepted(
            body_seq,
            register_b,
            register_c,
            wanted,
            wanted.len(),
            least as int,
        ));
        assert(least % 8 == 0);
    }
    Some(least / 8)
}

} // verus!
