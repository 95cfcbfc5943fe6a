//! Execution of a parsed program against a fixed-size wrapping byte tape.
//!
//! The interpreter owns the tape, a pointer into it, and in-memory input
//! and output byte ports. Its behaviour is specified by a big-step
//! semantics ([`run_instr`], [`run_program`]) over a mathematical
//! [`MachineState`]; a `fuel` budget bounds how many loop iterations may
//! be entered, so that the engine itself always terminates even though a
//! program need not.

use vstd::arithmetic::div_mod::lemma_add_mod_noop;
use vstd::arithmetic::div_mod::lemma_mod_multiples_vanish;
use vstd::arithmetic::div_mod::lemma_mod_bound;
use vstd::arithmetic::div_mod::lemma_mod_self_0;
use vstd::arithmetic::div_mod::lemma_mod_sub_multiples_vanish;
use vstd::arithmetic::div_mod::lemma_small_mod;
use vstd::arithmetic::div_mod::lemma_sub_mod_noop;
use vstd::pervasive::VecAdditionalExecFns;
use vstd::prelude::*;

use crate::parser::Instruction;

verus! {

/// Number of cells on the tape.
pub const TAPE_LEN: usize = 30000;

/// The mathematical state of a running program: the tape's cells, the
/// pointer's unnormalized position, the input bytes not yet consumed and
/// the output bytes written so far.
#[verifier::ext_equal]
pub struct MachineState {
    pub tape: Seq<u8>,
    pub ptr: int,
    pub input: Seq<u8>,
    pub output: Seq<u8>,
}

/// The tape index a pointer value selects: the pointer modulo the tape
/// length (Euclidean, always in `[0, TAPE_LEN)`), so that an excursion
/// past either end — of any size — wraps to the other end.
pub open spec fn tape_index(ptr: int) -> int {
    ptr % (TAPE_LEN as int)
}

/// A cell value incremented, wrapping modulo 256.
pub open spec fn incr_cell(v: u8) -> u8 {
    if v == 255 {
        0
    } else {
        (v + 1) as u8
    }
}

/// A cell value decremented, wrapping modulo 256.
pub open spec fn decr_cell(v: u8) -> u8 {
    if v == 0 {
        255
    } else {
        (v - 1) as u8
    }
}

/// The state every run starts from: a zeroed tape, the pointer at the
/// first cell, no input provided, nothing written yet.
pub open spec fn fresh_state() -> MachineState {
    MachineState {
        tape: Seq::new(TAPE_LEN as nat, |k: int| 0u8),
        ptr: 0,
        input: Seq::empty(),
        output: Seq::empty(),
    }
}

/// What a run yields: a completed run with its final state; an aborted
/// run whose `Input` found the input exhausted, with the state at the
/// failure (output already written stays as it is); or a run still
/// unfinished when the loop-iteration budget ran out.
pub enum Outcome {
    Done(MachineState),
    InputFailed(MachineState),
    OutOfFuel,
}

/// Big-step semantics of one instruction. `fuel` bounds how many loop
/// iterations may still be entered; every instruction other than a loop
/// ignores it. A loop whose current cell is zero finishes at once;
/// otherwise it runs its body once with one unit of budget spent, then
/// repeats.
pub open spec fn run_instr(st: MachineState, i: Instruction, fuel: nat) -> Outcome
    decreases fuel, i,
{
    match i {
        Instruction::IncrementPtr => Outcome::Done(MachineState { ptr: st.ptr + 1, ..st }),
        Instruction::DecrementPtr => Outcome::Done(MachineState { ptr: st.ptr - 1, ..st }),
        Instruction::IncrementValue => Outcome::Done(
            MachineState {
                tape: st.tape.update(
                    tape_index(st.ptr),
                    incr_cell(st.tape[tape_index(st.ptr)]),
                ),
                ..st
            },
        ),
        Instruction::DecrementValue => Outcome::Done(
            MachineState {
                tape: st.tape.update(
                    tape_index(st.ptr),
                    decr_cell(st.tape[tape_index(st.ptr)]),
                ),
                ..st
            },
        ),
        Instruction::Output => Outcome::Done(
            MachineState { output: st.output.push(st.tape[tape_index(st.ptr)]), ..st },
        ),
        Instruction::Input => {
            if st.input.len() == 0 {
                Outcome::InputFailed(st)
            } else {
                Outcome::Done(
                    MachineState {
                        tape: st.tape.update(tape_index(st.ptr), st.input[0]),
                        input: st.input.drop_first(),
                        ..st
                    },
                )
            }
        },
        Instruction::Loop(body) => {
            if st.tape[tape_index(st.ptr)] == 0 {
                Outcome::Done(st)
            } else if fuel == 0 {
                Outcome::OutOfFuel
            } else {
                match run_program(st, body@, (fuel - 1) as nat) {
                    Outcome::Done(st2) => run_instr(st2, i, (fuel - 1) as nat),
                    o => o,
                }
            }
        },
    }
}

/// Big-step semantics of a program: its instructions in order, each with
/// the same loop-iteration budget; the first failure or exhausted budget
/// stops the run.
pub open spec fn run_program(st: MachineState, p: Seq<Instruction>, fuel: nat) -> Outcome
    decreases fuel, p,
{
    if p.len() == 0 {
        Outcome::Done(st)
    } else {
        match run_instr(st, p[0], fuel) {
            Outcome::Done(st2) => run_program(st2, p.drop_first(), fuel),
            o => o,
        }
    }
}

/// A loop whose current cell is zero finishes at once, executing its
/// body zero times and leaving the state untouched, whatever the budget.
pub proof fn lemma_loop_entry_zero(st: MachineState, i: Instruction, fuel: nat)
    requires
        i matches Instruction::Loop(_),
        st.tape[tape_index(st.ptr)] == 0,
    ensures
        run_instr(st, i, fuel) == Outcome::Done(st),
{
}

/// A finished or failed run of an instruction is stable: any larger
/// loop-iteration budget yields the same outcome — so a loop that exits
/// (such as one that counts its cell down to zero) has one canonical
/// final state, independent of the budget that let it finish.
pub proof fn lemma_run_instr_fuel_monotone(st: MachineState, i: Instruction, f1: nat, f2: nat)
    requires
        f1 <= f2,
        !(run_instr(st, i, f1) is OutOfFuel),
    ensures
        run_instr(st, i, f2) == run_instr(st, i, f1),
    decreases f1, i,
{
    match i {
        Instruction::Loop(body) => {
            if st.tape[tape_index(st.ptr)] != 0 {
                let o1 = run_program(st, body@, (f1 - 1) as nat);
                lemma_run_program_fuel_monotone(st, body@, (f1 - 1) as nat, (f2 - 1) as nat);
                match o1 {
                    Outcome::Done(st2) => {
                        lemma_run_instr_fuel_monotone(st2, i, (f1 - 1) as nat, (f2 - 1) as nat);
                    },
                    _ => {
                    },
                }
            }
        },
        _ => {
        },
    }
}

/// See [`lemma_run_instr_fuel_monotone`]: the same stability, for a
/// whole program.
pub proof fn lemma_run_program_fuel_monotone(
    st: MachineState,
    p: Seq<Instruction>,
    f1: nat,
    f2: nat,
)
    requires
        f1 <= f2,
        !(run_program(st, p, f1) is OutOfFuel),
    ensures
        run_program(st, p, f2) == run_program(st, p, f1),
    decreases f1, p,
{
    if p.len() > 0 {
        let o = run_instr(st, p[0], f1);
        lemma_run_instr_fuel_monotone(st, p[0], f1, f2);
        match o {
            Outcome::Done(st2) => {
                lemma_run_program_fuel_monotone(st2, p.drop_first(), f1, f2);
            },
            _ => {
            },
        }
    }
}

/// Moving the pointer by any whole number of tape lengths, in either
/// direction, selects the same cell: the wrap rule is a true modulo,
/// correct for excursions of two or more tape lengths as well.
pub proof fn lemma_pointer_wrap(ptr: int, k: int)
    ensures
        tape_index(ptr + k * (TAPE_LEN as int)) == tape_index(ptr),
{
    lemma_mod_multiples_vanish(k, ptr, TAPE_LEN as int);
    assert(ptr + k * (TAPE_LEN as int) == (TAPE_LEN as int) * k + ptr) by (nonlinear_arith);
}

/// A fatal run-time failure.
#[derive(Debug, Clone, Copy, PartialEq, Eq)]
pub enum RunError {
    /// An `Input` instruction found the input exhausted; the run aborts.
    InputExhausted,
    /// The loop-iteration budget was spent before the program finished.
    OutOfFuel,
}

/// The mutable machine: tape, pointer and the two byte ports. The stored
/// pointer is kept normalized to a tape index, while the ghost pointer
/// tracks the full unnormalized position that the semantics speaks of.
struct Machine {
    memory: Vec<u8>,
    ptr: usize,
    ghost_ptr: Ghost<int>,
    input: Vec<u8>,
    input_next: usize,
    output: Vec<u8>,
}

impl Machine {
    spec fn wf(&self) -> bool {
        &&& self.memory@.len() == TAPE_LEN
        &&& self.input_next <= self.input@.len()
        &&& self.ptr as int == tape_index(self.ghost_ptr@)
    }

    spec fn state(&self) -> MachineState {
        MachineState {
            tape: self.memory@,
            ptr: self.ghost_ptr@,
            input: self.input@.subrange(self.input_next as int, self.input@.len() as int),
            output: self.output@,
        }
    }

    fn new() -> (r: Machine)
        ensures
            r.wf(),
            r.state() == fresh_state(),
    {
        let mut memory: Vec<u8> = Vec::new();
        while memory.len() < TAPE_LEN
            invariant
                memory@.len() <= TAPE_LEN,
                forall|k: int| 0 <= k < memory@.len() ==> memory@[k] == 0u8,
            decreases TAPE_LEN - memory.len(),
        {
            memory.push(0u8);
        }
        let m = Machine {
            memory,
            ptr: 0,
            ghost_ptr: Ghost(0int),
            input: Vec::new(),
            input_next: 0,
            output: Vec::new(),
        };
        proof {
            lemma_small_mod(0nat, TAPE_LEN as nat);
            assert(m.state().tape =~= fresh_state().tape);
            assert(m.state().input =~= fresh_state().input);
            assert(m.state() =~= fresh_state());
        }
        m
    }

    /// Executes one instruction to completion (or failure) against the
    /// machine, exactly as the big-step semantics describes.
    fn execute_instruction(&mut self, instr: &Instruction, fuel: u64) -> (r: Result<(), RunError>)
        requires
            old(self).wf(),
        ensures
            final(self).wf(),
            match run_instr(old(self).state(), *instr, fuel as nat) {
                Outcome::Done(st) => r == Ok::<(), RunError>(()) && final(self).state() == st,
                Outcome::InputFailed(st) => r == Err::<(), RunError>(RunError::InputExhausted)
                    && final(self).state() == st,
                Outcome::OutOfFuel => r == Err::<(), RunError>(RunError::OutOfFuel),
            },
        decreases fuel, *instr,
    {
        let ghost pre = self.state();
        match instr {
            Instruction::IncrementPtr => {
                proof {
                    lemma_index_step_up(self.ghost_ptr@);
                }
                self.ghost_ptr = Ghost(self.ghost_ptr@ + 1);
                if self.ptr == TAPE_LEN - 1 {
                    self.ptr = 0;
                } else {
                    self.ptr = self.ptr + 1;
                }
                proof {
                    assert(self.state() =~= (MachineState { ptr: pre.ptr + 1, ..pre }));
                }
                Ok(())
            },
            Instruction::DecrementPtr => {
                proof {
                    lemma_index_step_down(self.ghost_ptr@);
                }
                self.ghost_ptr = Ghost(self.ghost_ptr@ - 1);
                if self.ptr == 0 {
                    self.ptr = TAPE_LEN - 1;
                } else {
                    self.ptr = self.ptr - 1;
                }
                proof {
                    assert(self.state() =~= (MachineState { ptr: pre.ptr - 1, ..pre }));
                }
                Ok(())
            },
            Instruction::IncrementValue => {
                let v = self.memory[self.ptr];
                self.memory.set(self.ptr, v.wrapping_add(1));
                proof {
                    assert(v.wrapping_add(1) == incr_cell(v));
                    assert(self.state() =~= (MachineState {
                        tape: pre.tape.update(tape_index(pre.ptr), incr_cell(v)),
                        ..pre
                    }));
                }
                Ok(())
            },
            Instruction::DecrementValue => {
                let v = self.memory[self.ptr];
                self.memory.set(self.ptr, v.wrapping_sub(1));
                proof {
                    assert(v.wrapping_sub(1) == decr_cell(v));
                    assert(self.state() =~= (MachineState {
                        tape: pre.tape.update(tape_index(pre.ptr), decr_cell(v)),
                        ..pre
                    }));
                }
                Ok(())
            },
            Instruction::Output => {
                let v = self.memory[self.ptr];
                self.output.push(v);
                proof {
                    assert(self.state() =~= (MachineState {
                        output: pre.output.push(v),
                        ..pre
                    }));
                }
                Ok(())
            },
            Instruction::Input => {
                if self.input_next == self.input.len() {
                    proof {
                        assert(pre.input.len() == 0);
                        assert(self.state() =~= pre);
                    }
                    Err(RunError::InputExhausted)
                } else {
                    let v = self.input[self.input_next];
                    self.input_next = self.input_next + 1;
                    self.memory.set(self.ptr, v);
                    proof {
                        assert(pre.input[0] == v);
                        assert(self.state().input =~= pre.input.drop_first());
                        assert(self.state() =~= (MachineState {
                            tape: pre.tape.update(tape_index(pre.ptr), v),
                            input: pre.input.drop_first(),
                            ..pre
                        }));
                    }
                    Ok(())
                }
            },
            Instruction::Loop(body) => {
                let mut f: u64 = fuel;
                loop
                    invariant
                        self.wf(),
                        f <= fuel,
                        pre == old(self).state(),
                        (*instr) matches Instruction::Loop(b) && b@ == body@,
                        run_instr(pre, *instr, fuel as nat) == run_instr(
                            self.state(),
                            *instr,
                            f as nat,
                        ),
                    decreases f,
                {
                    let ghost cur = self.state();
                    let idx = self.ptr;
                    if self.memory[idx] == 0 {
                        proof {
                            assert(cur.tape[tape_index(cur.ptr)] == 0);
                            assert(run_instr(cur, *instr, f as nat) == Outcome::Done(cur));
                        }
                        return Ok(());
                    }
                    proof {
                        assert(cur.tape[tape_index(cur.ptr)] != 0);
                    }
                    if f == 0 {
                        proof {
                            assert(run_instr(cur, *instr, 0nat) == Outcome::OutOfFuel);
                        }
                        return Err(RunError::OutOfFuel);
                    }
                    f = f - 1;
                    let ghost iter_st = self.state();
                    let mut j: usize = 0;
                    proof {
                        assert(body@.subrange(0, body@.len() as int) =~= body@);
                    }
                    while j < body.len()
                        invariant
                            self.wf(),
                            j <= body@.len(),
                            f < fuel,
                            pre == old(self).state(),
                            iter_st.tape.len() == TAPE_LEN,
                            iter_st.tape[tape_index(iter_st.ptr)] != 0,
                            (*instr) matches Instruction::Loop(b) && b@ == body@,
                            run_instr(pre, *instr, fuel as nat) == run_instr(
                                iter_st,
                                *instr,
                                (f + 1) as nat,
                            ),
                            run_program(iter_st, body@, f as nat) == run_program(
                                self.state(),
                                body@.subrange(j as int, body@.len() as int),
                                f as nat,
                            ),
                        decreases body@.len() - j,
                    {
                        let ghost before = self.state();
                        let ghost seg = body@.subrange(j as int, body@.len() as int);
                        let st = self.execute_instruction(&body[j], f);
                        proof {
                            assert(seg.len() > 0 && seg[0] == body@[j as int]);
                            assert(seg.drop_first() =~= body@.subrange(
                                j as int + 1,
                                body@.len() as int,
                            ));
                        }
                        match st {
                            Ok(()) => {
                                j = j + 1;
                            },
                            Err(e) => {
                                proof {
                                    // the failure or spent budget inside the body is the
                                    // outcome of the whole loop
                                    let o = run_instr(before, seg[0], f as nat);
                                    assert(!(o is Done));
                                    assert(run_program(before, seg, f as nat) == o);
                                    assert(run_program(iter_st, body@, f as nat) == o);
                                    assert(run_instr(iter_st, *instr, (f + 1) as nat) == o);
                                }
                                return Err(e);
                            },
                        }
                    }
                    proof {
                        assert(body@.subrange(body@.len() as int, body@.len() as int)
                            =~= Seq::<Instruction>::empty());
                        assert(run_program(iter_st, body@, f as nat) == Outcome::Done(
                            self.state(),
                        ));
                        assert(run_instr(iter_st, *instr, (f + 1) as nat) == run_instr(
                            self.state(),
                            *instr,
                            f as nat,
                        ));
                    }
                }
            },
        }
    }
}

/// How the pointer's tape index moves when the pointer moves up by one.
proof fn lemma_index_step_up(p: int)
    ensures
        tape_index(p + 1) == if tape_index(p) == TAPE_LEN - 1 {
            0int
        } else {
            tape_index(p) + 1
        },
        0 <= tape_index(p) < TAPE_LEN,
{
    let n = TAPE_LEN as int;
    lemma_add_mod_noop(p, 1, n);
    lemma_small_mod(1nat, TAPE_LEN as nat);
    let m = p % n;
    if m == n - 1 {
        lemma_mod_self_0(n);
    } else {
        lemma_small_mod((m + 1) as nat, TAPE_LEN as nat);
    }
}

/// How the pointer's tape index moves when the pointer moves down by one.
proof fn lemma_index_step_down(p: int)
    ensures
        tape_index(p - 1) == if tape_index(p) == 0 {
            TAPE_LEN - 1
        } else {
            tape_index(p) - 1
        },
        0 <= tape_index(p) < TAPE_LEN,
{
    let n = TAPE_LEN as int;
    lemma_sub_mod_noop(p, 1, n);
    lemma_small_mod(1nat, TAPE_LEN as nat);
    let m = p % n;
    if m == 0 {
        lemma_mod_sub_multiples_vanish(n - 1, n);
        lemma_small_mod((n - 1) as nat, TAPE_LEN as nat);
    } else {
        lemma_small_mod((m - 1) as nat, TAPE_LEN as nat);
    }
}

/// A tree-walking interpreter: a program together with a machine, driven
/// either to completion with [`Interpreter::run`] or one top-level
/// instruction at a time with [`Interpreter::step`].
pub struct Interpreter {
    instructions: Vec<Instruction>,
    next: usize,
    machine: Machine,
}

impl Interpreter {
    /// The interpreter's invariant: the machine is sound and the cursor
    /// sits inside the program.
    pub closed spec fn wf(&self) -> bool {
        &&& self.machine.wf()
        &&& self.next <= self.instructions@.len()
    }

    /// The machine state the interpreter has reached.
    pub closed spec fn state(&self) -> MachineState {
        self.machine.state()
    }

    /// The top-level instructions not yet executed.
    pub closed spec fn remaining(&self) -> Seq<Instruction> {
        self.instructions@.subrange(self.next as int, self.instructions@.len() as int)
    }

    /// A fresh interpreter for a program: zeroed tape, pointer at the
    /// first cell, no input, no output, nothing executed yet.
    pub fn new(instructions: Vec<Instruction>) -> (r: Interpreter)
        ensures
            r.wf(),
            r.remaining() == instructions@,
            r.state() == fresh_state(),
    {
        let r = Interpreter { instructions, next: 0, machine: Machine::new() };
        proof {
            assert(r.remaining() =~= r.instructions@);
        }
        r
    }

    /// Supplies the bytes that `Input` instructions will consume, in
    /// place of whatever input was left.
    pub fn set_input(&mut self, bytes: Vec<u8>)
        requires
            old(self).wf(),
        ensures
            final(self).wf(),
            final(self).remaining() == old(self).remaining(),
            final(self).state() == (MachineState { input: bytes@, ..old(self).state() }),
    {
        let ghost pre = self.state();
        self.machine.input = bytes;
        self.machine.input_next = 0;
        proof {
            assert(self.state().input =~= self.machine.input@);
            assert(self.state() =~= (MachineState { input: self.machine.input@, ..pre }));
        }
    }

    /// The bytes written so far.
    pub fn output(&self) -> (r: &Vec<u8>)
        ensures
            r@ == self.state().output,
    {
        &self.machine.output
    }

    /// The value of the cell the pointer currently selects.
    pub fn current_cell(&self) -> (r: u8)
        requires
            self.wf(),
        ensures
            r == self.state().tape[tape_index(self.state().ptr)],
    {
        proof {
            lemma_mod_bound(self.machine.ghost_ptr@, TAPE_LEN as int);
        }
        self.machine.memory[self.machine.ptr]
    }

    /// Executes one top-level instruction, if one remains, with `fuel`
    /// as its loop-iteration budget; reports whether it executed one
    /// (`Ok(true)`: more work may remain) or none remained (`Ok(false)`).
    pub fn step(&mut self, fuel: u64) -> (r: Result<bool, RunError>)
        requires
            old(self).wf(),
        ensures
            final(self).wf(),
            old(self).remaining().len() == 0 ==> r == Ok::<bool, RunError>(false)
                && final(self).state() == old(self).state()
                && final(self).remaining() == old(self).remaining(),
            old(self).remaining().len() > 0 ==> final(self).remaining()
                == old(self).remaining().drop_first() && (match run_instr(
                old(self).state(),
                old(self).remaining()[0],
                fuel as nat,
            ) {
                Outcome::Done(st) => r == Ok::<bool, RunError>(true) && final(self).state() == st,
                Outcome::InputFailed(st) => r == Err::<bool, RunError>(RunError::InputExhausted)
                    && final(self).state() == st,
                Outcome::OutOfFuel => r == Err::<bool, RunError>(RunError::OutOfFuel),
            }),
    {
        if self.next == self.instructions.len() {
            return Ok(false);
        }
        let i = self.next;
        self.next = i + 1;
        proof {
            assert(old(self).remaining()[0] == self.instructions@[i as int]);
            assert(self.remaining() =~= old(self).remaining().drop_first());
        }
        match self.machine.execute_instruction(&self.instructions[i], fuel) {
            Ok(()) => Ok(true),
            Err(e) => Err(e),
        }
    }

    /// Pulls with [`Interpreter::step`] until the program is finished:
    /// executes every remaining instruction in order, with `fuel` as the
    /// loop-iteration budget, exactly as the big-step semantics
    /// describes.
    pub fn run(&mut self, fuel: u64) -> (r: Result<(), RunError>)
        requires
            old(self).wf(),
        ensures
            final(self).wf(),
            match run_program(old(self).state(), old(self).remaining(), fuel as nat) {
                Outcome::Done(st) => r == Ok::<(), RunError>(()) && final(self).state() == st
                    && final(self).remaining().len() == 0,
                Outcome::InputFailed(st) => r == Err::<(), RunError>(RunError::InputExhausted)
                    && final(self).state() == st,
                Outcome::OutOfFuel => r == Err::<(), RunError>(RunError::OutOfFuel),
            },
    {
        loop
            invariant
                self.wf(),
                run_program(old(self).state(), old(self).remaining(), fuel as nat) == run_program(
                    self.state(),
                    self.remaining(),
                    fuel as nat,
                ),
            decreases self.remaining().len(),
        {
            let ghost cur = self.state();
            let ghost rem = self.remaining();
            match self.step(fuel) {
                Ok(true) => {
                    proof {
                        assert(run_program(cur, rem, fuel as nat) == run_program(
                            self.state(),
                            self.remaining(),
                            fuel as nat,
                        ));
                    }
                },
                Ok(false) => {
                    return Ok(());
                },
                Err(e) => {
                    return Err(e);
                },
            }
        }
    }
}

} // verus!
