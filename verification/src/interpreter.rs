use vstd::prelude::*;

use crate::lexer::Instruction;
use crate::lexer::push_char;

verus! {

broadcast use vstd::std_specs::vec::group_vec_axioms;

/// A runtime error of one evaluation. `InputExhausted`: an input instruction
/// found no byte left. `OutputFailure`: the output sink rejected a write; an
/// in-memory sink never does, so the evaluator here never returns it, but a
/// caller-facing sink may. `OutOfFuel`: the caller-supplied bound on loop
/// re-entries was reached before the program finished.
#[derive(Debug, Clone, Copy, PartialEq, Eq, Structural)]
pub enum InterpreterError {
    InputExhausted,
    OutputFailure,
    OutOfFuel,
}

/// The complete state of one evaluation: the tape, the cursor into it, the
/// text emitted so far, and the input bytes not yet consumed.
#[verifier::ext_equal]
pub ghost struct EvalState {
    pub tape: Seq<u8>,
    pub cursor: int,
    pub out: Seq<char>,
    pub inp: Seq<u8>,
}

/// How one evaluation ends: normally, or aborted because an input instruction
/// found no byte left. Both carry the state at that point; on an abort the
/// output already emitted is retained.
#[verifier::ext_equal]
pub ghost enum EvalOutcome {
    Done(EvalState),
    Exhausted(EvalState),
}

/// One cell incremented with eight-bit wraparound.
pub open spec fn wrap_inc(b: u8) -> u8 {
    if b == 255 {
        0
    } else {
        (b + 1) as u8
    }
}

/// One cell decremented with eight-bit wraparound.
pub open spec fn wrap_dec(b: u8) -> u8 {
    if b == 0 {
        255
    } else {
        (b - 1) as u8
    }
}

/// The cursor moved one cell right, circularly.
pub open spec fn move_right(cursor: int, len: int) -> int {
    if cursor + 1 == len {
        0
    } else {
        cursor + 1
    }
}

/// The cursor moved one cell left, circularly.
pub open spec fn move_left(cursor: int, len: int) -> int {
    if cursor == 0 {
        len - 1
    } else {
        cursor - 1
    }
}

/// The meaning of one instruction, as a function of the state it starts in.
/// `fuel` bounds how often any loop may be re-entered: each new test of a
/// loop whose cell was nonzero costs one unit, and `None` means the bound was
/// reached. Everything else is exact: leaf instructions never consume fuel.
pub open spec fn eval_inst(i: Instruction, st: EvalState, fuel: nat) -> Option<EvalOutcome>
    decreases fuel, i,
{
    match i {
        Instruction::MoveRight => Some(
            EvalOutcome::Done(EvalState { cursor: move_right(st.cursor, st.tape.len() as int), ..st }),
        ),
        Instruction::MoveLeft => Some(
            EvalOutcome::Done(EvalState { cursor: move_left(st.cursor, st.tape.len() as int), ..st }),
        ),
        Instruction::Increment => Some(
            EvalOutcome::Done(
                EvalState { tape: st.tape.update(st.cursor, wrap_inc(st.tape[st.cursor])), ..st },
            ),
        ),
        Instruction::Decrement => Some(
            EvalOutcome::Done(
                EvalState { tape: st.tape.update(st.cursor, wrap_dec(st.tape[st.cursor])), ..st },
            ),
        ),
        Instruction::Output => Some(
            EvalOutcome::Done(EvalState { out: st.out.push(st.tape[st.cursor] as char), ..st }),
        ),
        Instruction::Input => if st.inp.len() == 0 {
            Some(EvalOutcome::Exhausted(st))
        } else {
            Some(
                EvalOutcome::Done(
                    EvalState {
                        tape: st.tape.update(st.cursor, st.inp[0]),
                        inp: st.inp.drop_first(),
                        ..st
                    },
                ),
            )
        },
        Instruction::Loop(body) => {
            if st.tape[st.cursor] == 0 {
                Some(EvalOutcome::Done(st))
            } else if fuel == 0 {
                None
            } else {
                match eval_insts(body@, st, fuel) {
                    None => None,
                    Some(EvalOutcome::Exhausted(e)) => Some(EvalOutcome::Exhausted(e)),
                    Some(EvalOutcome::Done(st2)) => eval_inst(i, st2, (fuel - 1) as nat),
                }
            }
        },
    }
}

/// The meaning of an instruction sequence: the instructions in order, each
/// started in the state the previous one ended in. An abort or an exhausted
/// fuel bound propagates; the instructions after it are not reached.
pub open spec fn eval_insts(p: Seq<Instruction>, st: EvalState, fuel: nat) -> Option<EvalOutcome>
    decreases fuel, p,
{
    if p.len() == 0 {
        Some(EvalOutcome::Done(st))
    } else {
        match eval_inst(p[0], st, fuel) {
            None => None,
            Some(EvalOutcome::Exhausted(e)) => Some(EvalOutcome::Exhausted(e)),
            Some(EvalOutcome::Done(st1)) => eval_insts(p.drop_first(), st1, fuel),
        }
    }
}

proof fn lemma_eval_insts_snoc(s: Seq<Instruction>, i: Instruction, st: EvalState, st1: EvalState, f: nat)
    requires
        eval_insts(s, st, f) == Some(EvalOutcome::Done(st1)),
    ensures
        eval_insts(s.push(i), st, f) == eval_inst(i, st1, f),
    decreases s.len(),
{
    if s.len() == 0 {
        assert(st1 == st);
        assert(s.push(i)[0] == i);
        assert(s.push(i).drop_first() =~= Seq::<Instruction>::empty());
        match eval_inst(i, st, f) {
            None => {},
            Some(EvalOutcome::Exhausted(_)) => {},
            Some(EvalOutcome::Done(st2)) => {
                assert(eval_insts(Seq::<Instruction>::empty(), st2, f) == Some(
                    EvalOutcome::Done(st2),
                ));
            },
        }
    } else {
        let r0 = eval_inst(s[0], st, f);
        match r0 {
            None => {
                assert(false);
            },
            Some(EvalOutcome::Exhausted(_)) => {
                assert(false);
            },
            Some(EvalOutcome::Done(m)) => {
                lemma_eval_insts_snoc(s.drop_first(), i, m, st1, f);
                assert(s.push(i)[0] == s[0]);
                assert(s.push(i).drop_first() =~= s.drop_first().push(i));
            },
        }
    }
}

proof fn lemma_eval_insts_abort(s: Seq<Instruction>, k: int, st: EvalState, st1: EvalState, f: nat)
    requires
        0 <= k < s.len(),
        eval_insts(s.take(k), st, f) == Some(EvalOutcome::Done(st1)),
        !(eval_inst(s[k], st1, f) matches Some(EvalOutcome::Done(_))),
    ensures
        eval_insts(s, st, f) == eval_inst(s[k], st1, f),
    decreases k,
{
    if k == 0 {
        assert(s.take(0) =~= Seq::<Instruction>::empty());
        assert(st1 == st);
    } else {
        let r0 = eval_inst(s[0], st, f);
        assert(s.take(k)[0] == s[0]);
        match r0 {
            None => {
                assert(false);
            },
            Some(EvalOutcome::Exhausted(_)) => {
                assert(false);
            },
            Some(EvalOutcome::Done(m)) => {
                assert(s.take(k).drop_first() =~= s.drop_first().take(k - 1));
                assert(s.drop_first()[k - 1] == s[k]);
                lemma_eval_insts_abort(s.drop_first(), k - 1, m, st1, f);
            },
        }
    }
}

/// The state described by the views of the evaluator's working data. The
/// state's input is what is left of `input` from `input_pos` on.
pub open spec fn state_at(
    memory: Seq<u8>,
    ptr: int,
    out: Seq<char>,
    input: Seq<u8>,
    input_pos: int,
) -> EvalState {
    EvalState { tape: memory, cursor: ptr, out: out, inp: input.skip(input_pos) }
}

fn interpret_internal(
    instructions: &Vec<Instruction>,
    memory: &mut Vec<u8>,
    output: &mut String,
    ptr: &mut usize,
    input: &[u8],
    input_pos: &mut usize,
    fuel: u64,
) -> (r: Result<(), InterpreterError>)
    requires
        old(memory)@.len() > 0,
        *old(ptr) < old(memory)@.len(),
        *old(input_pos) <= input@.len(),
    ensures
        final(memory)@.len() == old(memory)@.len(),
        *final(ptr) < final(memory)@.len(),
        *old(input_pos) <= *final(input_pos) <= input@.len(),
        old(output)@.is_prefix_of(final(output)@),
        ({
            let st0 = state_at(
                old(memory)@,
                *old(ptr) as int,
                old(output)@,
                input@,
                *old(input_pos) as int,
            );
            let st1 = state_at(
                final(memory)@,
                *final(ptr) as int,
                final(output)@,
                input@,
                *final(input_pos) as int,
            );
            match r {
                Ok(()) => eval_insts(instructions@, st0, fuel as nat) == Some(
                    EvalOutcome::Done(st1),
                ),
                Err(InterpreterError::InputExhausted) => eval_insts(instructions@, st0, fuel as nat)
                    == Some(EvalOutcome::Exhausted(st1)),
                Err(InterpreterError::OutOfFuel) => eval_insts(instructions@, st0, fuel as nat)
                    is None,
                Err(InterpreterError::OutputFailure) => false,
            }
        }),
    decreases instructions@,
{
    let ghost st0 = state_at(memory@, *ptr as int, output@, input@, *input_pos as int);
    let n = instructions.len();
    let mut k: usize = 0;
    while k < n
        invariant
            n == instructions@.len(),
            k <= n,
            st0 == state_at(
                old(memory)@,
                *old(ptr) as int,
                old(output)@,
                input@,
                *old(input_pos) as int,
            ),
            st0.tape.len() == old(memory)@.len(),
            st0.cursor == *old(ptr),
            memory@.len() == old(memory)@.len() > 0,
            *ptr < memory@.len(),
            *old(input_pos) <= *input_pos <= input@.len(),
            old(output)@.is_prefix_of(output@),
            eval_insts(instructions@.take(k as int), st0, fuel as nat) == Some(
                EvalOutcome::Done(
                    state_at(memory@, *ptr as int, output@, input@, *input_pos as int),
                ),
            ),
        decreases n - k,
    {
        let ghost st_pre = state_at(memory@, *ptr as int, output@, input@, *input_pos as int);
        let ghost cur = instructions@[k as int];
        match &instructions[k] {
            Instruction::MoveRight => {
                let len = memory.len();
                if *ptr + 1 == len {
                    *ptr = 0;
                } else {
                    *ptr = *ptr + 1;
                }
            },
            Instruction::MoveLeft => {
                let len = memory.len();
                if *ptr == 0 {
                    *ptr = len - 1;
                } else {
                    *ptr = *ptr - 1;
                }
            },
            Instruction::Increment => {
                let b = memory[*ptr];
                let nb = if b == 255 {
                    0
                } else {
                    b + 1
                };
                memory.set(*ptr, nb);
            },
            Instruction::Decrement => {
                let b = memory[*ptr];
                let nb = if b == 0 {
                    255
                } else {
                    b - 1
                };
                memory.set(*ptr, nb);
            },
            Instruction::Output => {
                let b = memory[*ptr];
                push_char(output, b as char);
                proof {
                    assert(old(output)@.is_prefix_of(st_pre.out));
                    assert(st_pre.out.is_prefix_of(output@));
                }
            },
            Instruction::Input => {
                if *input_pos >= input.len() {
                    proof {
                        assert(st_pre.inp.len() == 0);
                        assert(eval_inst(cur, st_pre, fuel as nat) == Some(
                            EvalOutcome::Exhausted(st_pre),
                        ));
                        lemma_eval_insts_abort(
                            instructions@,
                            k as int,
                            st0,
                            st_pre,
                            fuel as nat,
                        );
                    }
                    return Err(InterpreterError::InputExhausted);
                }
                let b = input[*input_pos];
                memory.set(*ptr, b);
                *input_pos = *input_pos + 1;
                proof {
                    assert(st_pre.inp[0] == b);
                    assert(st_pre.inp.drop_first() =~= input@.skip(*input_pos as int));
                }
            },
            Instruction::Loop(body) => {
                proof {
                    assert(cur == Instruction::Loop(*body));
                }
                let mut g: u64 = fuel;
                while memory[*ptr] != 0
                    invariant
                        n == instructions@.len(),
                        k < n,
                        cur == instructions@[k as int],
                        st0 == state_at(
                            old(memory)@,
                            *old(ptr) as int,
                            old(output)@,
                            input@,
                            *old(input_pos) as int,
                        ),
                        eval_insts(instructions@.take(k as int), st0, fuel as nat) == Some(
                            EvalOutcome::Done(st_pre),
                        ),
                        memory@.len() == old(memory)@.len() > 0,
                        *ptr < memory@.len(),
                        *old(input_pos) <= *input_pos <= input@.len(),
                        old(output)@.is_prefix_of(output@),
                        cur == Instruction::Loop(*body),
                        eval_inst(cur, st_pre, fuel as nat) == eval_inst(
                            cur,
                            state_at(memory@, *ptr as int, output@, input@, *input_pos as int),
                            g as nat,
                        ),
                    decreases g,
                {
                    let ghost st_top = state_at(
                        memory@,
                        *ptr as int,
                        output@,
                        input@,
                        *input_pos as int,
                    );
                    if g == 0 {
                        proof {
                            assert(eval_inst(cur, st_top, 0) is None);
                            lemma_eval_insts_abort(
                                instructions@,
                                k as int,
                                st0,
                                st_pre,
                                fuel as nat,
                            );
                        }
                        return Err(InterpreterError::OutOfFuel);
                    }
                    let res = interpret_internal(body, memory, output, ptr, input, input_pos, g);
                    let ghost st_next = state_at(
                        memory@,
                        *ptr as int,
                        output@,
                        input@,
                        *input_pos as int,
                    );
                    match res {
                        Ok(()) => {
                            proof {
                                assert(eval_insts(body@, st_top, g as nat) == Some(
                                    EvalOutcome::Done(st_next),
                                ));
                                assert(eval_inst(cur, st_top, g as nat) == eval_inst(
                                    cur,
                                    st_next,
                                    (g - 1) as nat,
                                ));
                            }
                        },
                        Err(e) => {
                            proof {
                                match e {
                                    InterpreterError::InputExhausted => {
                                        assert(eval_inst(cur, st_top, g as nat) == Some(
                                            EvalOutcome::Exhausted(st_next),
                                        ));
                                    },
                                    InterpreterError::OutOfFuel => {
                                        assert(eval_inst(cur, st_top, g as nat) is None);
                                    },
                                    InterpreterError::OutputFailure => {},
                                }
                                lemma_eval_insts_abort(
                                    instructions@,
                                    k as int,
                                    st0,
                                    st_pre,
                                    fuel as nat,
                                );
                            }
                            return Err(e);
                        },
                    }
                    g = g - 1;
                }
                proof {
                    let st_cur = state_at(memory@, *ptr as int, output@, input@, *input_pos as int);
                    assert(eval_inst(cur, st_cur, g as nat) == Some(EvalOutcome::Done(st_cur)));
                }
            },
        }
        proof {
            let st_post = state_at(memory@, *ptr as int, output@, input@, *input_pos as int);
            assert(eval_inst(cur, st_pre, fuel as nat) == Some(EvalOutcome::Done(st_post)));
            lemma_eval_insts_snoc(instructions@.take(k as int), cur, st0, st_pre, fuel as nat);
            assert(instructions@.take(k + 1) =~= instructions@.take(k as int).push(cur));
        }
        k = k + 1;
    }
    proof {
        assert(instructions@.take(n as int) =~= instructions@);
    }
    Ok(())
}

/// Run a program against a caller-supplied tape. The cursor starts at the
/// first cell; the input bytes are consumed from the front; the emitted
/// characters are appended to `output`. `fuel` bounds how often any loop may
/// be re-entered. The result is exactly what the semantics `eval_insts` says
/// of the program on that starting state with that bound: normal completion,
/// an abort on exhausted input with everything emitted so far retained, or
/// the fuel bound reached.
pub fn interpret(
    instructions: &Vec<Instruction>,
    memory: &mut Vec<u8>,
    input: &[u8],
    output: &mut String,
    fuel: u64,
) -> (r: Result<(), InterpreterError>)
    requires
        old(memory)@.len() > 0,
    ensures
        final(memory)@.len() == old(memory)@.len(),
        old(output)@.is_prefix_of(final(output)@),
        ({
            let st0 = state_at(old(memory)@, 0, old(output)@, input@, 0);
            match r {
                Ok(()) => eval_insts(instructions@, st0, fuel as nat) matches Some(
                    EvalOutcome::Done(st1),
                ) && st1.tape == final(memory)@ && st1.out == final(output)@,
                Err(InterpreterError::InputExhausted) => eval_insts(
                    instructions@,
                    st0,
                    fuel as nat,
                ) matches Some(EvalOutcome::Exhausted(st1)) && st1.tape == final(memory)@
                    && st1.out == final(output)@,
                Err(InterpreterError::OutOfFuel) => eval_insts(instructions@, st0, fuel as nat)
                    is None,
                Err(InterpreterError::OutputFailure) => false,
            }
        }),
{
    let mut ptr: usize = 0;
    let mut input_pos: usize = 0;
    let r = interpret_internal(instructions, memory, output, &mut ptr, input, &mut input_pos, fuel);
    proof {
        assert(input@.skip(0) =~= input@);
    }
    r
}

/// Law: moving left from the first cell wraps to the last cell, and an output
/// instruction then emits exactly that cell's value, tape and input untouched.
pub proof fn lemma_wrap_left_reads_last(st: EvalState, fuel: nat)
    requires
        st.cursor == 0,
        st.tape.len() > 0,
    ensures
        eval_insts(seq![Instruction::MoveLeft, Instruction::Output], st, fuel) matches Some(
            EvalOutcome::Done(st1),
        ) && st1.cursor == st.tape.len() - 1 && st1.out == st.out.push(
            st.tape[st.tape.len() - 1] as char,
        ) && st1.tape == st.tape && st1.inp == st.inp,
{
    let s = seq![Instruction::MoveLeft, Instruction::Output];
    assert(s[0] == Instruction::MoveLeft);
    assert(s.drop_first() =~= seq![Instruction::Output]);
    let m = EvalState { cursor: st.tape.len() - 1, ..st };
    assert(eval_inst(s[0], st, fuel) == Some(EvalOutcome::Done(m)));
    assert(seq![Instruction::Output].drop_first() =~= Seq::<Instruction>::empty());
    let m2 = EvalState { out: m.out.push(m.tape[m.cursor] as char), ..m };
    assert(seq![Instruction::Output][0] == Instruction::Output);
    assert(eval_inst(Instruction::Output, m, fuel) == Some(EvalOutcome::Done(m2)));
    assert(eval_insts(Seq::<Instruction>::empty(), m2, fuel) == Some(EvalOutcome::Done(m2)));
    assert(eval_insts(seq![Instruction::Output], m, fuel) == Some(EvalOutcome::Done(m2)));
    assert(eval_insts(s, st, fuel) == Some(EvalOutcome::Done(m2)));
}

/// Law: an input instruction met with no input byte left aborts the run and
/// retains the whole state, the output already emitted included.
pub proof fn lemma_input_exhausted(st: EvalState, fuel: nat)
    requires
        st.inp.len() == 0,
    ensures
        eval_inst(Instruction::Input, st, fuel) == Some(EvalOutcome::Exhausted(st)),
{
}

/// Law: a loop whose test cell is zero on entry runs its body zero times and
/// has no effect at all: tape, cursor, output and input are unchanged.
pub proof fn lemma_loop_zero_cell(body: Vec<Instruction>, st: EvalState, fuel: nat)
    requires
        st.tape[st.cursor] == 0,
    ensures
        eval_inst(Instruction::Loop(body), st, fuel) == Some(EvalOutcome::Done(st)),
{
}

} // verus!
