//! A verified interpreter for a minimal eight-symbol language over a tape of
//! eight-bit cells. The parser turns source text into a nested instruction
//! tree and validates bracket structure, reporting exact source positions;
//! the evaluator walks the tree against a caller-supplied tape with circular
//! cursor movement and wraparound cell arithmetic. Both are specified against
//! a small mathematical semantics (`lexer::scan`, `lexer::render_insts`,
//! `interpreter::eval_insts`) and proved to implement it.

use vstd::prelude::*;

pub mod interpreter;
pub mod lexer;

pub use interpreter::InterpreterError;
pub use interpreter::interpret;
pub use lexer::Instruction;
pub use lexer::LexerError;
pub use lexer::parse;
pub use lexer::parse_block;
pub use lexer::program_to_source;
pub use lexer::remove_comments;

use interpreter::EvalOutcome;
use interpreter::eval_insts;
use interpreter::state_at;
use lexer::ScanState;
use lexer::chars_of;
use lexer::cmd_tokens;
use lexer::render_insts;
use lexer::scan;

verus! {

/// Number of tape cells that the convenience entry point allocates.
pub const DEFAULT_TAPE_LEN: usize = 30000;

/// An error from either stage of a complete run: a structural error found by
/// the parser, or a runtime error met by the evaluator. The two families are
/// never conflated.
#[derive(Debug, Clone, Copy, PartialEq, Eq, Structural)]
pub enum BrainQuackError {
    LexerError(LexerError),
    InterpreterError(InterpreterError),
}

/// A tape of `len` cells, all zero.
pub open spec fn zero_tape(len: nat) -> Seq<u8> {
    Seq::new(len, |i: int| 0u8)
}

/// Allocate a fresh tape of the given number of cells, all zero.
pub fn new_tape(len: usize) -> (t: Vec<u8>)
    ensures
        t@ == zero_tape(len as nat),
{
    let mut t: Vec<u8> = Vec::new();
    let mut i: usize = 0;
    while i < len
        invariant
            i <= len,
            t@.len() == i,
            forall|j: int| 0 <= j < i ==> t@[j] == 0u8,
        decreases len - i,
    {
        t.push(0);
        i = i + 1;
    }
    proof {
        assert(t@ =~= zero_tape(len as nat));
    }
    t
}

/// Parse a source text and run it on a fresh zeroed tape of the default
/// size, reading from `input` and appending the emitted characters to
/// `output`. `fuel` bounds loop re-entries as in `interpret`. The result
/// states which stage failed and exactly as the parser's and the evaluator's
/// own contracts describe: a structural error if and only if the brackets of
/// the source do not match, else the outcome of evaluating the parsed
/// program, whose canonical source is the comment-stripped text.
pub fn execute(code: &str, input: &[u8], output: &mut String, fuel: u64) -> (r: Result<
    (),
    BrainQuackError,
>)
    ensures
        old(output)@.is_prefix_of(final(output)@),
        ({
            let toks = cmd_tokens(code@);
            let st0 = state_at(zero_tape(DEFAULT_TAPE_LEN as nat), 0, old(output)@, input@, 0);
            match r {
                Ok(()) => scan(toks) == ScanState::Opens(Seq::<usize>::empty()) && (exists|
                    prog: Seq<Instruction>,
                |
                    {
                        &&& #[trigger] render_insts(prog) == chars_of(toks)
                        &&& eval_insts(prog, st0, fuel as nat) matches Some(EvalOutcome::Done(st1))
                            && st1.out == final(output)@
                    }),
                Err(BrainQuackError::LexerError(LexerError::UnmatchedCloseBracket(i))) => scan(
                    toks,
                ) == ScanState::UnmatchedClose(i),
                Err(BrainQuackError::LexerError(LexerError::UnmatchedOpenBracket(i))) => scan(toks)
                    matches ScanState::Opens(stk) && stk.len() > 0 && stk.last() == i,
                Err(BrainQuackError::InterpreterError(e)) => scan(toks) == ScanState::Opens(
                    Seq::<usize>::empty(),
                ) && match e {
                    InterpreterError::InputExhausted => (exists|prog: Seq<Instruction>|
                        {
                            &&& #[trigger] render_insts(prog) == chars_of(toks)
                            &&& eval_insts(prog, st0, fuel as nat) matches Some(
                                EvalOutcome::Exhausted(st1),
                            ) && st1.out == final(output)@
                        }),
                    InterpreterError::OutOfFuel => exists|prog: Seq<Instruction>|
                        #[trigger] render_insts(prog) == chars_of(toks) && eval_insts(
                            prog,
                            st0,
                            fuel as nat,
                        ) is None,
                    InterpreterError::OutputFailure => false,
                },
            }
        }),
{
    let instructions = match parse(code) {
        Ok(p) => p,
        Err(e) => {
            return Err(BrainQuackError::LexerError(e));
        },
    };
    let mut memory = new_tape(DEFAULT_TAPE_LEN);
    let r = interpret(&instructions, &mut memory, input, output, fuel);
    match r {
        Ok(()) => Ok(()),
        Err(e) => Err(BrainQuackError::InterpreterError(e)),
    }
}

} // verus!
