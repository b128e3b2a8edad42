//! The full machine put to work on its own: one engine over a program
//! padded with scratch cells, primed and fed a single test value, run
//! to its halt, reporting the first value it emits.

use vstd::prelude::*;
use crate::machine::{
    IntcodeMachine, StepOutcome, init_state, halts, final_state, padded_program, with_scratch,
    run_budget, lemma_reaches_halted, lemma_reaches_blocked, lemma_reaches_faulted,
    lemma_ran_past_no_halt_within,
};
use crate::amplifiers::PipelineError;
use crate::diagnostics::single_run_err;

verus! {

/// The state a boost run starts from: the program with `extra`
/// scratch cells, the test value as the phase setting, and one copy of
/// the test value queued on the input port.
pub open spec fn boost_start(prog: Seq<i64>, extra: nat, value: i64) -> crate::machine::MState {
    init_state(padded_program(prog, extra), Some(value), seq![value])
}

/// Runs one machine over the padded program with the given test value
/// and reports the first value it emits.  Success is owed whenever the
/// machine halts having emitted at least one value; `Stalled` is only
/// for an exhausted step budget.
pub fn run_boost(program: &Vec<i64>, extra: usize, value: i64) -> (r: Result<i64, PipelineError>)
    ensures
        match r {
            Ok(v) => {
                &&& halts(boost_start(program@, extra as nat, value))
                &&& final_state(boost_start(program@, extra as nat, value)).output.len() > 0
                &&& v == final_state(boost_start(program@, extra as nat, value)).output[0]
            },
            Err(e) => single_run_err(boost_start(program@, extra as nat, value), e),
        },
{
    let padded = with_scratch(program, extra);
    let mut m = IntcodeMachine::new(&padded, value);
    m.set_input(value);
    let ghost start = boost_start(program@, extra as nat, value);
    proof {
        assert(m@ =~= start);
    }
    match m.run() {
        StepOutcome::Halted => {
            proof {
                lemma_reaches_halted(start, m@);
            }
            let outs = m.outputs();
            if outs.len() == 0 {
                return Err(PipelineError::NoOutput);
            }
            Ok(outs[0])
        },
        StepOutcome::NeedInput => {
            proof {
                lemma_reaches_blocked(start, m@);
            }
            Err(PipelineError::StageBlocked)
        },
        StepOutcome::Faulted => {
            proof {
                lemma_reaches_faulted(start, m@);
            }
            Err(PipelineError::StageFaulted)
        },
        StepOutcome::Progressed => {
            proof {
                lemma_ran_past_no_halt_within(start, m@, run_budget());
            }
            Err(PipelineError::Stalled)
        },
    }
}

/// The first test value over 100 scratch cells.
pub fn solve_1(program: &Vec<i64>) -> (r: Result<i64, PipelineError>)
    ensures
        match r {
            Ok(v) => {
                &&& halts(boost_start(program@, 100nat, 1i64))
                &&& final_state(boost_start(program@, 100nat, 1i64)).output.len() > 0
                &&& v == final_state(boost_start(program@, 100nat, 1i64)).output[0]
            },
            Err(e) => single_run_err(boost_start(program@, 100nat, 1i64), e),
        },
{
    run_boost(program, 100, 1)
}

/// The second test value over 1000 scratch cells.
pub fn solve_2(program: &Vec<i64>) -> (r: Result<i64, PipelineError>)
    ensures
        match r {
            Ok(v) => {
                &&& halts(boost_start(program@, 1000nat, 2i64))
                &&& final_state(boost_start(program@, 1000nat, 2i64)).output.len() > 0
                &&& v == final_state(boost_start(program@, 1000nat, 2i64)).output[0]
            },
            Err(e) => single_run_err(boost_start(program@, 1000nat, 2i64), e),
        },
{
    run_boost(program, 1000, 2)
}

} // verus!
