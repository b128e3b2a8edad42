//! Diagnostic runs of the machine: one engine over the bare program,
//! primed with a single diagnostic identifier, run to its halt; the
//! whole output stream is the report.

use vstd::prelude::*;
use crate::machine::{
    IntcodeMachine, StepOutcome, init_state, halts, halts_within, faults, blocks, final_state,
    run_budget, lemma_reaches_halted, lemma_reaches_blocked, lemma_reaches_faulted,
    lemma_ran_past_no_halt_within, MState,
};
use crate::amplifiers::PipelineError;

verus! {

/// What a single-engine run owes on each outcome: success carries the
/// halted run's whole output stream, and every error names the fate
/// that rules success out.
pub open spec fn single_run_err(start: MState, e: PipelineError) -> bool {
    match e {
        PipelineError::StageBlocked => blocks(start) && !halts(start),
        PipelineError::StageFaulted => faults(start) && !halts(start),
        PipelineError::Stalled => !halts_within(start, run_budget()),
        PipelineError::NoOutput => halts(start) && final_state(start).output.len() == 0,
    }
}

/// Runs the program with the diagnostic identifier as its one input
/// and reports everything it emits.  Success is owed exactly when the
/// machine halts within the step budget.
pub fn run_diagnostic(program: &Vec<i64>, id: i64) -> (r: Result<Vec<i64>, PipelineError>)
    ensures
        match r {
            Ok(outs) => {
                &&& halts(init_state(program@, Some(id), Seq::<i64>::empty()))
                &&& outs@ == final_state(init_state(program@, Some(id), Seq::<i64>::empty())).output
            },
            Err(e) => e != PipelineError::NoOutput && single_run_err(
                init_state(program@, Some(id), Seq::<i64>::empty()),
                e,
            ),
        },
{
    let mut m = IntcodeMachine::new(program, id);
    let ghost start = init_state(program@, Some(id), Seq::<i64>::empty());
    proof {
        assert(m@ =~= start);
    }
    match m.run() {
        StepOutcome::Halted => {
            proof {
                lemma_reaches_halted(start, m@);
            }
            Ok(m.outputs().clone())
        },
        StepOutcome::NeedInput => {
            proof {
                lemma_reaches_blocked(start, m@);
            }
            Err(PipelineError::StageBlocked)
        },
        StepOutcome::Faulted => {
            proof {
                lemma_reaches_faulted(start, m@);
            }
            Err(PipelineError::StageFaulted)
        },
        StepOutcome::Progressed => {
            proof {
                lemma_ran_past_no_halt_within(start, m@, run_budget());
            }
            Err(PipelineError::Stalled)
        },
    }
}

/// The basic diagnostic identifier.
pub fn solve_1(program: &Vec<i64>) -> (r: Result<Vec<i64>, PipelineError>)
    ensures
        match r {
            Ok(outs) => {
                &&& halts(init_state(program@, Some(1i64), Seq::<i64>::empty()))
                &&& outs@ == final_state(
                    init_state(program@, Some(1i64), Seq::<i64>::empty()),
                ).output
            },
            Err(e) => e != PipelineError::NoOutput && single_run_err(
                init_state(program@, Some(1i64), Seq::<i64>::empty()),
                e,
            ),
        },
{
    run_diagnostic(program, 1)
}

/// The extended diagnostic identifier.
pub fn solve_2(program: &Vec<i64>) -> (r: Result<Vec<i64>, PipelineError>)
    ensures
        match r {
            Ok(outs) => {
                &&& halts(init_state(program@, Some(5i64), Seq::<i64>::empty()))
                &&& outs@ == final_state(
                    init_state(program@, Some(5i64), Seq::<i64>::empty()),
                ).output
            },
            Err(e) => e != PipelineError::NoOutput && single_run_err(
                init_state(program@, Some(5i64), Seq::<i64>::empty()),
                e,
            ),
        },
{
    run_diagnostic(program, 5)
}

} // verus!
