//! Composition of several Intcode machines into amplifier pipelines:
//! a chain, where each stage runs to completion and its whole output
//! stream becomes the next stage's input; and a feedback ring, where
//! the last stage's output is wired back into the first before any
//! stage starts.  Every stage is primed with its own phase setting, and
//! the composer searches all permutations of the phase settings for the
//! largest final value.

use vstd::prelude::*;
use vstd::multiset::Multiset;
use crate::machine::{
    IntcodeMachine, MState, Status, StepOutcome, init_state, halts, halts_within, faults, blocks,
    run_budget, ran_past, final_state, with_inputs, wf_state, reaches, blocked_on_input,
    lemma_reaches_io,
    lemma_reaches_refl, lemma_reaches_trans, lemma_reaches_append_seq, lemma_reaches_halted,
    lemma_reaches_blocked, lemma_reaches_faulted, lemma_reaches_then_ran_past,
    lemma_ran_past_no_halt_within,
};

verus! {

broadcast use vstd::seq_lib::group_to_multiset_ensures;

/// Why a pipeline run reported no value.
#[derive(Clone, Copy, Debug, PartialEq, Eq, Structural)]
pub enum PipelineError {
    /// A stage ended in a fatal fault.
    StageFaulted,
    /// A stage pulled on its input port and no value can ever arrive.
    StageBlocked,
    /// Every stage halted but the final stage emitted nothing.
    NoOutput,
    /// The step budget ran out before the pipeline settled.
    Stalled,
}

/// The stage halts when primed with `phase` and fed `ins`.
pub open spec fn machine_halts(prog: Seq<i64>, phase: i64, ins: Seq<i64>) -> bool {
    halts(init_state(prog, Some(phase), ins))
}

/// Everything the stage emits when primed with `phase` and fed `ins`,
/// run to its halt.
pub open spec fn machine_outputs(prog: Seq<i64>, phase: i64, ins: Seq<i64>) -> Seq<i64> {
    final_state(init_state(prog, Some(phase), ins)).output
}

/// The stream the chain's last stage emits: stage 0 is fed `ins`, and
/// each further stage is fed the whole output stream of the stage
/// before it.
pub open spec fn chain_outputs(prog: Seq<i64>, phases: Seq<i64>, ins: Seq<i64>) -> Seq<i64>
    decreases phases.len(),
{
    if phases.len() == 0 {
        ins
    } else {
        machine_outputs(prog, phases.last(), chain_outputs(prog, phases.drop_last(), ins))
    }
}

/// Every stage of the chain halts on the stream handed to it.
pub open spec fn chain_halts(prog: Seq<i64>, phases: Seq<i64>, ins: Seq<i64>) -> bool
    decreases phases.len(),
{
    if phases.len() == 0 {
        true
    } else {
        chain_halts(prog, phases.drop_last(), ins) && machine_halts(
            prog,
            phases.last(),
            chain_outputs(prog, phases.drop_last(), ins),
        )
    }
}

/// The state one stage starts from: the program, its phase setting,
/// and the stream handed to it.
pub open spec fn stage_start(prog: Seq<i64>, phase: i64, ins: Seq<i64>) -> MState {
    init_state(prog, Some(phase), ins)
}

/// What a chain run owes on each error: the stage that ended it is
/// named with the stream it was fed, together with its fate.
pub open spec fn chain_error(prog: Seq<i64>, phases: Seq<i64>, ins0: Seq<i64>, e: PipelineError) -> bool {
    match e {
        PipelineError::StageBlocked => exists|k: int|
            0 <= k < phases.len() && chain_halts(prog, phases.take(k), ins0) && #[trigger] blocks(
                stage_start(prog, phases[k], chain_outputs(prog, phases.take(k), ins0)),
            ),
        PipelineError::StageFaulted => exists|k: int|
            0 <= k < phases.len() && chain_halts(prog, phases.take(k), ins0) && #[trigger] faults(
                stage_start(prog, phases[k], chain_outputs(prog, phases.take(k), ins0)),
            ),
        PipelineError::Stalled => exists|k: int|
            0 <= k < phases.len() && chain_halts(prog, phases.take(k), ins0) && !(
            #[trigger] halts_within(
                stage_start(prog, phases[k], chain_outputs(prog, phases.take(k), ins0)),
                run_budget(),
            )),
        PipelineError::NoOutput => chain_halts(prog, phases, ins0) && chain_outputs(
            prog,
            phases,
            ins0,
        ).len() == 0,
    }
}

/// A halting chain halts on every prefix of its stages.
proof fn lemma_chain_halts_take(prog: Seq<i64>, phases: Seq<i64>, ins: Seq<i64>, k: int)
    requires
        chain_halts(prog, phases, ins),
        0 <= k <= phases.len(),
    ensures
        chain_halts(prog, phases.take(k), ins),
    decreases phases.len() - k,
{
    if k < phases.len() {
        lemma_chain_halts_take(prog, phases, ins, k + 1);
        assert(phases.take(k + 1).drop_last() =~= phases.take(k));
        assert(chain_halts(prog, phases.take(k + 1), ins));
    } else {
        assert(phases.take(k) =~= phases);
    }
}

/// Feeds `values` to the machine's input port, in order.
fn feed_all(m: &mut IntcodeMachine, values: &Vec<i64>)
    ensures
        final(m)@ == (MState { input: old(m)@.input + values@, ..old(m)@ }),
{
    let mut j: usize = 0;
    while j < values.len()
        invariant
            j <= values.len(),
            m@ == (MState { input: old(m)@.input + values@.take(j as int), ..old(m)@ }),
        decreases values.len() - j,
    {
        m.set_input(values[j]);
        proof {
            assert(old(m)@.input + values@.take(j as int + 1) =~= (old(m)@.input
                + values@.take(j as int)).push(values@[j as int]));
            assert(m@ =~= (MState { input: old(m)@.input + values@.take(j as int + 1), ..old(m)@ }));
        }
        j = j + 1;
    }
    proof {
        assert(values@.take(values@.len() as int) =~= values@);
        assert(m@ =~= (MState { input: old(m)@.input + values@, ..old(m)@ }));
    }
}

/// Runs the chain: each stage is built over the program, primed with
/// its phase setting, fed the previous stage's whole output stream
/// (stage 0 gets the single seed value 0), and run to its halt.  The
/// pipeline's value is the first value the final stage emits.
///
/// Success is owed whenever every stage halts and the final stage
/// emits at least one value; the error otherwise says which stage
/// condition failed, and `Stalled` is only for an exhausted step
/// budget.
pub fn get_output(program: &Vec<i64>, phase_settings: Vec<i64>) -> (r: Result<i64, PipelineError>)
    ensures
        match r {
            Ok(v) => {
                &&& chain_halts(program@, phase_settings@, seq![0i64])
                &&& chain_outputs(program@, phase_settings@, seq![0i64]).len() > 0
                &&& v == chain_outputs(program@, phase_settings@, seq![0i64])[0]
            },
            Err(e) => chain_error(program@, phase_settings@, seq![0i64], e),
        },
{
    let ghost prog = program@;
    let ghost phases = phase_settings@;
    let ghost seed = seq![0i64];
    let mut ins: Vec<i64> = Vec::new();
    ins.push(0);
    proof {
        assert(ins@ =~= seed);
        assert(phases.take(0) =~= Seq::<i64>::empty());
        assert(chain_outputs(prog, phases.take(0), seed) == seed);
    }
    let mut k: usize = 0;
    while k < phase_settings.len()
        invariant
            k <= phase_settings.len(),
            prog == program@,
            phases == phase_settings@,
            seed == seq![0i64],
            chain_halts(prog, phases.take(k as int), seed),
            ins@ == chain_outputs(prog, phases.take(k as int), seed),
        decreases phase_settings.len() - k,
    {
        let mut m = IntcodeMachine::new(program, phase_settings[k]);
        feed_all(&mut m, &ins);
        let ghost start = init_state(prog, Some(phases[k as int]), ins@);
        proof {
            assert(m@ =~= start);
        }
        let outcome = m.run();
        match outcome {
            StepOutcome::Halted => {
                proof {
                    lemma_reaches_halted(start, m@);
                    assert(machine_halts(prog, phases[k as int], ins@));
                    assert(m@.output == machine_outputs(prog, phases[k as int], ins@));
                    assert(phases.take(k + 1).drop_last() =~= phases.take(k as int));
                    assert(phases.take(k + 1).last() == phases[k as int]);
                }
                ins = m.outputs().clone();
                proof {
                    assert(ins@ == chain_outputs(prog, phases.take(k + 1), seed));
                    assert(chain_halts(prog, phases.take(k + 1), seed));
                }
                k = k + 1;
            },
            StepOutcome::NeedInput => {
                proof {
                    lemma_reaches_blocked(start, m@);
                    assert(blocks(stage_start(prog, phases[k as int], chain_outputs(
                        prog,
                        phases.take(k as int),
                        seed,
                    ))));
                }
                return Err(PipelineError::StageBlocked);
            },
            StepOutcome::Faulted => {
                proof {
                    lemma_reaches_faulted(start, m@);
                    assert(faults(stage_start(prog, phases[k as int], chain_outputs(
                        prog,
                        phases.take(k as int),
                        seed,
                    ))));
                }
                return Err(PipelineError::StageFaulted);
            },
            StepOutcome::Progressed => {
                proof {
                    lemma_ran_past_no_halt_within(start, m@, run_budget());
                    assert(!halts_within(stage_start(prog, phases[k as int], chain_outputs(
                        prog,
                        phases.take(k as int),
                        seed,
                    )), run_budget()));
                }
                return Err(PipelineError::Stalled);
            },
        }
    }
    proof {
        assert(phases.take(phases.len() as int) =~= phases);
    }
    if ins.len() == 0 {
        return Err(PipelineError::NoOutput);
    }
    Ok(ins[0])
}

/// The candidate holds exactly the stack's and the queue's values.
pub open spec fn is_arrangement_of(elem: Seq<i64>, st: Seq<i64>, q: Seq<i64>) -> bool {
    elem.to_multiset() == st.to_multiset().add(q.to_multiset())
}

/// The number of orderings of `n` values.
pub open spec fn fact(n: nat) -> nat
    decreases n,
{
    if n == 0 {
        1
    } else {
        n * fact((n - 1) as nat)
    }
}

/// Every ordering of the queue's values, appended behind the stack's
/// current contents and collected onto `output`.  The stack and the
/// queue come back exactly as they went in.
///
/// The count and the last two clauses say the enumeration is exact:
/// one row per ordering, every added row rearranges stack and queue,
/// and every arrangement of the queue behind the stack is among the
/// rows.
pub fn generate_permutations(stack: &mut Vec<i64>, queue: &mut Vec<i64>, output: Vec<Vec<i64>>) -> (r:
    Vec<Vec<i64>>)
    ensures
        final(stack)@ == old(stack)@,
        final(queue)@ == old(queue)@,
        r@.len() == output@.len() + fact(old(queue)@.len()),
        forall|k: int| 0 <= k < output@.len() ==> r@[k] == output@[k],
        forall|k: int|
            output@.len() <= k < r@.len() ==> is_arrangement_of(
                (#[trigger] r@[k])@,
                old(stack)@,
                old(queue)@,
            ),
        forall|p: Seq<i64>|
            #[trigger] p.to_multiset() == old(queue)@.to_multiset() ==> exists|k: int|
                0 <= k < r@.len() && (#[trigger] r@[k])@ == old(stack)@ + p,
    decreases old(queue)@.len(),
{
    if queue.len() == 0 {
        let mut r = output;
        r.push(stack.clone());
        proof {
            assert forall|p: Seq<i64>|
                #[trigger] p.to_multiset() == old(queue)@.to_multiset() implies exists|k: int|
                0 <= k < r@.len() && (#[trigger] r@[k])@ == old(stack)@ + p by {
                assert(p.len() == p.to_multiset().len());
                assert(p.len() == 0);
                assert(p =~= Seq::<i64>::empty());
                assert(old(stack)@ + p =~= old(stack)@);
                assert(r@[r@.len() - 1]@ == old(stack)@ + p);
            }
            assert forall|k: int|
                output@.len() <= k < r@.len() implies is_arrangement_of(
                (#[trigger] r@[k])@,
                old(stack)@,
                old(queue)@,
            ) by {
                assert(r@[k]@ == stack@);
                assert(old(queue)@.to_multiset() =~= Multiset::<i64>::empty());
                assert(stack@.to_multiset().add(old(queue)@.to_multiset()) =~= stack@.to_multiset());
            }
        }
        return r;
    }
    let n: usize = queue.len();
    let ghost q0 = queue@;
    let ghost st0 = stack@;
    let mut out = output;
    let mut it: usize = 0;
    while it < n
        invariant
            it <= n,
            n == q0.len(),
            stack@ == st0,
            old(stack)@ == st0,
            old(queue)@ == q0,
            queue@ == q0.skip(it as int) + q0.take(it as int),
            out@.len() == output@.len() + it * fact((n - 1) as nat),
            forall|k: int| 0 <= k < output@.len() ==> out@[k] == output@[k],
            forall|k: int|
                output@.len() <= k < out@.len() ==> is_arrangement_of(
                    (#[trigger] out@[k])@,
                    st0,
                    q0,
                ),
            forall|p: Seq<i64>|
                (#[trigger] p.to_multiset() == q0.to_multiset() && exists|j: int|
                    0 <= j < it && p.len() > 0 && p[0] == q0[j]) ==> exists|k: int|
                    0 <= k < out@.len() && (#[trigger] out@[k])@ == st0 + p,
        decreases n - it,
    {
        proof {
            assert(queue@.len() == n);
            assert(queue@[0] == q0[it as int]);
        }
        let front: i64 = queue.remove(0);
        stack.push(front);
        let ghost st1 = stack@;
        let ghost q1 = queue@;
        let ghost out_before = out@;
        let ghost out_len_pre = out@.len() as int;
        out = generate_permutations(stack, queue, out);
        proof {
            assert(out@.len() == out_len_pre + fact((n - 1) as nat));
            assert((it + 1) * fact((n - 1) as nat) == it * fact((n - 1) as nat) + fact(
                (n - 1) as nat,
            )) by (nonlinear_arith);
            // what the recursion's stack and queue held
            assert(q1 =~= (q0.skip(it as int) + q0.take(it as int)).remove(0));
            assert(q1.to_multiset() == q0.to_multiset().remove(q0[it as int])) by {
                let rot = q0.skip(it as int) + q0.take(it as int);
                vstd::seq_lib::lemma_multiset_commutative(q0.skip(it as int), q0.take(it as int));
                vstd::seq_lib::lemma_multiset_commutative(q0.take(it as int), q0.skip(it as int));
                assert(q0.take(it as int) + q0.skip(it as int) =~= q0);
                assert(rot.to_multiset() =~= q0.to_multiset());
                assert(rot.remove(0).to_multiset() =~= rot.to_multiset().remove(rot[0]));
                assert(rot[0] == q0[it as int]);
            }
            assert(st1.to_multiset() == st0.to_multiset().insert(q0[it as int]));
            // soundness of the new rows
            assert forall|k: int|
                output@.len() <= k < out@.len() implies is_arrangement_of(
                (#[trigger] out@[k])@,
                st0,
                q0,
            ) by {
                if k < out_before.len() {
                    assert(out@[k] == out_before[k]);
                } else {
                    assert(is_arrangement_of(out@[k]@, st1, q1));
                    assert(q0.to_multiset().contains(q0[it as int]));
                    assert(st1.to_multiset().add(q1.to_multiset()) =~= st0.to_multiset().add(
                        q0.to_multiset(),
                    ));
                }
            }
        }
        let popped: i64 = match stack.pop() {
            Some(x) => x,
            None => {
                proof {
                    assert(false);
                }
                0
            },
        };
        queue.push(popped);
        proof {
            assert(stack@ =~= st0);
            assert(popped == q0[it as int]);
            assert(queue@ =~= q0.skip(it as int + 1) + q0.take(it as int + 1)) by {
                assert(queue@ =~= q1.push(q0[it as int]));
                assert(q1 =~= q0.skip(it as int).remove(0) + q0.take(it as int));
                assert(q0.skip(it as int).remove(0) =~= q0.skip(it as int + 1));
                assert(q1.push(q0[it as int]) =~= q0.skip(it as int + 1) + q0.take(it as int + 1));
            }
            // completeness grows by the arrangements whose first value is q0[it]
            assert forall|p: Seq<i64>|
                (#[trigger] p.to_multiset() == q0.to_multiset() && exists|j: int|
                    0 <= j < it + 1 && p.len() > 0 && p[0] == q0[j]) implies exists|k: int|
                0 <= k < out@.len() && (#[trigger] out@[k])@ == st0 + p by {
                let j = choose|j: int| 0 <= j < it + 1 && p.len() > 0 && p[0] == q0[j];
                if p[0] == q0[it as int] {
                    let rest = p.remove(0);
                    assert(rest.to_multiset() == p.to_multiset().remove(p[0]));
                    assert(rest.to_multiset() == q1.to_multiset());
                    let k = choose|k: int|
                        0 <= k < out@.len() && (#[trigger] out@[k])@ == st1 + rest;
                    assert(out@[k]@ == st1 + rest);
                    assert(st1 + rest =~= st0 + p) by {
                        assert(st1 =~= st0.push(p[0]));
                        assert(p =~= seq![p[0]] + rest);
                    }
                } else {
                    assert(exists|jj: int| 0 <= jj < it && p.len() > 0 && p[0] == q0[jj]);
                }
            }
        }
        it = it + 1;
    }
    proof {
        assert(queue@ =~= q0);
        assert(fact(q0.len()) == q0.len() * fact((q0.len() - 1) as nat));
        // every arrangement starts with some value of the queue
        assert forall|p: Seq<i64>|
            #[trigger] p.to_multiset() == q0.to_multiset() implies exists|k: int|
            0 <= k < out@.len() && (#[trigger] out@[k])@ == st0 + p by {
            assert(p.len() == p.to_multiset().len());
            assert(p.len() == q0.len());
            assert(p.to_multiset().contains(p[0]));
            assert(q0.contains(p[0]));
            let j = choose|j: int| 0 <= j < q0.len() && q0[j] == p[0];
            assert(0 <= j < n && p.len() > 0 && p[0] == q0[j]);
        }
    }
    out
}

/// The stage before `i` on the ring.
pub open spec fn ring_prev(i: int, n: int) -> int {
    if i == 0 {
        n - 1
    } else {
        i - 1
    }
}

/// What stage `i` sees before the ring's wiring delivers anything:
/// only stage 0 receives the external seed value.
pub open spec fn ring_seed_part(seed: i64, i: int) -> Seq<i64> {
    if i == 0 {
        seq![seed]
    } else {
        Seq::<i64>::empty()
    }
}

/// Stage `i`'s part of a consistent account of a completed ring run:
/// the stage is fed the seed part plus the whole output stream of the
/// stage before it on the ring, halts on that stream, and emits
/// exactly `outs[i]`.
#[verifier::opaque]
pub open spec fn stage_consistent(
    prog: Seq<i64>,
    phases: Seq<i64>,
    seed: i64,
    outs: Seq<Seq<i64>>,
    i: int,
) -> bool {
    let ins = ring_seed_part(seed, i) + outs[ring_prev(i, phases.len() as int)];
    machine_halts(prog, phases[i], ins) && outs[i] == machine_outputs(prog, phases[i], ins)
}

/// `outs` is a consistent account of a completed ring run, stage by
/// stage.
pub open spec fn ring_consistent(
    prog: Seq<i64>,
    phases: Seq<i64>,
    seed: i64,
    outs: Seq<Seq<i64>>,
) -> bool {
    &&& outs.len() == phases.len()
    &&& forall|i: int|
        0 <= i < phases.len() ==> #[trigger] stage_consistent(prog, phases, seed, outs, i)
}

/// The value a completed ring reports: the last value the final stage
/// emitted, or 0 when it emitted nothing.
pub open spec fn ring_value(outs: Seq<Seq<i64>>) -> i64 {
    if outs.last().len() == 0 {
        0i64
    } else {
        outs.last().last()
    }
}

/// Everything the machine emitted from position `from` on.
fn drain_new_outputs(m: &IntcodeMachine, from: usize) -> (vals: Vec<i64>)
    requires
        from <= m@.output.len(),
    ensures
        vals@ == m@.output.skip(from as int),
{
    let outs = m.outputs();
    let mut vals: Vec<i64> = Vec::new();
    let mut k: usize = from;
    while k < outs.len()
        invariant
            from <= k <= outs@.len(),
            outs@ == m@.output,
            vals@ == m@.output.subrange(from as int, k as int),
        decreases outs@.len() - k,
    {
        vals.push(outs[k]);
        proof {
            assert(vals@ =~= m@.output.subrange(from as int, k + 1));
        }
        k = k + 1;
    }
    proof {
        assert(vals@ =~= m@.output.skip(from as int));
    }
    vals
}

/// One stage's part of the running state of a ring: the machine is
/// somewhere along a legitimate run over the inputs delivered to it so
/// far, the delivery cursor is in range, the input stream is the
/// stage's seed part plus the delivered prefix of its ring
/// predecessor's output, and the halt mark is truthful.  Kept opaque
/// so that the scheduler's invariants stay cheap to carry.
#[verifier::opaque]
pub open spec fn stage_inv(
    prog: Seq<i64>,
    phases: Seq<i64>,
    seed: i64,
    machines: Seq<IntcodeMachine>,
    sent: Seq<usize>,
    done: Seq<bool>,
    k: int,
) -> bool {
    let n = phases.len() as int;
    let kp = ring_prev(k, n);
    &&& reaches(init_state(prog, Some(phases[k]), machines[k]@.input), machines[k]@)
    &&& sent[k] <= machines[k]@.output.len()
    &&& machines[k]@.input == ring_seed_part(seed, k) + machines[kp]@.output.take(sent[kp] as int)
    &&& (done[k] ==> machines[k]@.status == Status::Halted)
}

/// The running state of a whole ring.
pub open spec fn ring_inv(
    prog: Seq<i64>,
    phases: Seq<i64>,
    seed: i64,
    machines: Seq<IntcodeMachine>,
    sent: Seq<usize>,
    done: Seq<bool>,
) -> bool {
    &&& machines.len() == phases.len()
    &&& sent.len() == phases.len()
    &&& done.len() == phases.len()
    &&& forall|k: int|
        0 <= k < phases.len() ==> #[trigger] stage_inv(prog, phases, seed, machines, sent, done, k)
}

/// One stage's part of a snapshot of a ring run: the stage stands at
/// the end of a legitimate run over exactly its seed part plus its
/// ring predecessor's whole output stream.  Kept opaque, like
/// `stage_inv`.
#[verifier::opaque]
pub open spec fn stage_wired(
    prog: Seq<i64>,
    phases: Seq<i64>,
    seed: i64,
    sts: Seq<MState>,
    i: int,
) -> bool {
    let n = phases.len() as int;
    let ins = ring_seed_part(seed, i) + sts[ring_prev(i, n)].output;
    reaches(init_state(prog, Some(phases[i]), ins), sts[i]) && sts[i].input == ins
}

/// A snapshot of a whole ring run, every delivery caught up.
pub open spec fn ring_wired(prog: Seq<i64>, phases: Seq<i64>, seed: i64, sts: Seq<MState>) -> bool {
    &&& sts.len() == phases.len()
    &&& forall|i: int|
        0 <= i < phases.len() ==> #[trigger] stage_wired(prog, phases, seed, sts, i)
}

/// The ring starves: every stage has halted or is blocked on its
/// input, at least one is blocked, and nothing is left to deliver.
pub open spec fn ring_starved(prog: Seq<i64>, phases: Seq<i64>, seed: i64, sts: Seq<MState>) -> bool {
    &&& ring_wired(prog, phases, seed, sts)
    &&& forall|i: int|
        0 <= i < sts.len() ==> (#[trigger] sts[i]).status == Status::Halted || blocked_on_input(
            sts[i],
        )
    &&& exists|i: int| 0 <= i < sts.len() && blocked_on_input(#[trigger] sts[i])
}

/// Everything the snapshot's stages have emitted, counted.
pub open spec fn total_output_len(sts: Seq<MState>) -> int
    decreases sts.len(),
{
    if sts.len() == 0 {
        0
    } else {
        total_output_len(sts.drop_last()) + sts.last().output.len()
    }
}

/// The delivery cursors, summed.
pub open spec fn sum_sent(s: Seq<usize>) -> int
    decreases s.len(),
{
    if s.len() == 0 {
        0
    } else {
        sum_sent(s.drop_last()) + s.last()
    }
}

proof fn lemma_sum_sent_update(s: Seq<usize>, i: int, v: usize)
    requires
        0 <= i < s.len(),
    ensures
        sum_sent(s.update(i, v)) == sum_sent(s) + v - s[i],
    decreases s.len(),
{
    if i == s.len() - 1 {
        assert(s.update(i, v).drop_last() =~= s.drop_last());
        assert(s.update(i, v).last() == v);
    } else {
        assert(s.update(i, v).drop_last() =~= s.drop_last().update(i, v));
        assert(s.update(i, v).last() == s.last());
        lemma_sum_sent_update(s.drop_last(), i, v);
    }
}

/// When the cursors have caught up, their sum counts every emission.
proof fn lemma_sums_match(machines: Seq<IntcodeMachine>, sent: Seq<usize>)
    requires
        sent.len() == machines.len(),
        forall|k: int|
            0 <= k < machines.len() ==> sent[k] == (#[trigger] machines[k])@.output.len(),
    ensures
        sum_sent(sent) == total_output_len(Seq::new(machines.len(), |k: int| machines[k]@)),
    decreases machines.len(),
{
    if machines.len() > 0 {
        assert(forall|k: int|
            0 <= k < machines.len() - 1 ==> (#[trigger] machines.drop_last()[k])
                == machines[k]);
        lemma_sums_match(machines.drop_last(), sent.drop_last());
        let full = Seq::new(machines.len(), |k: int| machines[k]@);
        let short = Seq::new(machines.drop_last().len(), |k: int| machines.drop_last()[k]@);
        assert(full.drop_last() =~= short);
        assert(full.last() == machines.last()@);
    }
}

/// What one round of the scheduler owes on each error.
pub open spec fn ring_err_step(prog: Seq<i64>, phases: Seq<i64>, e: PipelineError) -> bool {
    match e {
        PipelineError::StageFaulted => exists|i: int, ins: Seq<i64>|
            0 <= i < phases.len() && #[trigger] faults(init_state(prog, Some(phases[i]), ins)),
        PipelineError::Stalled => exists|i: int, ins: Seq<i64>|
            0 <= i < phases.len() && !(#[trigger] halts_within(
                init_state(prog, Some(phases[i]), ins),
                run_budget(),
            )),
        _ => false,
    }
}

/// What a whole ring run owes on each error: a stage faulted on a
/// stream delivered to it; or the ring starved, every remaining stage
/// blocked with nothing left to deliver; or a budget ran out, either
/// inside one stage or across a ring that kept trading values.
pub open spec fn ring_error(prog: Seq<i64>, phases: Seq<i64>, seed: i64, e: PipelineError) -> bool {
    match e {
        PipelineError::StageFaulted => exists|i: int, ins: Seq<i64>|
            0 <= i < phases.len() && #[trigger] faults(init_state(prog, Some(phases[i]), ins)),
        PipelineError::StageBlocked => exists|sts: Seq<MState>|
            #[trigger] ring_starved(prog, phases, seed, sts),
        PipelineError::Stalled => (exists|i: int, ins: Seq<i64>|
            0 <= i < phases.len() && !(#[trigger] halts_within(
                init_state(prog, Some(phases[i]), ins),
                run_budget(),
            ))) || (exists|sts: Seq<MState>|
            #[trigger] ring_wired(prog, phases, seed, sts) && total_output_len(sts) + 1
                >= run_budget()),
        PipelineError::NoOutput => false,
    }
}

/// One round of the ring's interleaving: runs every stage once, in
/// ring order, and hands each stage's fresh output to its successor.
/// After a round every delivery cursor has caught up with its stage's
/// output stream.  `Ok` carries whether the round delivered anything;
/// a round that delivered nothing left every stage halted or blocked.
#[verifier::rlimit(100)]
fn ring_round(
    program: &Vec<i64>,
    phase_settings: &Vec<i64>,
    seed: i64,
    machines: &mut Vec<IntcodeMachine>,
    sent: &mut Vec<usize>,
    done: &mut Vec<bool>,
) -> (r: Result<bool, PipelineError>)
    requires
        phase_settings@.len() >= 1,
        ring_inv(program@, phase_settings@, seed, old(machines)@, old(sent)@, old(done)@),
    ensures
        match r {
            Ok(fwd) => {
                &&& ring_inv(program@, phase_settings@, seed, final(machines)@, final(sent)@, final(done)@)
                &&& forall|k: int|
                    0 <= k < final(machines)@.len() ==> final(sent)@[k] == (#[trigger] final(
                        machines
                    )@[k])@.output.len()
                &&& !fwd ==> forall|k: int|
                    0 <= k < final(machines)@.len() ==> final(done)@[k] || blocked_on_input(
                        (#[trigger] final(machines)@[k])@,
                    )
                &&& sum_sent(final(sent)@) >= sum_sent(old(sent)@) + (if fwd {
                    1int
                } else {
                    0int
                })
            },
            Err(e) => ring_err_step(program@, phase_settings@, e),
        },
{
    let ghost prog = program@;
    let ghost phases = phase_settings@;
    let n: usize = phase_settings.len();
    let mut forwarded_any: bool = false;
    let mut i: usize = 0;
    while i < n
        invariant
            i <= n,
            n == phases.len(),
            n >= 1,
            prog == program@,
            phases == phase_settings@,
            ring_inv(prog, phases, seed, machines@, sent@, done@),
            forall|k: int|
                0 <= k < i ==> sent@[k] == (#[trigger] machines@[k])@.output.len(),
            !forwarded_any ==> forall|k: int|
                0 <= k < i ==> done@[k] || blocked_on_input((#[trigger] machines@[k])@),
            sum_sent(sent@) >= sum_sent(old(sent)@) + (if forwarded_any {
                1int
            } else {
                0int
            }),
        decreases n - i,
    {
        let ghost machines_pre = machines@;
        let ghost sent_pre = sent@;
        let ghost done_pre = done@;
        proof {
            assert(reaches(
                init_state(prog, Some(phases[i as int]), machines_pre[i as int]@.input),
                machines_pre[i as int]@,
            ) && sent_pre[i as int] <= machines_pre[i as int]@.output.len()) by {
                assert(stage_inv(prog, phases, seed, machines_pre, sent_pre, done_pre, i as int));
                reveal(stage_inv);
            }
        }
        let mut m = machines.remove(i);
        let ghost m_before = m@;
        let rr = m.run();
        match rr {
            StepOutcome::Faulted => {
                proof {
                    lemma_reaches_trans(
                        init_state(prog, Some(phases[i as int]), m_before.input),
                        m_before,
                        m@,
                    );
                    lemma_reaches_faulted(
                        init_state(prog, Some(phases[i as int]), m_before.input),
                        m@,
                    );
                }
                return Err(PipelineError::StageFaulted);
            },
            StepOutcome::Progressed => {
                proof {
                    lemma_reaches_then_ran_past(
                        init_state(prog, Some(phases[i as int]), m_before.input),
                        m_before,
                        m@,
                        run_budget(),
                    );
                    lemma_ran_past_no_halt_within(
                        init_state(prog, Some(phases[i as int]), m_before.input),
                        m@,
                        run_budget(),
                    );
                }
                return Err(PipelineError::Stalled);
            },
            _ => {},
        }
        let ghost m_run = m@;
        proof {
            lemma_reaches_io(m_before, m@);
            lemma_reaches_trans(
                init_state(prog, Some(phases[i as int]), m_before.input),
                m_before,
                m@,
            );
        }
        let from: usize = sent[i];
        let vals = drain_new_outputs(&m, from);
        if vals.len() > 0 {
            forwarded_any = true;
        }
        let new_len: usize = m.outputs().len();
        proof {
            lemma_sum_sent_update(sent@, i as int, new_len);
        }
        sent.set(i, new_len);
        let halted_now: bool = m.is_halted();
        done.set(i, halted_now);
        let j: usize = if i + 1 == n {
            0
        } else {
            i + 1
        };
        proof {
            // a stage's fresh output does not disturb the prefix already delivered
            assert(m_run.output.take(from as int) == m_before.output.take(from as int)) by {
                assert(m_run.output.take(m_before.output.len() as int).take(from as int)
                    =~= m_run.output.take(from as int));
            }
            assert(m_run.output.take(from as int) + vals@ =~= m_run.output.take(new_len as int));
        }
        if j == i {
            // a ring of one stage feeds itself
            proof {
                lemma_reaches_append_seq(
                    init_state(prog, Some(phases[i as int]), m_run.input),
                    m_run,
                    vals@,
                );
                assert(with_inputs(init_state(prog, Some(phases[i as int]), m_run.input), vals@)
                    =~= init_state(prog, Some(phases[i as int]), m_run.input + vals@));
            }
            feed_all(&mut m, &vals);
            let ghost m_fed = m@;
            machines.insert(i, m);
            proof {
                assert(machines@[i as int]@ == m_fed);
                assert(machines@.len() == n);
                assert forall|k: int|
                    0 <= k < n implies #[trigger] stage_inv(
                    prog,
                    phases,
                    seed,
                    machines@,
                    sent@,
                    done@,
                    k,
                ) by {
                    assert(n == 1 && k == 0);
                    assert(stage_inv(prog, phases, seed, machines_pre, sent_pre, done_pre, 0));
                    reveal(stage_inv);
                    assert(m_fed.input =~= ring_seed_part(seed, 0) + m_fed.output.take(
                        new_len as int,
                    ));
                }
            }
        } else {
            machines.insert(i, m);
            let ghost machines_mid = machines@;
            proof {
                assert(machines_mid[i as int]@ == m_run);
                assert(forall|k: int|
                    0 <= k < n && k != i ==> machines_mid[k] == machines_pre[k]);
                assert(reaches(
                    init_state(prog, Some(phases[j as int]), machines_pre[j as int]@.input),
                    machines_pre[j as int]@,
                )) by {
                    assert(stage_inv(prog, phases, seed, machines_pre, sent_pre, done_pre, j as int));
                    reveal(stage_inv);
                }
            }
            let mut mj = machines.remove(j);
            let ghost mj_before = mj@;
            proof {
                lemma_reaches_append_seq(
                    init_state(prog, Some(phases[j as int]), mj_before.input),
                    mj_before,
                    vals@,
                );
                assert(with_inputs(init_state(prog, Some(phases[j as int]), mj_before.input), vals@)
                    =~= init_state(prog, Some(phases[j as int]), mj_before.input + vals@));
            }
            feed_all(&mut mj, &vals);
            let ghost mj_fed = mj@;
            machines.insert(j, mj);
            proof {
                assert(machines@.len() == n);
                assert(machines@[j as int]@ == mj_fed);
                assert(machines@[i as int]@ == m_run);
                assert(forall|k: int|
                    0 <= k < n && k != i && k != j ==> machines@[k] == machines_pre[k]);
                assert forall|k: int|
                    0 <= k < n implies #[trigger] stage_inv(
                    prog,
                    phases,
                    seed,
                    machines@,
                    sent@,
                    done@,
                    k,
                ) by {
                    assert(stage_inv(prog, phases, seed, machines_pre, sent_pre, done_pre, k));
                    reveal(stage_inv);
                    let kp = ring_prev(k, n as int);
                    if k == i {
                        // only stage j's input changed, and a stage's
                        // predecessor keeps its output either way
                        assert(machines@[kp]@.output == machines_pre[kp]@.output);
                        assert(machines@[k]@.input == machines_pre[k]@.input);
                    } else if k == j {
                        assert(kp == i as int);
                        assert(mj_fed.input =~= ring_seed_part(seed, j as int)
                            + m_run.output.take(new_len as int));
                        assert(mj_fed.status == mj_before.status);
                    } else {
                        assert(kp != i as int);
                        assert(machines@[kp]@.output == machines_pre[kp]@.output);
                        assert(machines@[k]@ == machines_pre[k]@);
                    }
                }
            }
        }
        i = i + 1;
    }
    Ok(forwarded_any)
}

/// A caught-up ring state is a wired snapshot, and the cursors' sum
/// counts every emission.
proof fn lemma_ring_snapshot(
    prog: Seq<i64>,
    phases: Seq<i64>,
    seed: i64,
    machines: Seq<IntcodeMachine>,
    sent: Seq<usize>,
    done: Seq<bool>,
)
    requires
        phases.len() >= 1,
        ring_inv(prog, phases, seed, machines, sent, done),
        forall|k: int|
            0 <= k < machines.len() ==> sent[k] == (#[trigger] machines[k])@.output.len(),
    ensures
        ring_wired(prog, phases, seed, Seq::new(machines.len(), |k: int| machines[k]@)),
        total_output_len(Seq::new(machines.len(), |k: int| machines[k]@)) == sum_sent(sent),
{
    let n = phases.len() as int;
    let sts = Seq::new(machines.len(), |k: int| machines[k]@);
    assert forall|k: int| 0 <= k < n implies #[trigger] stage_wired(prog, phases, seed, sts, k) by {
        assert(stage_inv(prog, phases, seed, machines, sent, done, k));
        reveal(stage_inv);
        reveal(stage_wired);
        let kp = ring_prev(k, n);
        assert(machines[kp]@.output.take(sent[kp] as int) =~= machines[kp]@.output);
        assert(sts[k].input == ring_seed_part(seed, k) + sts[kp].output);
    }
    lemma_sums_match(machines, sent);
}

/// Every stage has halted: collects the ring's value, witnessed by the
/// stages' full output streams.
fn ring_collect(
    program: &Vec<i64>,
    phase_settings: &Vec<i64>,
    seed: i64,
    machines: Vec<IntcodeMachine>,
    sent: &Vec<usize>,
) -> (v: i64)
    requires
        phase_settings@.len() >= 1,
        forall|k: int|
            0 <= k < machines@.len() ==> (#[trigger] machines@[k])@.status == Status::Halted,
        forall|k: int|
            0 <= k < machines@.len() ==> sent@[k] == (#[trigger] machines@[k])@.output.len(),
        exists|done: Seq<bool>|
            #[trigger] ring_inv(program@, phase_settings@, seed, machines@, sent@, done),
    ensures
        exists|outs: Seq<Seq<i64>>|
            #[trigger] ring_consistent(program@, phase_settings@, seed, outs) && v == ring_value(
                outs,
            ),
{
    let ghost prog = program@;
    let ghost phases = phase_settings@;
    let n: usize = phase_settings.len();
    let ghost outs = Seq::new(n as nat, |k: int| machines@[k]@.output);
    proof {
        let dn = choose|done: Seq<bool>|
            #[trigger] ring_inv(prog, phases, seed, machines@, sent@, done);
        assert forall|k: int|
            0 <= k < n implies #[trigger] stage_consistent(prog, phases, seed, outs, k) by {
            assert(stage_inv(prog, phases, seed, machines@, sent@, dn, k));
            reveal(stage_inv);
            let kp = ring_prev(k, n as int);
            assert(machines@[kp]@.output.take(sent@[kp] as int) =~= machines@[kp]@.output);
            let ins = ring_seed_part(seed, k) + outs[kp];
            assert(machines@[k]@.input == ins);
            lemma_reaches_halted(init_state(prog, Some(phases[k]), ins), machines@[k]@);
            reveal(stage_consistent);
        }
        assert(ring_consistent(prog, phases, seed, outs));
    }
    let mut ms = machines;
    let m_last = ms.remove(n - 1);
    let last_outs = m_last.outputs();
    let v: i64 = if last_outs.len() == 0 {
        0
    } else {
        last_outs[last_outs.len() - 1]
    };
    proof {
        assert(outs.last() == m_last@.output);
        assert(v == ring_value(outs));
    }
    v
}

/// Whether every stage has halted.
fn all_stages_done(done: &Vec<bool>) -> (r: bool)
    ensures
        r <==> (forall|k: int| 0 <= k < done@.len() ==> done@[k] == true),
{
    let mut i: usize = 0;
    while i < done.len()
        invariant
            i <= done@.len(),
            forall|k: int| 0 <= k < i ==> done@[k] == true,
        decreases done@.len() - i,
    {
        if !done[i] {
            return false;
        }
        i = i + 1;
    }
    true
}

/// Runs a feedback ring: `n` stages, each primed with its phase
/// setting, stage `i`'s output wired into stage `i+1`'s input and the
/// last stage's output wired back into stage 0, which also receives
/// the external seed value once before any stage starts.  Stages are
/// interleaved, each run as far as it can go, until every one of them
/// has halted; the ring's value is the last value the final stage
/// emitted.
///
/// On success the returned value is witnessed by a consistent account
/// of every stage's full output stream.  An error reports a faulted
/// stage, a ring whose remaining stages all starve waiting on one
/// another, or an exhausted step budget.
pub fn run_feedback_loop(program: &Vec<i64>, phase_settings: &Vec<i64>, seed: i64) -> (r: Result<
    i64,
    PipelineError,
>)
    requires
        phase_settings@.len() >= 1,
    ensures
        match r {
            Ok(v) => exists|outs: Seq<Seq<i64>>|
                #[trigger] ring_consistent(program@, phase_settings@, seed, outs) && v
                    == ring_value(outs),
            Err(e) => ring_error(program@, phase_settings@, seed, e),
        },
{
    let ghost prog = program@;
    let ghost phases = phase_settings@;
    let n: usize = phase_settings.len();
    let mut machines: Vec<IntcodeMachine> = Vec::new();
    let mut i: usize = 0;
    while i < n
        invariant
            i <= n,
            n == phases.len(),
            prog == program@,
            phases == phase_settings@,
            machines@.len() == i,
            forall|k: int|
                0 <= k < i ==> (#[trigger] machines@[k])@ == init_state(
                    prog,
                    Some(phases[k]),
                    Seq::<i64>::empty(),
                ),
        decreases n - i,
    {
        machines.push(IntcodeMachine::new(program, phase_settings[i]));
        i = i + 1;
    }
    let mut m0 = machines.remove(0);
    m0.set_input(seed);
    machines.insert(0, m0);
    let mut sent: Vec<usize> = Vec::new();
    let mut done: Vec<bool> = Vec::new();
    let mut i2: usize = 0;
    while i2 < n
        invariant
            i2 <= n,
            sent@.len() == i2,
            done@.len() == i2,
            forall|k: int| 0 <= k < i2 ==> sent@[k] == 0usize && done@[k] == false,
            sum_sent(sent@) == 0,
        decreases n - i2,
    {
        let ghost sent_pre = sent@;
        sent.push(0);
        done.push(false);
        proof {
            assert(sent@.drop_last() =~= sent_pre);
            assert(sent@.last() == 0usize);
        }
        i2 = i2 + 1;
    }
    proof {
        assert forall|k: int|
            0 <= k < n implies #[trigger] stage_inv(prog, phases, seed, machines@, sent@, done@, k) by {
            reveal(stage_inv);
            let kp = ring_prev(k, n as int);
            assert(machines@[k]@.input =~= ring_seed_part(seed, k) + machines@[kp]@.output.take(
                sent@[kp] as int,
            ));
            assert(machines@[k]@ =~= init_state(prog, Some(phases[k]), machines@[k]@.input));
            lemma_reaches_refl(machines@[k]@);
        }
        assert(ring_inv(prog, phases, seed, machines@, sent@, done@));
    }
    let mut fuel: u64 = u64::MAX;
    loop
        invariant
            n == phases.len(),
            n >= 1,
            prog == program@,
            phases == phase_settings@,
            ring_inv(prog, phases, seed, machines@, sent@, done@),
            sum_sent(sent@) + fuel >= u64::MAX,
        decreases fuel,
    {
        let forwarded_any = match ring_round(
            program,
            phase_settings,
            seed,
            &mut machines,
            &mut sent,
            &mut done,
        ) {
            Ok(f) => f,
            Err(e) => {
                return Err(e);
            },
        };
        if all_stages_done(&done) {
            proof {
                assert forall|k: int|
                    0 <= k < machines@.len() implies (#[trigger] machines@[k])@.status
                    == Status::Halted by {
                    assert(stage_inv(prog, phases, seed, machines@, sent@, done@, k));
                    reveal(stage_inv);
                }
                assert(ring_inv(prog, phases, seed, machines@, sent@, done@));
            }
            let v = ring_collect(program, phase_settings, seed, machines, &sent);
            return Ok(v);
        }
        if !forwarded_any {
            proof {
                lemma_ring_snapshot(prog, phases, seed, machines@, sent@, done@);
                let sts = Seq::new(machines@.len(), |k: int| machines@[k]@);
                assert forall|k: int|
                    0 <= k < sts.len() implies (#[trigger] sts[k]).status == Status::Halted
                    || blocked_on_input(sts[k]) by {
                    assert(done@[k] || blocked_on_input(machines@[k]@));
                    assert(done@[k] ==> machines@[k]@.status == Status::Halted) by {
                        assert(stage_inv(prog, phases, seed, machines@, sent@, done@, k));
                        reveal(stage_inv);
                    }
                }
                let kb = choose|kb: int| 0 <= kb < n && done@[kb] == false;
                assert(blocked_on_input(sts[kb]));
                assert(ring_starved(prog, phases, seed, sts));
            }
            return Err(PipelineError::StageBlocked);
        }
        if fuel <= 1 {
            proof {
                lemma_ring_snapshot(prog, phases, seed, machines@, sent@, done@);
                let sts = Seq::new(machines@.len(), |k: int| machines@[k]@);
                assert(total_output_len(sts) + 1 >= run_budget());
                assert(ring_wired(prog, phases, seed, sts) && total_output_len(sts) + 1
                    >= run_budget());
            }
            return Err(PipelineError::Stalled);
        }
        fuel = fuel - 1;
    }
}

/// Runs the feedback ring seeded with 0, as the puzzle wires it.
pub fn get_output_with_feedback_loop(program: &Vec<i64>, phase_settings: Vec<i64>) -> (r: Result<
    i64,
    PipelineError,
>)
    requires
        phase_settings@.len() >= 1,
    ensures
        match r {
            Ok(v) => exists|outs: Seq<Seq<i64>>|
                #[trigger] ring_consistent(program@, phase_settings@, 0i64, outs) && v
                    == ring_value(outs),
            Err(e) => ring_error(program@, phase_settings@, 0i64, e),
        },
{
    run_feedback_loop(program, &phase_settings, 0)
}

/// The largest value of a non-empty sequence.
pub open spec fn seq_max(s: Seq<i64>) -> i64
    recommends
        s.len() > 0,
    decreases s.len(),
{
    if s.len() <= 1 {
        s[0]
    } else if s.last() > seq_max(s.drop_last()) {
        s.last()
    } else {
        seq_max(s.drop_last())
    }
}

proof fn lemma_seq_max_props(s: Seq<i64>)
    requires
        s.len() > 0,
    ensures
        s.contains(seq_max(s)),
        forall|i: int| 0 <= i < s.len() ==> s[i] <= seq_max(s),
    decreases s.len(),
{
    if s.len() > 1 {
        lemma_seq_max_props(s.drop_last());
        assert forall|i: int| 0 <= i < s.len() implies s[i] <= seq_max(s) by {
            if i < s.len() - 1 {
                assert(s.drop_last()[i] == s[i]);
            }
        }
        if seq_max(s) != s.last() {
            let j = choose|j: int| 0 <= j < s.drop_last().len() && s.drop_last()[j] == seq_max(s);
            assert(s[j] == seq_max(s));
        }
    }
}

/// The maximum of a collection of values does not depend on the order
/// they are visited in: two sequences holding the same values element
/// for element have the same maximum.  This is what makes a search
/// over permutations independent of the order the permutations are
/// generated in.
pub proof fn lemma_max_search_order_invariant(s: Seq<i64>, t: Seq<i64>)
    requires
        s.to_multiset() == t.to_multiset(),
        s.len() > 0,
    ensures
        seq_max(s) == seq_max(t),
{
    assert(s.len() == s.to_multiset().len());
    assert(t.len() == t.to_multiset().len());
    lemma_seq_max_props(s);
    lemma_seq_max_props(t);
    assert(s.to_multiset().count(seq_max(s)) > 0);
    assert(t.contains(seq_max(s)));
    assert(t.to_multiset().count(seq_max(t)) > 0);
    assert(s.contains(seq_max(t)));
    let i = choose|i: int| 0 <= i < t.len() && t[i] == seq_max(s);
    let j = choose|j: int| 0 <= j < s.len() && s[j] == seq_max(t);
    assert(seq_max(s) <= seq_max(t));
    assert(seq_max(t) <= seq_max(s));
}

/// The five phase settings of the chain topology.
pub open spec fn chain_phase_pool() -> Seq<i64> {
    seq![0i64, 1i64, 2i64, 3i64, 4i64]
}

/// The chain runs to completion and reports a value for these phases.
pub open spec fn chain_ok(prog: Seq<i64>, phases: Seq<i64>) -> bool {
    chain_halts(prog, phases, seq![0i64]) && chain_outputs(prog, phases, seq![0i64]).len() > 0
}

/// The value the chain reports: the final stage's first output.
pub open spec fn chain_result(prog: Seq<i64>, phases: Seq<i64>) -> i64 {
    chain_outputs(prog, phases, seq![0i64])[0]
}

/// Tries every ordering of the phase settings 0 through 4 on a chain
/// of five amplifier stages and returns the largest value any ordering
/// achieves.  The result depends only on the program: it is the
/// maximum over all arrangements, whatever order they are tried in.
pub fn solve_1(program: &Vec<i64>) -> (r: Result<i64, PipelineError>)
    ensures
        match r {
            Ok(v) => {
                &&& forall|p: Seq<i64>|
                    #[trigger] p.to_multiset() == chain_phase_pool().to_multiset() ==> chain_ok(
                        program@,
                        p,
                    ) && chain_result(program@, p) <= v
                &&& exists|p: Seq<i64>|
                    #[trigger] p.to_multiset() == chain_phase_pool().to_multiset() && chain_ok(
                        program@,
                        p,
                    ) && chain_result(program@, p) == v
            },
            Err(e) => exists|p: Seq<i64>|
                #[trigger] p.to_multiset() == chain_phase_pool().to_multiset() && chain_error(
                    program@,
                    p,
                    seq![0i64],
                    e,
                ),
        },
{
    let mut stack: Vec<i64> = Vec::new();
    let mut queue: Vec<i64> = Vec::new();
    queue.push(0);
    queue.push(1);
    queue.push(2);
    queue.push(3);
    queue.push(4);
    proof {
        assert(queue@ =~= chain_phase_pool());
    }
    let ghost pool = queue@;
    let perms = generate_permutations(&mut stack, &mut queue, Vec::new());
    proof {
        assert(perms@.len() > 0) by {
            assert(pool.to_multiset() == pool.to_multiset());
            let k = choose|k: int| 0 <= k < perms@.len() && (#[trigger] perms@[k])@ == stack@ + pool;
        }
    }
    let mut best: i64 = 0;
    let mut idx: usize = 0;
    while idx < perms.len()
        invariant
            idx <= perms@.len(),
            perms@.len() > 0,
            pool == chain_phase_pool(),
            forall|k: int|
                0 <= k < perms@.len() ==> (#[trigger] perms@[k])@.to_multiset()
                    == pool.to_multiset(),
            forall|p: Seq<i64>|
                #[trigger] p.to_multiset() == pool.to_multiset() ==> exists|k: int|
                    0 <= k < perms@.len() && (#[trigger] perms@[k])@ == p,
            forall|k: int|
                0 <= k < idx ==> chain_ok(program@, (#[trigger] perms@[k])@) && chain_result(
                    program@,
                    perms@[k]@,
                ) <= best,
            idx > 0 ==> exists|k: int|
                0 <= k < idx && chain_ok(program@, (#[trigger] perms@[k])@) && chain_result(
                    program@,
                    perms@[k]@,
                ) == best,
        decreases perms@.len() - idx,
    {
        let settings: Vec<i64> = perms[idx].clone();
        match get_output(program, settings) {
            Ok(v) => {
                if idx == 0 || v > best {
                    best = v;
                }
                idx = idx + 1;
            },
            Err(e) => {
                proof {
                    assert(settings@.to_multiset() == chain_phase_pool().to_multiset());
                    assert(chain_error(program@, settings@, seq![0i64], e));
                }
                return Err(e);
            },
        }
    }
    Ok(best)
}

/// The five phase settings of the feedback-ring topology.
pub open spec fn ring_phase_pool() -> Seq<i64> {
    seq![5i64, 6i64, 7i64, 8i64, 9i64]
}

/// Some consistent run of the ring over these phases, seeded with 0,
/// carries a value no larger than `bound`.
pub open spec fn ring_at_most(prog: Seq<i64>, phases: Seq<i64>, bound: i64) -> bool {
    exists|outs: Seq<Seq<i64>>|
        #[trigger] ring_consistent(prog, phases, 0i64, outs) && ring_value(outs) <= bound
}

/// Some consistent run of the ring over these phases, seeded with 0,
/// carries exactly the value `b`.
pub open spec fn ring_exactly(prog: Seq<i64>, phases: Seq<i64>, b: i64) -> bool {
    exists|outs: Seq<Seq<i64>>|
        #[trigger] ring_consistent(prog, phases, 0i64, outs) && ring_value(outs) == b
}

/// Tries every ordering of the phase settings 5 through 9 on a
/// feedback ring of five amplifier stages and returns the largest
/// value any ordering achieves: each ordering's value is witnessed by
/// a consistent account of that ring run, none of which exceeds the
/// result.
pub fn solve_2(program: &Vec<i64>) -> (r: Result<i64, PipelineError>)
    ensures
        match r {
            Ok(v) => {
                &&& forall|p: Seq<i64>|
                    #[trigger] p.to_multiset() == ring_phase_pool().to_multiset()
                        ==> ring_at_most(program@, p, v)
                &&& exists|p: Seq<i64>|
                    #[trigger] p.to_multiset() == ring_phase_pool().to_multiset() && ring_exactly(
                        program@,
                        p,
                        v,
                    )
            },
            Err(e) => exists|p: Seq<i64>|
                #[trigger] p.to_multiset() == ring_phase_pool().to_multiset() && ring_error(
                    program@,
                    p,
                    0i64,
                    e,
                ),
        },
{
    let mut stack: Vec<i64> = Vec::new();
    let mut queue: Vec<i64> = Vec::new();
    queue.push(5);
    queue.push(6);
    queue.push(7);
    queue.push(8);
    queue.push(9);
    proof {
        assert(queue@ =~= ring_phase_pool());
    }
    let ghost pool = queue@;
    let perms = generate_permutations(&mut stack, &mut queue, Vec::new());
    proof {
        assert(perms@.len() > 0) by {
            assert(pool.to_multiset() == pool.to_multiset());
            let k = choose|k: int| 0 <= k < perms@.len() && (#[trigger] perms@[k])@ == stack@ + pool;
        }
    }
    let mut best: i64 = 0;
    let mut idx: usize = 0;
    while idx < perms.len()
        invariant
            idx <= perms@.len(),
            perms@.len() > 0,
            pool == ring_phase_pool(),
            forall|k: int|
                0 <= k < perms@.len() ==> (#[trigger] perms@[k])@.to_multiset()
                    == pool.to_multiset(),
            forall|p: Seq<i64>|
                #[trigger] p.to_multiset() == pool.to_multiset() ==> exists|k: int|
                    0 <= k < perms@.len() && (#[trigger] perms@[k])@ == p,
            forall|k: int|
                0 <= k < idx ==> ring_at_most(program@, (#[trigger] perms@[k])@, best),
            idx > 0 ==> exists|k: int|
                0 <= k < idx && ring_exactly(program@, (#[trigger] perms@[k])@, best),
        decreases perms@.len() - idx,
    {
        let settings: Vec<i64> = perms[idx].clone();
        proof {
            assert(settings@.to_multiset().len() == settings@.len());
            assert(settings@.len() == pool.len());
        }
        let run_result = get_output_with_feedback_loop(program, settings);
        match run_result {
            Ok(v) => {
                let ghost ob = best;
                let ghost processed = idx as int;
                if idx == 0 || v > best {
                    best = v;
                }
                proof {
                    assert(ob <= best || processed == 0);
                    assert forall|k: int|
                        0 <= k < processed + 1 implies ring_at_most(
                        program@,
                        (#[trigger] perms@[k])@,
                        best,
                    ) by {
                        if k < processed {
                            assert(ring_at_most(program@, perms@[k]@, ob));
                            let w = choose|outs: Seq<Seq<i64>>|
                                #[trigger] ring_consistent(program@, perms@[k]@, 0i64, outs)
                                    && ring_value(outs) <= ob;
                            assert(ring_consistent(program@, perms@[k]@, 0i64, w) && ring_value(w)
                                <= best);
                        } else {
                            let w = choose|outs: Seq<Seq<i64>>|
                                #[trigger] ring_consistent(program@, settings@, 0i64, outs)
                                    && ring_value(outs) == v;
                            assert(ring_consistent(program@, perms@[k]@, 0i64, w) && ring_value(w)
                                <= best);
                        }
                    }
                    if best == v {
                        let w = choose|outs: Seq<Seq<i64>>|
                            #[trigger] ring_consistent(program@, settings@, 0i64, outs)
                                && ring_value(outs) == v;
                        assert(ring_consistent(program@, perms@[processed]@, 0i64, w));
                        assert(ring_exactly(program@, perms@[processed]@, best));
                    } else {
                        let k0 = choose|k: int|
                            0 <= k < processed && ring_exactly(program@, (#[trigger] perms@[k])@, ob);
                        assert(ring_exactly(program@, perms@[k0]@, best));
                    }
                }
                idx = idx + 1;
            },
            Err(e) => {
                proof {
                    assert(settings@.to_multiset() == ring_phase_pool().to_multiset());
                    assert(ring_error(program@, settings@, 0i64, e));
                }
                return Err(e);
            },
        }
    }
    proof {
        assert forall|p: Seq<i64>|
            #[trigger] p.to_multiset() == ring_phase_pool().to_multiset() implies ring_at_most(
            program@,
            p,
            best,
        ) by {
            let k = choose|k: int| 0 <= k < perms@.len() && (#[trigger] perms@[k])@ == p;
            assert(ring_at_most(program@, perms@[k]@, best));
        }
        let k1 = choose|k: int|
            0 <= k < perms@.len() && ring_exactly(program@, (#[trigger] perms@[k])@, best);
        assert(perms@[k1]@.to_multiset() == ring_phase_pool().to_multiset());
    }
    Ok(best)
}

/// The pass-through corollary of the ring wiring: when every stage of
/// a consistent ring run emits exactly the first value of its input
/// stream past the phase setting, the value carried around the ring is
/// the externally seeded one.
pub proof fn lemma_ring_pass_through(
    prog: Seq<i64>,
    phases: Seq<i64>,
    seed: i64,
    outs: Seq<Seq<i64>>,
)
    requires
        phases.len() >= 1,
        ring_consistent(prog, phases, seed, outs),
        forall|i: int|
            0 <= i < phases.len() ==> #[trigger] outs[i] == (ring_seed_part(seed, i)
                + outs[ring_prev(i, phases.len() as int)]).take(1),
    ensures
        ring_value(outs) == seed,
{
    let n = phases.len() as int;
    assert(outs[0] == (seq![seed] + outs[n - 1]).take(1));
    assert(outs[0] =~= seq![seed]);
    assert forall|i: int| 0 <= i < n implies #[trigger] outs[i] =~= seq![seed] by {
        lemma_ring_pass_through_chain(prog, phases, seed, outs, i);
    }
    assert(outs.last() == outs[n - 1]);
    assert(outs[n - 1].len() == 1 && outs[n - 1].last() == seed);
}

/// Every stage of such a ring forwards the seed.
proof fn lemma_ring_pass_through_chain(
    prog: Seq<i64>,
    phases: Seq<i64>,
    seed: i64,
    outs: Seq<Seq<i64>>,
    i: int,
)
    requires
        phases.len() >= 1,
        ring_consistent(prog, phases, seed, outs),
        forall|q: int|
            0 <= q < phases.len() ==> #[trigger] outs[q] == (ring_seed_part(seed, q)
                + outs[ring_prev(q, phases.len() as int)]).take(1),
        0 <= i < phases.len(),
    ensures
        outs[i] =~= seq![seed],
    decreases i,
{
    let n = phases.len() as int;
    if i == 0 {
        assert(outs[0] == (seq![seed] + outs[n - 1]).take(1));
        assert(outs[0] =~= seq![seed]);
    } else {
        lemma_ring_pass_through_chain(prog, phases, seed, outs, i - 1);
        assert(outs[i] == (Seq::<i64>::empty() + outs[i - 1]).take(1));
        assert(Seq::<i64>::empty() + outs[i - 1] =~= outs[i - 1]);
        assert(outs[i] =~= seq![seed]);
    }
}

} // verus!
