//! The ABI's laws, proved once and for all over the machine: splitting
//! a run across suspensions changes nothing, replaying from an earlier
//! resume token re-executes from exactly that point, the stack never
//! grows past its 1024 slots, and a terminal reason is idempotent.

use vstd::prelude::*;
use crate::analysis::{
    decode_from, lemma_susp_count_mono, lemma_susp_unique, susp_at, susp_count, InstrV,
};
use crate::machine::{
    entry_state, lemma_step_gas, lemma_step_props, machine_call, op_effect, resume_pc, run_from,
    stack_limit, step, total_susp, CtxV, MState, Outcome,
};
use crate::opcode::{spec_is_suspend, Reason, SpecId};

verus! {

/// Suspending changes nothing but the instruction pointer, which moves
/// past the suspending instruction.
proof fn lemma_step_susp(bytes: Seq<u8>, code: Seq<InstrV>, spec_id: SpecId, s: MState)
    ensures
        step(bytes, code, spec_id, s) matches Outcome::Suspend(s2) ==> {
            &&& 0 <= s.pc < code.len()
            &&& spec_is_suspend(code[s.pc].op)
            &&& 0 <= s.gas
            &&& s2 == (MState { pc: s.pc + 1, ..s })
        },
{
    reveal(op_effect);
}

/// A stopped run never reports the suspension reason.
proof fn lemma_step_done_not_coc(bytes: Seq<u8>, code: Seq<InstrV>, spec_id: SpecId, s: MState)
    ensures
        step(bytes, code, spec_id, s) matches Outcome::Done(r, s2) ==> r
            != Reason::CallOrCreate,
{
    reveal(op_effect);
}

/// Distance to the end of the code, clamped so it is always a measure.
pub open spec fn pc_measure(code: Seq<InstrV>, pc: int) -> int {
    if 0 <= pc <= code.len() {
        code.len() - pc
    } else {
        0
    }
}

pub open spec fn gas_measure(g: int) -> int {
    if g < 0 {
        0
    } else {
        g
    }
}

/// The same machine run, but with a host that never suspends: a
/// suspension point is stepped over as if the host had resumed at once.
pub open spec fn run_nosusp(bytes: Seq<u8>, code: Seq<InstrV>, spec_id: SpecId, s: MState) -> (
    Reason,
    MState,
)
    decreases gas_measure(s.gas), pc_measure(code, s.pc),
    via run_nosusp_dec
{
    match step(bytes, code, spec_id, s) {
        Outcome::Next(s2) => run_nosusp(bytes, code, spec_id, s2),
        Outcome::Suspend(s2) => run_nosusp(bytes, code, spec_id, s2),
        Outcome::Done(r, s2) => (r, s2),
    }
}

#[via_fn]
proof fn run_nosusp_dec(bytes: Seq<u8>, code: Seq<InstrV>, spec_id: SpecId, s: MState) {
    lemma_step_gas(bytes, code, spec_id, s);
    lemma_step_susp(bytes, code, spec_id, s);
}

/// A run that ends in a suspension stopped immediately after a
/// suspension point; one that ends otherwise agrees, state for state,
/// with the never-suspending run.
pub proof fn lemma_run_vs_nosusp(bytes: Seq<u8>, code: Seq<InstrV>, spec_id: SpecId, s: MState)
    ensures
        run_from(bytes, code, spec_id, s).0 != Reason::CallOrCreate ==> run_nosusp(
            bytes,
            code,
            spec_id,
            s,
        ) == run_from(bytes, code, spec_id, s),
        run_from(bytes, code, spec_id, s).0 == Reason::CallOrCreate ==> {
            let s1 = run_from(bytes, code, spec_id, s).1;
            &&& 1 <= s1.pc <= code.len()
            &&& spec_is_suspend(code[s1.pc - 1].op)
            &&& run_nosusp(bytes, code, spec_id, s) == run_nosusp(bytes, code, spec_id, s1)
        },
    decreases gas_measure(s.gas),
{
    lemma_step_gas(bytes, code, spec_id, s);
    lemma_step_susp(bytes, code, spec_id, s);
    lemma_step_done_not_coc(bytes, code, spec_id, s);
    match step(bytes, code, spec_id, s) {
        Outcome::Next(s2) => {
            lemma_run_vs_nosusp(bytes, code, spec_id, s2);
        },
        Outcome::Suspend(s2) => {},
        Outcome::Done(r, s2) => {},
    }
}

/// Entering with the token recorded at a suspension lands exactly on
/// the instruction after the suspension point.
proof fn lemma_token_roundtrip(code: Seq<InstrV>, j: int)
    requires
        0 <= j < code.len(),
        spec_is_suspend(code[j].op),
    ensures
        susp_count(code, j + 1) >= 1,
        susp_count(code, j + 1) <= total_susp(code),
        resume_pc(code, susp_count(code, j + 1) as int) == j + 1,
{
    lemma_susp_count_mono(code, j + 1, code.len() as int);
    let k = (susp_count(code, j + 1) - 1) as nat;
    assert(susp_count(code, j) == k);
    let jj = susp_at(code, k);
    assert(0 <= jj < code.len() && spec_is_suspend(code[jj].op) && susp_count(code, jj) == k);
    if jj < j {
        lemma_susp_unique(code, jj, j);
    }
    if j < jj {
        lemma_susp_unique(code, j, jj);
    }
    assert(jj == j);
}

/// Suspend/resume law: a call that suspends leaves a context whose
/// re-entry point carries exactly the suspended machine state, so the
/// never-suspending run of the first entry state and of the new one
/// coincide; and a call that terminates returns exactly what the
/// never-suspending run returns.  Splitting a run into any number of
/// sub-calls across suspensions therefore yields the same final
/// observable state as a single uninterrupted run.
pub proof fn suspend_resume_law(bytes: Seq<u8>, code: Seq<InstrV>, spec_id: SpecId, c: CtxV)
    requires
        code == decode_from(bytes, 0),
        c.done is None,
        0 <= c.resume_at <= total_susp(code),
    ensures
        machine_call(bytes, code, spec_id, c).0 == Reason::CallOrCreate ==> {
            let c2 = machine_call(bytes, code, spec_id, c).1;
            &&& c2.done is None
            &&& 0 <= c2.resume_at <= total_susp(code)
            &&& run_nosusp(bytes, code, spec_id, entry_state(code, c2)) == run_nosusp(
                bytes,
                code,
                spec_id,
                entry_state(code, c),
            )
        },
        machine_call(bytes, code, spec_id, c).0 != Reason::CallOrCreate ==> {
            let r = machine_call(bytes, code, spec_id, c).0;
            let c2 = machine_call(bytes, code, spec_id, c).1;
            let fin = run_nosusp(bytes, code, spec_id, entry_state(code, c));
            &&& fin.0 == r
            &&& fin.1.gas == c2.gas
            &&& fin.1.stack == c2.stack
            &&& fin.1.mem == c2.mem
            &&& fin.1.output == c2.output
        },
{
    let s0 = entry_state(code, c);
    let (r, s1) = run_from(bytes, code, spec_id, s0);
    lemma_run_vs_nosusp(bytes, code, spec_id, s0);
    if r == Reason::CallOrCreate {
        lemma_token_roundtrip(code, s1.pc - 1);
        let c2 = machine_call(bytes, code, spec_id, c).1;
        assert(entry_state(code, c2) == s1);
    }
}

/// Resume-at replay: re-invoking with the resume token set to any legal
/// earlier (or later) value `k` runs from exactly the instruction that
/// token names, on the context's current state, with no residue from
/// the portion that token skips.
pub proof fn resume_at_replay(
    bytes: Seq<u8>,
    code: Seq<InstrV>,
    spec_id: SpecId,
    c: CtxV,
    k: int,
)
    requires
        0 <= k <= total_susp(code),
    ensures
        ({
            let c2 = CtxV { resume_at: k, done: None, ..c };
            let from_k = run_from(
                bytes,
                code,
                spec_id,
                MState {
                    pc: resume_pc(code, k),
                    gas: c.gas,
                    stack: c.stack,
                    mem: c.mem,
                    output: c.output,
                },
            );
            &&& machine_call(bytes, code, spec_id, c2).0 == from_k.0
            &&& machine_call(bytes, code, spec_id, c2).1.gas == from_k.1.gas
            &&& machine_call(bytes, code, spec_id, c2).1.stack == from_k.1.stack
            &&& machine_call(bytes, code, spec_id, c2).1.mem == from_k.1.mem
            &&& machine_call(bytes, code, spec_id, c2).1.output == from_k.1.output
        }),
{
}

/// Bounds safety: a run entered with at most 1024 stack slots never
/// leaves more than 1024 behind — no compiled function addresses a slot
/// outside the stack.
pub proof fn run_preserves_stack_limit(
    bytes: Seq<u8>,
    code: Seq<InstrV>,
    spec_id: SpecId,
    s: MState,
)
    requires
        code == decode_from(bytes, 0),
        s.stack.len() <= stack_limit(),
    ensures
        run_from(bytes, code, spec_id, s).1.stack.len() <= stack_limit(),
    decreases gas_measure(s.gas),
{
    lemma_step_props(bytes, code, spec_id, s);
    lemma_step_susp(bytes, code, spec_id, s);
    match step(bytes, code, spec_id, s) {
        Outcome::Next(s2) => {
            lemma_step_gas(bytes, code, spec_id, s);
            run_preserves_stack_limit(bytes, code, spec_id, s2);
        },
        Outcome::Suspend(s2) => {},
        Outcome::Done(r, s2) => {},
    }
}

/// Bounds safety at the call level, and the guarantee that a failed
/// stack guard commits nothing.
pub proof fn call_preserves_stack_limit(
    bytes: Seq<u8>,
    code: Seq<InstrV>,
    spec_id: SpecId,
    c: CtxV,
)
    requires
        code == decode_from(bytes, 0),
        c.stack.len() <= stack_limit(),
    ensures
        machine_call(bytes, code, spec_id, c).1.stack.len() <= stack_limit(),
{
    match c.done {
        Some(_) => {},
        None => {
            if 0 <= c.resume_at <= total_susp(code) {
                run_preserves_stack_limit(bytes, code, spec_id, entry_state(code, c));
            }
        },
    }
}

/// A stack guard that fails stops the instruction before it touches
/// anything: the state is returned unchanged.
pub proof fn stack_guard_commits_nothing(
    bytes: Seq<u8>,
    code: Seq<InstrV>,
    spec_id: SpecId,
    s: MState,
)
    ensures
        step(bytes, code, spec_id, s) matches Outcome::Done(r, s2) ==> ((r
            == Reason::StackUnderflow || r == Reason::StackOverflow) ==> s2 == s),
{
    reveal(op_effect);
}

/// Idempotent termination: once a call has returned a non-suspension
/// terminal reason, every further call without touching `resume_at`
/// returns the same reason and mutates nothing.
pub proof fn idempotent_termination(bytes: Seq<u8>, code: Seq<InstrV>, spec_id: SpecId, c: CtxV)
    ensures
        ({
            let r = machine_call(bytes, code, spec_id, c).0;
            let c2 = machine_call(bytes, code, spec_id, c).1;
            r != Reason::CallOrCreate ==> machine_call(bytes, code, spec_id, c2) == (r, c2)
        }),
{
}

} // verus!
