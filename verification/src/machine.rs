//! The execution ABI as a mathematical machine: the state a compiled
//! function owns for the duration of one call, the effect of every
//! opcode on it, and the run function that steps until termination or
//! suspension.  The executable engine in `exec` is proved to implement
//! exactly this machine.

use vstd::prelude::*;
use crate::analysis::{susp_at, susp_count, valid_jumpdest, InstrV};
use crate::opcode::{
    op_table, spec_rank, Reason, SpecId, OP_ADD, OP_MUL, OP_SUB, OP_DIV, OP_SDIV, OP_MOD,
    OP_SMOD, OP_SIGNEXTEND, OP_LT, OP_GT, OP_SLT, OP_SGT, OP_EQ, OP_ISZERO, OP_AND, OP_OR, OP_XOR, OP_NOT,
    OP_BYTE, OP_SHL, OP_SHR, OP_SAR, OP_POP, OP_MLOAD, OP_MSTORE, OP_MSTORE8, OP_JUMP, OP_JUMPI,
    OP_PC, OP_MSIZE, OP_GAS, OP_JUMPDEST, OP_PUSH0, OP_PUSH1, OP_PUSH32, OP_DUP1, OP_DUP16,
    OP_SWAP1, OP_SWAP16, OP_RETURN, OP_STOP, OP_TEST_SUSPEND, OP_INVALID,
};
use crate::word::{
    be_byte, be_val, word_of_val, word_val, word_zero, Word, w_add, w_mul, w_sub, w_div, w_sdiv,
    w_mod, w_smod, w_signextend, w_lt, w_gt, w_slt, w_sgt, w_eq, w_and, w_or, w_xor, w_byte, w_shl, w_shr,
    w_sar, w_iszero, w_not,
};

verus! {

/// Machine state while running: instruction index, remaining gas,
/// stack, linear memory, and the output of RETURN / REVERT.
pub ghost struct MState {
    pub pc: int,
    pub gas: int,
    pub stack: Seq<Word>,
    pub mem: Seq<u8>,
    pub output: Seq<u8>,
}

/// Effect of one instruction.
pub ghost enum Outcome {
    /// Execution continues at the new state.
    Next(MState),
    /// Execution suspends; the state's `pc` is already the resume
    /// point, immediately after the suspending instruction.
    Suspend(MState),
    /// Execution stopped for the given reason.
    Done(Reason, MState),
}

pub open spec fn stack_limit() -> nat {
    1024
}

// ------------------------------------------------------------------
// Memory expansion.
// ------------------------------------------------------------------

/// Number of 32-byte memory words needed for `sz` bytes.
pub open spec fn mem_words(sz: nat) -> nat {
    (sz + 31) / 32
}

/// Total gas charged for a memory of `w` words: `3*w + w^2/512`.
pub open spec fn mem_gas(w: nat) -> nat {
    (3 * w + (w * w) / 512) as nat
}

/// Gas charged when the memory grows from `mem_len` bytes to cover
/// `new_size` bytes; zero when no new word is needed.
pub open spec fn exp_cost(mem_len: nat, new_size: nat) -> nat {
    if mem_words(new_size) > mem_words(mem_len) {
        (mem_gas(mem_words(new_size)) - mem_gas(mem_words(mem_len))) as nat
    } else {
        0
    }
}

pub open spec fn zeros(n: nat) -> Seq<u8> {
    Seq::new(n, |i: int| 0u8)
}

/// The memory after expanding (32-byte aligned) to cover `new_size`
/// bytes.
pub open spec fn grow_mem(mem: Seq<u8>, new_size: nat) -> Seq<u8> {
    if mem_words(new_size) * 32 > mem.len() {
        mem + zeros((mem_words(new_size) * 32 - mem.len()) as nat)
    } else {
        mem
    }
}

/// `mem` with `data` written at offset `off`.
pub open spec fn store_bytes(mem: Seq<u8>, off: int, data: Seq<u8>) -> Seq<u8> {
    Seq::new(mem.len(), |i: int| if off <= i < off + data.len() {
        data[i - off]
    } else {
        mem[i]
    })
}

/// The 32-byte big-endian form of a word value.
pub open spec fn be_bytes_of(v: nat) -> Seq<u8> {
    Seq::new(32, |j: int| be_byte(v, j))
}

/// Whether an access of `width` bytes at offset `off` can be paid for:
/// the offsets stay addressable and the expansion cost fits in the
/// remaining gas.
pub open spec fn mem_ok(gas: int, mem: Seq<u8>, off: nat, width: nat) -> bool {
    &&& off + width <= u64::MAX
    &&& exp_cost(mem.len(), off + width) <= gas
    &&& mem_words(off + width) * 32 <= usize::MAX
}

// ------------------------------------------------------------------
// Instruction semantics.
// ------------------------------------------------------------------

pub open spec fn is_binop(op: u8) -> bool {
    op == OP_ADD || op == OP_MUL || op == OP_SUB || op == OP_DIV || op == OP_SDIV || op == OP_MOD
        || op == OP_SMOD || op == OP_SIGNEXTEND || op == OP_LT || op == OP_GT || op == OP_SLT || op == OP_SGT
        || op == OP_EQ || op == OP_AND || op == OP_OR || op == OP_XOR || op == OP_BYTE
        || op == OP_SHL || op == OP_SHR || op == OP_SAR
}

/// Result of a two-operand opcode; `a` is the top of the stack, `b` the
/// slot under it.
pub open spec fn binop_result(op: u8, a: Word, b: Word) -> Word {
    if op == OP_ADD {
        w_add(a, b)
    } else if op == OP_MUL {
        w_mul(a, b)
    } else if op == OP_SUB {
        w_sub(a, b)
    } else if op == OP_DIV {
        w_div(a, b)
    } else if op == OP_SDIV {
        w_sdiv(a, b)
    } else if op == OP_MOD {
        w_mod(a, b)
    } else if op == OP_SMOD {
        w_smod(a, b)
    } else if op == OP_SIGNEXTEND {
        w_signextend(a, b)
    } else if op == OP_LT {
        w_lt(a, b)
    } else if op == OP_GT {
        w_gt(a, b)
    } else if op == OP_SLT {
        w_slt(a, b)
    } else if op == OP_SGT {
        w_sgt(a, b)
    } else if op == OP_EQ {
        w_eq(a, b)
    } else if op == OP_AND {
        w_and(a, b)
    } else if op == OP_OR {
        w_or(a, b)
    } else if op == OP_XOR {
        w_xor(a, b)
    } else if op == OP_BYTE {
        w_byte(a, b)
    } else if op == OP_SHL {
        w_shl(b, a)
    } else if op == OP_SHR {
        w_shr(b, a)
    } else {
        w_sar(b, a)
    }
}

/// Instruction index a dynamic jump to byte offset `o` continues at.
pub open spec fn jump_pc(code: Seq<InstrV>, o: int) -> int {
    choose|j: int| 0 <= j < code.len() && code[j].offset == o
}

/// Effect of the instruction `ins` on state `s`, after the stack-arity
/// checks passed and the static base gas was already deducted.
#[verifier::opaque]
pub open spec fn op_effect(bytes: Seq<u8>, code: Seq<InstrV>, ins: InstrV, s: MState) -> Outcome {
    let op = ins.op;
    let len = s.stack.len() as int;
    if op == OP_STOP {
        Outcome::Done(Reason::Stop, MState { pc: s.pc + 1, ..s })
    } else if op == OP_TEST_SUSPEND {
        Outcome::Suspend(MState { pc: s.pc + 1, ..s })
    } else if op == OP_INVALID {
        Outcome::Done(Reason::InvalidOpcode, MState { pc: s.pc + 1, ..s })
    } else if is_binop(op) {
        let a = s.stack[len - 1];
        let b = s.stack[len - 2];
        Outcome::Next(MState {
            pc: s.pc + 1,
            stack: s.stack.drop_last().drop_last().push(binop_result(op, a, b)),
            ..s
        })
    } else if op == OP_ISZERO {
        Outcome::Next(MState {
            pc: s.pc + 1,
            stack: s.stack.drop_last().push(w_iszero(s.stack[len - 1])),
            ..s
        })
    } else if op == OP_NOT {
        Outcome::Next(MState {
            pc: s.pc + 1,
            stack: s.stack.drop_last().push(w_not(s.stack[len - 1])),
            ..s
        })
    } else if op == OP_POP {
        Outcome::Next(MState { pc: s.pc + 1, stack: s.stack.drop_last(), ..s })
    } else if op == OP_PUSH0 {
        Outcome::Next(MState { pc: s.pc + 1, stack: s.stack.push(word_zero()), ..s })
    } else if OP_PUSH1 <= op && op <= OP_PUSH32 {
        Outcome::Next(MState {
            pc: s.pc + 1,
            stack: s.stack.push(word_of_val(be_val(ins.imm))),
            ..s
        })
    } else if OP_DUP1 <= op && op <= OP_DUP16 {
        let n = (op - 0x7f) as int;
        Outcome::Next(MState { pc: s.pc + 1, stack: s.stack.push(s.stack[len - n]), ..s })
    } else if OP_SWAP1 <= op && op <= OP_SWAP16 {
        let n = (op - 0x8f) as int;
        let a = s.stack[len - 1];
        let b = s.stack[len - 1 - n];
        Outcome::Next(MState {
            pc: s.pc + 1,
            stack: s.stack.update(len - 1, b).update(len - 1 - n, a),
            ..s
        })
    } else if op == OP_PC {
        Outcome::Next(MState {
            pc: s.pc + 1,
            stack: s.stack.push(word_of_val(ins.offset as nat)),
            ..s
        })
    } else if op == OP_GAS {
        Outcome::Next(MState { pc: s.pc + 1, stack: s.stack.push(word_of_val(s.gas as nat)), ..s })
    } else if op == OP_MSIZE {
        Outcome::Next(MState { pc: s.pc + 1, stack: s.stack.push(word_of_val(s.mem.len())), ..s })
    } else if op == OP_JUMPDEST {
        Outcome::Next(MState { pc: s.pc + 1, ..s })
    } else if op == OP_JUMP {
        let t = word_val(s.stack[len - 1]) as int;
        let s2 = MState { stack: s.stack.drop_last(), ..s };
        if valid_jumpdest(bytes, t) {
            Outcome::Next(MState { pc: jump_pc(code, t), ..s2 })
        } else {
            Outcome::Done(Reason::InvalidJump, s2)
        }
    } else if op == OP_JUMPI {
        let t = word_val(s.stack[len - 1]) as int;
        let c = s.stack[len - 2];
        let s2 = MState { stack: s.stack.drop_last().drop_last(), ..s };
        if word_val(c) == 0 {
            Outcome::Next(MState { pc: s.pc + 1, ..s2 })
        } else if valid_jumpdest(bytes, t) {
            Outcome::Next(MState { pc: jump_pc(code, t), ..s2 })
        } else {
            Outcome::Done(Reason::InvalidJump, s2)
        }
    } else if op == OP_MLOAD {
        let off = word_val(s.stack[len - 1]);
        if !mem_ok(s.gas, s.mem, off, 32) {
            Outcome::Done(Reason::MemoryOOG, s)
        } else {
            let m2 = grow_mem(s.mem, off + 32);
            let v = word_of_val(be_val(m2.subrange(off as int, off as int + 32)));
            Outcome::Next(MState {
                pc: s.pc + 1,
                gas: s.gas - exp_cost(s.mem.len(), off + 32),
                stack: s.stack.drop_last().push(v),
                mem: m2,
                ..s
            })
        }
    } else if op == OP_MSTORE {
        let off = word_val(s.stack[len - 1]);
        let x = s.stack[len - 2];
        if !mem_ok(s.gas, s.mem, off, 32) {
            Outcome::Done(Reason::MemoryOOG, s)
        } else {
            let m2 = store_bytes(grow_mem(s.mem, off + 32), off as int, be_bytes_of(word_val(x)));
            Outcome::Next(MState {
                pc: s.pc + 1,
                gas: s.gas - exp_cost(s.mem.len(), off + 32),
                stack: s.stack.drop_last().drop_last(),
                mem: m2,
                ..s
            })
        }
    } else if op == OP_MSTORE8 {
        let off = word_val(s.stack[len - 1]);
        let x = s.stack[len - 2];
        if !mem_ok(s.gas, s.mem, off, 1) {
            Outcome::Done(Reason::MemoryOOG, s)
        } else {
            let m2 = store_bytes(
                grow_mem(s.mem, off + 1),
                off as int,
                seq![(word_val(x) % 256) as u8],
            );
            Outcome::Next(MState {
                pc: s.pc + 1,
                gas: s.gas - exp_cost(s.mem.len(), off + 1),
                stack: s.stack.drop_last().drop_last(),
                mem: m2,
                ..s
            })
        }
    } else {
        // RETURN or REVERT
        let reason = if op == OP_RETURN {
            Reason::Return
        } else {
            Reason::Revert
        };
        let off = word_val(s.stack[len - 1]);
        let count = word_val(s.stack[len - 2]);
        let s2 = MState { pc: s.pc + 1, stack: s.stack.drop_last().drop_last(), ..s };
        if count == 0 {
            Outcome::Done(reason, MState { output: Seq::empty(), ..s2 })
        } else if !mem_ok(s.gas, s.mem, off, count) {
            Outcome::Done(Reason::MemoryOOG, s)
        } else {
            let m2 = grow_mem(s.mem, off + count);
            Outcome::Done(reason, MState {
                gas: s.gas - exp_cost(s.mem.len(), off + count),
                mem: m2,
                output: m2.subrange(off as int, (off + count) as int),
                ..s2
            })
        }
    }
}

/// One machine step: guards, static gas, then the instruction's effect.
/// Negative gas means an earlier out-of-gas: nothing runs.
pub open spec fn step(bytes: Seq<u8>, code: Seq<InstrV>, spec_id: SpecId, s: MState) -> Outcome {
    if s.gas < 0 {
        Outcome::Done(Reason::OutOfGas, s)
    } else if !(0 <= s.pc < code.len()) {
        Outcome::Done(Reason::Stop, s)
    } else {
        let ins = code[s.pc];
        match op_table(ins.op) {
            Option::None => Outcome::Done(Reason::InvalidOpcode, s),
            Option::Some(info) => {
                if spec_rank(spec_id) < spec_rank(info.since) {
                    Outcome::Done(Reason::NotActivated, s)
                } else if (s.stack.len() as int) < info.inputs as int {
                    Outcome::Done(Reason::StackUnderflow, s)
                } else if s.stack.len() as int - info.inputs as int + info.outputs as int
                    > stack_limit() as int {
                    Outcome::Done(Reason::StackOverflow, s)
                } else if s.gas < info.gas {
                    Outcome::Done(Reason::OutOfGas, s)
                } else {
                    op_effect(bytes, code, ins, MState { gas: s.gas - info.gas, ..s })
                }
            },
        }
    }
}

/// Every step that continues consumes at least one unit of gas and
/// leaves gas non-negative: gas bounds the number of steps.
pub proof fn lemma_step_gas(bytes: Seq<u8>, code: Seq<InstrV>, spec_id: SpecId, s: MState)
    ensures
        step(bytes, code, spec_id, s) matches Outcome::Next(s2) ==> 0 <= s2.gas < s.gas,
{
    reveal(op_effect);
}

/// Structural facts about one step, used by the run loop and the laws:
/// how each outcome relates to the state that produced it.
pub proof fn lemma_step_props(bytes: Seq<u8>, code: Seq<InstrV>, spec_id: SpecId, s: MState)
    requires
        code == crate::analysis::decode_from(bytes, 0),
    ensures
        step(bytes, code, spec_id, s) matches Outcome::Next(s2) ==> {
            &&& 0 <= s2.gas < s.gas
            &&& 0 <= s2.pc <= code.len()
            &&& (s.stack.len() <= stack_limit() ==> s2.stack.len() <= stack_limit())
            &&& s2.output == s.output
        },
        step(bytes, code, spec_id, s) matches Outcome::Suspend(s2) ==> {
            &&& 0 <= s.pc < code.len()
            &&& crate::opcode::spec_is_suspend(code[s.pc].op)
            &&& 0 <= s.gas
            &&& s2 == (MState { pc: s.pc + 1, gas: s2.gas, ..s })
            &&& 0 <= s2.gas <= s.gas
        },
        step(bytes, code, spec_id, s) matches Outcome::Done(r, s2) ==> {
            &&& r != Reason::CallOrCreate
            &&& s2.gas <= s.gas
            &&& (0 <= s.pc <= code.len() ==> 0 <= s2.pc <= code.len())
            &&& (s.stack.len() <= stack_limit() ==> s2.stack.len() <= stack_limit())
        },
{
    reveal(op_effect);
    if s.gas >= 0 && 0 <= s.pc < code.len() {
        let ins = code[s.pc];
        if op_table(ins.op) is Some {
            let info = op_table(ins.op).unwrap();
            if spec_rank(spec_id) >= spec_rank(info.since) && s.stack.len() as int >= info.inputs
                as int && s.stack.len() as int - info.inputs as int + info.outputs as int
                <= stack_limit() as int && s.gas >= info.gas {
                let sc = MState { gas: s.gas - info.gas, ..s };
                if ins.op == OP_JUMP || ins.op == OP_JUMPI {
                    let len = sc.stack.len() as int;
                    let t = word_val(sc.stack[len - 1]) as int;
                    if valid_jumpdest(bytes, t) {
                        crate::analysis::lemma_boundary_instr(bytes, 0, t);
                        let j = jump_pc(code, t);
                        assert(0 <= j < code.len());
                    }
                }
            }
        }
    }
}

/// Runs the machine from `s` until it stops or suspends.  Termination:
/// every continuing step strictly decreases the remaining gas.
pub open spec fn run_from(bytes: Seq<u8>, code: Seq<InstrV>, spec_id: SpecId, s: MState) -> (
    Reason,
    MState,
)
    decreases s.gas,
    via run_from_dec
{
    match step(bytes, code, spec_id, s) {
        Outcome::Next(s2) => run_from(bytes, code, spec_id, s2),
        Outcome::Suspend(s2) => (Reason::CallOrCreate, s2),
        Outcome::Done(r, s2) => (r, s2),
    }
}

#[via_fn]
proof fn run_from_dec(bytes: Seq<u8>, code: Seq<InstrV>, spec_id: SpecId, s: MState) {
    lemma_step_gas(bytes, code, spec_id, s);
}

// ------------------------------------------------------------------
// One host-visible call: resume dispatch, run, write-back.
// ------------------------------------------------------------------

/// The caller-owned execution context between calls.
pub ghost struct CtxV {
    pub gas: int,
    pub stack: Seq<Word>,
    pub mem: Seq<u8>,
    pub output: Seq<u8>,
    /// Resume token: 0 enters at the first instruction; token k resumes
    /// immediately after the k-th suspension point.
    pub resume_at: int,
    /// Set once a non-suspension terminal reason was returned; further
    /// calls return it unchanged.
    pub done: Option<Reason>,
}

/// Instruction index at which a call with resume token `t` enters.
pub open spec fn resume_pc(code: Seq<InstrV>, t: int) -> int {
    if t <= 0 {
        0
    } else {
        susp_at(code, (t - 1) as nat) + 1
    }
}

pub open spec fn entry_state(code: Seq<InstrV>, c: CtxV) -> MState {
    MState { pc: resume_pc(code, c.resume_at), gas: c.gas, stack: c.stack, mem: c.mem, output: c.output }
}

/// Total number of suspension points of the code.
pub open spec fn total_susp(code: Seq<InstrV>) -> nat {
    susp_count(code, code.len() as int)
}

/// One invocation of the compiled function: returns at once when a
/// terminal reason is already recorded or the resume token is out of
/// range; otherwise dispatches on the token, runs, and writes the state
/// back, recording the next resume token (the number of suspension
/// points passed) and, for a terminal reason, the reason itself.
pub open spec fn machine_call(bytes: Seq<u8>, code: Seq<InstrV>, spec_id: SpecId, c: CtxV) -> (
    Reason,
    CtxV,
) {
    match c.done {
        Option::Some(r) => (r, c),
        Option::None => {
            if !(0 <= c.resume_at <= total_susp(code)) {
                (Reason::InvalidJump, CtxV { done: Some(Reason::InvalidJump), ..c })
            } else {
                let (r, s1) = run_from(bytes, code, spec_id, entry_state(code, c));
                (r, CtxV {
                    gas: s1.gas,
                    stack: s1.stack,
                    mem: s1.mem,
                    output: s1.output,
                    resume_at: susp_count(code, s1.pc) as int,
                    done: if r == Reason::CallOrCreate {
                        Option::None
                    } else {
                        Option::Some(r)
                    },
                })
            }
        },
    }
}

} // verus!
