//! The executable engine: compiling bytecode into its analyzed form and
//! running it under the suspend/resume ABI, proved equal to the machine
//! of `machine`.

use vstd::prelude::*;
use crate::analysis::{
    decode, decode_from, lemma_boundary_instr, lemma_decode_increasing,
    lemma_decode_wf, lemma_susp_unique, susp_at, susp_count,
    valid_jumpdest, views, Instr, InstrV,
};
use crate::machine::{
    entry_state, machine_call, resume_pc, run_from, total_susp, CtxV, MState,
};
use crate::opcode::{
    is_suspend, lookup, rank_of, spec_is_suspend, Reason, SpecId,
    OP_ADD, OP_MUL, OP_SUB, OP_DIV, OP_SDIV, OP_MOD, OP_SMOD, OP_LT, OP_GT, OP_SLT, OP_SGT,
    OP_SIGNEXTEND, OP_EQ, OP_ISZERO, OP_AND, OP_OR, OP_XOR, OP_NOT, OP_BYTE, OP_SHL, OP_SHR, OP_SAR, OP_POP,
    OP_MLOAD, OP_MSTORE, OP_MSTORE8, OP_JUMP, OP_JUMPI, OP_PC, OP_MSIZE, OP_GAS, OP_JUMPDEST,
    OP_PUSH0, OP_PUSH1, OP_PUSH32, OP_DUP1, OP_DUP16, OP_SWAP1, OP_SWAP16, OP_RETURN, OP_REVERT,
    OP_STOP, OP_TEST_SUSPEND, OP_INVALID,
};
use crate::machine::{
    be_bytes_of, binop_result, exp_cost, grow_mem, is_binop, jump_pc, mem_gas, mem_ok, mem_words,
    op_effect, step, store_bytes, zeros, Outcome,
};
use crate::word::{
    lemma_byte_mask, lemma_small_word, lemma_word_decompose, u256_from_be, u256_to_be,
    word_add, word_byte, word_div, word_eq_exec, word_from_bool, word_from_u64, word_is_zero,
    word_lt, word_mod, word_mul, word_sar, word_sdiv,
    word_shl, word_shr, word_signextend, word_slt, word_smod, word_sub, word_val, Word,
};
use vstd::arithmetic::div_mod::{
    lemma_div_is_ordered, lemma_fundamental_div_mod,
};

verus! {

/// The caller-owned execution context: remaining gas (signed, negative
/// meaning out of gas), the 1024-slot stack, linear memory, the output
/// of the last RETURN / REVERT, the resume token and the recorded
/// terminal reason.
pub struct Context {
    pub gas_remaining: i64,
    pub stack: Vec<Word>,
    pub memory: Vec<u8>,
    pub output: Vec<u8>,
    pub resume_at: u32,
    pub done: Option<Reason>,
}

impl View for Context {
    type V = CtxV;

    open spec fn view(&self) -> CtxV {
        CtxV {
            gas: self.gas_remaining as int,
            stack: self.stack@,
            mem: self.memory@,
            output: self.output@,
            resume_at: self.resume_at as int,
            done: self.done,
        }
    }
}

impl Context {
    /// A fresh context with the given gas budget: empty stack and
    /// memory, resume token 0.
    pub fn new(gas: i64) -> (r: Context)
        ensures
            r@ == (CtxV {
                gas: gas as int,
                stack: Seq::<Word>::empty(),
                mem: Seq::<u8>::empty(),
                output: Seq::<u8>::empty(),
                resume_at: 0,
                done: None::<Reason>,
            }),
    {
        let r = Context {
            gas_remaining: gas,
            stack: Vec::new(),
            memory: Vec::new(),
            output: Vec::new(),
            resume_at: 0,
            done: None,
        };
        proof {
            assert(r@.stack =~= Seq::<Word>::empty());
            assert(r@.mem =~= Seq::<u8>::empty());
            assert(r@.output =~= Seq::<u8>::empty());
        }
        r
    }

    /// Moves the resume token, clearing any recorded terminal reason:
    /// the supported way to replay from an earlier suspension point.
    pub fn set_resume_at(&mut self, t: u32)
        ensures
            final(self)@ == (CtxV { resume_at: t as int, done: None::<Reason>, ..old(self)@ }),
    {
        self.resume_at = t;
        self.done = None;
    }
}

/// A contract compiled against a hardfork: the decoded instruction
/// sequence plus the precomputed dispatch tables the emitted function
/// uses (dense jump table over byte offsets, the list of suspension
/// points, and the running count of suspension points per instruction).
pub struct CompiledCode {
    pub bytecode: Ghost<Seq<u8>>,
    pub instrs: Vec<Instr>,
    pub jump_tbl: Vec<u32>,
    pub suspends: Vec<u32>,
    pub tokens: Vec<u32>,
    pub spec_id: SpecId,
}

impl CompiledCode {
    /// The instruction sequence as the machine sees it.
    pub open spec fn code(&self) -> Seq<InstrV> {
        views(self.instrs@)
    }

    pub open spec fn wf(&self) -> bool {
        &&& self.code() == decode_from(self.bytecode@, 0)
        &&& self.bytecode@.len() < 0x8000_0000
        &&& self.instrs@.len() <= self.bytecode@.len()
        &&& self.jump_tbl@.len() == self.bytecode@.len()
        &&& forall|o: int|
            0 <= o < self.bytecode@.len() ==> {
                if valid_jumpdest(self.bytecode@, o) {
                    &&& #[trigger] self.jump_tbl@[o] < self.instrs@.len()
                    &&& self.code()[self.jump_tbl@[o] as int].offset == o
                } else {
                    self.jump_tbl@[o] == u32::MAX
                }
            }
        &&& self.suspends@.len() == total_susp(self.code())
        &&& forall|t: int|
            0 <= t < self.suspends@.len() ==> {
                &&& #[trigger] self.suspends@[t] < self.instrs@.len()
                &&& spec_is_suspend(self.code()[self.suspends@[t] as int].op)
                &&& susp_count(self.code(), self.suspends@[t] as int) == t
            }
        &&& self.tokens@.len() == self.instrs@.len() + 1
        &&& forall|i: int|
            0 <= i <= self.instrs@.len() ==> #[trigger] self.tokens@[i] == susp_count(
                self.code(),
                i,
            )
    }

    /// Analyzes `bytes` for the given hardfork.  All bytecode is
    /// accepted; undefined opcodes merely terminate at run time.
    pub fn compile(bytes: &Vec<u8>, spec_id: SpecId) -> (r: CompiledCode)
        requires
            bytes@.len() < 0x8000_0000,
        ensures
            r.wf(),
            r.bytecode@ == bytes@,
            r.spec_id == spec_id,
    {
        let instrs = decode(bytes);
        let ghost code = views(instrs@);
        proof {
            lemma_decode_wf(bytes@, 0);
            lemma_decode_increasing(bytes@, 0);
        }
        let n = instrs.len();
        let nb = bytes.len();
        let mut jump_tbl: Vec<u32> = Vec::new();
        while jump_tbl.len() < nb
            invariant
                jump_tbl@.len() <= nb,
                forall|o: int| 0 <= o < jump_tbl@.len() ==> jump_tbl@[o] == u32::MAX,
            decreases nb - jump_tbl.len(),
        {
            jump_tbl.push(u32::MAX);
        }
        let mut idx: usize = 0;
        while idx < n
            invariant
                idx <= n,
                n == instrs@.len(),
                nb == bytes@.len(),
                nb < 0x8000_0000,
                n <= nb,
                code == views(instrs@),
                code == decode_from(bytes@, 0),
                jump_tbl@.len() == nb,
                forall|j: int| 0 <= j < code.len() ==> {
                    let ins = #[trigger] code[j];
                    &&& 0 <= ins.offset < nb
                    &&& ins.op == bytes@[ins.offset]
                    &&& crate::analysis::boundary_from(bytes@, 0, ins.offset)
                },
                forall|j1: int, j2: int|
                    0 <= j1 < j2 < code.len() ==> #[trigger] code[j1].offset
                        < #[trigger] code[j2].offset,
                forall|o: int|
                    0 <= o < nb ==> {
                        if exists|j: int|
                            0 <= j < idx && #[trigger] code[j].offset == o && code[j].op
                                == OP_JUMPDEST {
                            &&& #[trigger] jump_tbl@[o] < n
                            &&& code[jump_tbl@[o] as int].offset == o
                        } else {
                            jump_tbl@[o] == u32::MAX
                        }
                    },
            decreases n - idx,
        {
            let ins_op = instrs[idx].op;
            let ins_off = instrs[idx].offset;
            proof {
                assert(code[idx as int] == instrs@[idx as int]@);
                assert(0 <= code[idx as int].offset < nb);
            }
            if ins_op == OP_JUMPDEST {
                jump_tbl[ins_off] = idx as u32;
            }
            proof {
                assert forall|o: int| 0 <= o < nb implies {
                    if exists|j: int|
                        0 <= j < idx + 1 && #[trigger] code[j].offset == o && code[j].op
                            == OP_JUMPDEST {
                        &&& jump_tbl@[o] < n
                        &&& code[jump_tbl@[o] as int].offset == o
                    } else {
                        jump_tbl@[o] == u32::MAX
                    }
                } by {
                    if exists|j: int|
                        0 <= j < idx + 1 && #[trigger] code[j].offset == o && code[j].op
                            == OP_JUMPDEST {
                        let j = choose|j: int|
                            0 <= j < idx + 1 && #[trigger] code[j].offset == o && code[j].op
                                == OP_JUMPDEST;
                        if j < idx {
                            assert(code[j].offset != code[idx as int].offset);
                        }
                    }
                }
            }
            idx = idx + 1;
        }
        let mut suspends: Vec<u32> = Vec::new();
        let mut tokens: Vec<u32> = Vec::new();
        tokens.push(0);
        let mut i: usize = 0;
        while i < n
            invariant
                i <= n,
                n == instrs@.len(),
                n < 0x8000_0000,
                code == views(instrs@),
                tokens@.len() == i + 1,
                forall|t: int| 0 <= t <= i ==> #[trigger] tokens@[t] == susp_count(code, t),
                suspends@.len() == susp_count(code, i as int),
                forall|t: int|
                    0 <= t < suspends@.len() ==> {
                        &&& #[trigger] suspends@[t] < n
                        &&& spec_is_suspend(code[suspends@[t] as int].op)
                        &&& susp_count(code, suspends@[t] as int) == t
                    },
            decreases n - i,
        {
            proof {
                crate::analysis::lemma_susp_count_bound(code, i as int);
            }
            let prev = tokens[i];
            if is_suspend(instrs[i].op) {
                suspends.push(i as u32);
                tokens.push(prev + 1);
            } else {
                tokens.push(prev);
            }
            proof {
                assert(susp_count(code, i + 1) == susp_count(code, i as int) + if spec_is_suspend(
                    code[i as int].op,
                ) {
                    1nat
                } else {
                    0nat
                });
            }
            i = i + 1;
        }
        proof {
            assert forall|o: int| 0 <= o < nb implies {
                if valid_jumpdest(bytes@, o) {
                    &&& jump_tbl@[o] < n
                    &&& code[jump_tbl@[o] as int].offset == o
                } else {
                    jump_tbl@[o] == u32::MAX
                }
            } by {
                if valid_jumpdest(bytes@, o) {
                    lemma_boundary_instr(bytes@, 0, o);
                    let j = choose|j: int|
                        0 <= j < decode_from(bytes@, 0).len() && #[trigger] decode_from(
                            bytes@,
                            0,
                        )[j].offset == o;
                    assert(code[j].offset == o && code[j].op == OP_JUMPDEST);
                } else {
                    if exists|j: int|
                        0 <= j < n && #[trigger] code[j].offset == o && code[j].op
                            == OP_JUMPDEST {
                        let j = choose|j: int|
                            0 <= j < n && #[trigger] code[j].offset == o && code[j].op
                                == OP_JUMPDEST;
                        assert(valid_jumpdest(bytes@, o));
                    }
                }
            }
        }
        CompiledCode {
            bytecode: Ghost(bytes@),
            instrs,
            jump_tbl,
            suspends,
            tokens,
            spec_id,
        }
    }

    /// Executes exactly one machine step on the live state: `None`
    /// means execution continues, `Some(r)` that the run ends now with
    /// `r` (`CallOrCreate` standing for a suspension).
    #[verifier::rlimit(100)]
    fn step_exec(&self, pc: &mut usize, ctx: &mut Context) -> (r: Option<Reason>)
        requires
            self.wf(),
            *old(pc) <= self.instrs@.len(),
        ensures
            *final(pc) <= self.instrs@.len(),
            ({
                let s_pre = cur_state(*old(pc) as int, old(ctx)@);
                let s_post = cur_state(*final(pc) as int, final(ctx)@);
                match r {
                    None => step(self.bytecode@, self.code(), self.spec_id, s_pre)
                        == Outcome::Next(s_post),
                    Some(rr) => if rr == Reason::CallOrCreate {
                        step(self.bytecode@, self.code(), self.spec_id, s_pre)
                            == Outcome::Suspend(s_post)
                    } else {
                        step(self.bytecode@, self.code(), self.spec_id, s_pre)
                            == Outcome::Done(rr, s_post)
                    },
                }
            }),
    {
        let ghost bytes = self.bytecode@;
        let ghost code = self.code();
        let ghost spec0 = self.spec_id;
        let ghost s_pre = cur_state(*pc as int, ctx@);
        proof {
            lemma_decode_wf(bytes, 0);
            lemma_decode_increasing(bytes, 0);
        }
        let n = self.instrs.len();
        if ctx.gas_remaining < 0 {
            return Some(Reason::OutOfGas);
        }
        if *pc >= n {
            return Some(Reason::Stop);
        }
        let op = self.instrs[*pc].op;
        proof {
            assert(code[*pc as int] == self.instrs@[*pc as int]@);
        }
        let info_opt = lookup(op);
        if info_opt.is_none() {
            return Some(Reason::InvalidOpcode);
        }
        let info = info_opt.unwrap();
        if rank_of(self.spec_id) < rank_of(info.since) {
            return Some(Reason::NotActivated);
        }
        let len = ctx.stack.len();
        if len < info.inputs as usize {
            return Some(Reason::StackUnderflow);
        }
        if len - info.inputs as usize > 1024 - info.outputs as usize {
            return Some(Reason::StackOverflow);
        }
        if ctx.gas_remaining < info.gas as i64 {
            return Some(Reason::OutOfGas);
        }
        ctx.gas_remaining = ctx.gas_remaining - info.gas as i64;
        let ghost sc = MState { gas: s_pre.gas - info.gas, ..s_pre };
        let ghost ins = code[*pc as int];
        proof {
            assert(step(bytes, code, spec0, s_pre) == op_effect(bytes, code, ins, sc));
        }
        if op == OP_STOP {
            *pc = *pc + 1;
            proof {
                reveal(op_effect);
                assert(op_effect(bytes, code, ins, sc) == Outcome::Done(Reason::Stop, cur_state(*pc as int, ctx@)));
            }
            return Some(Reason::Stop);
        } else if op == OP_TEST_SUSPEND {
            *pc = *pc + 1;
            proof {
                reveal(op_effect);
                assert(op_effect(bytes, code, ins, sc) == Outcome::Suspend(cur_state(*pc as int, ctx@)));
            }
            return Some(Reason::CallOrCreate);
        } else if op == OP_INVALID {
            *pc = *pc + 1;
            proof {
                reveal(op_effect);
                assert(op_effect(bytes, code, ins, sc) == Outcome::Done(Reason::InvalidOpcode, cur_state(*pc as int, ctx@)));
            }
            return Some(Reason::InvalidOpcode);
        } else if is_binop_e(op) {
            let a = ctx.stack[len - 1];
            let b = ctx.stack[len - 2];
            let v = binop_exec(op, a, b);
            ctx.stack.pop();
            ctx.stack.pop();
            ctx.stack.push(v);
            *pc = *pc + 1;
            proof {
                assert(ctx.stack@ =~= sc.stack.drop_last().drop_last().push(
                    binop_result(op, a, b),
                ));
            }
            proof {
                reveal(op_effect);
                assert(op_effect(bytes, code, ins, sc) == Outcome::Next(cur_state(*pc as int, ctx@)));
            }
            return None;
        } else if op == OP_ISZERO {
            let a = ctx.stack[len - 1];
            let v = word_from_bool(word_is_zero(a));
            ctx.stack.pop();
            ctx.stack.push(v);
            *pc = *pc + 1;
            proof {
                assert(ctx.stack@ =~= sc.stack.drop_last().push(crate::word::w_iszero(a)));
            }
            proof {
                reveal(op_effect);
                assert(op_effect(bytes, code, ins, sc) == Outcome::Next(cur_state(*pc as int, ctx@)));
            }
            return None;
        } else if op == OP_NOT {
            let a = ctx.stack[len - 1];
            let v = Word { l0: !a.l0, l1: !a.l1, l2: !a.l2, l3: !a.l3 };
            ctx.stack.pop();
            ctx.stack.push(v);
            *pc = *pc + 1;
            proof {
                assert(ctx.stack@ =~= sc.stack.drop_last().push(crate::word::w_not(a)));
            }
            proof {
                reveal(op_effect);
                assert(op_effect(bytes, code, ins, sc) == Outcome::Next(cur_state(*pc as int, ctx@)));
            }
            return None;
        } else if op == OP_POP {
            ctx.stack.pop();
            *pc = *pc + 1;
            proof {
                assert(ctx.stack@ =~= sc.stack.drop_last());
            }
            proof {
                reveal(op_effect);
                assert(op_effect(bytes, code, ins, sc) == Outcome::Next(cur_state(*pc as int, ctx@)));
            }
            return None;
        } else if op == OP_PUSH0 {
            ctx.stack.push(Word { l0: 0, l1: 0, l2: 0, l3: 0 });
            *pc = *pc + 1;
            proof {
                reveal(op_effect);
                assert(op_effect(bytes, code, ins, sc) == Outcome::Next(cur_state(*pc as int, ctx@)));
            }
            return None;
        } else if OP_PUSH1 <= op && op <= OP_PUSH32 {
            let v = u256_from_be(&self.instrs[*pc].imm);
            proof {
                lemma_word_decompose(v);
            }
            ctx.stack.push(v);
            *pc = *pc + 1;
            proof {
                reveal(op_effect);
                assert(op_effect(bytes, code, ins, sc) == Outcome::Next(cur_state(*pc as int, ctx@)));
            }
            return None;
        } else if OP_DUP1 <= op && op <= OP_DUP16 {
            let nd = (op - 0x7f) as usize;
            let v = ctx.stack[len - nd];
            ctx.stack.push(v);
            *pc = *pc + 1;
            proof {
                reveal(op_effect);
                assert(op_effect(bytes, code, ins, sc) == Outcome::Next(cur_state(*pc as int, ctx@)));
            }
            return None;
        } else if OP_SWAP1 <= op && op <= OP_SWAP16 {
            let ns_ = (op - 0x8f) as usize;
            let a = ctx.stack[len - 1];
            let b = ctx.stack[len - 1 - ns_];
            ctx.stack[len - 1] = b;
            ctx.stack[len - 1 - ns_] = a;
            *pc = *pc + 1;
            proof {
                assert(ctx.stack@ =~= sc.stack.update(len - 1, b).update(len - 1 - ns_, a));
            }
            proof {
                reveal(op_effect);
                assert(op_effect(bytes, code, ins, sc) == Outcome::Next(cur_state(*pc as int, ctx@)));
            }
            return None;
        } else if op == OP_PC {
            let v = word_from_u64(self.instrs[*pc].offset as u64);
            ctx.stack.push(v);
            *pc = *pc + 1;
            proof {
                reveal(op_effect);
                assert(op_effect(bytes, code, ins, sc) == Outcome::Next(cur_state(*pc as int, ctx@)));
            }
            return None;
        } else if op == OP_MSIZE {
            let v = word_from_u64(ctx.memory.len() as u64);
            ctx.stack.push(v);
            *pc = *pc + 1;
            proof {
                reveal(op_effect);
                assert(op_effect(bytes, code, ins, sc) == Outcome::Next(cur_state(*pc as int, ctx@)));
            }
            return None;
        } else if op == OP_GAS {
            let v = word_from_u64(ctx.gas_remaining as u64);
            ctx.stack.push(v);
            *pc = *pc + 1;
            proof {
                reveal(op_effect);
                assert(op_effect(bytes, code, ins, sc) == Outcome::Next(cur_state(*pc as int, ctx@)));
            }
            return None;
        } else if op == OP_JUMPDEST {
            *pc = *pc + 1;
            proof {
                reveal(op_effect);
                assert(op_effect(bytes, code, ins, sc) == Outcome::Next(cur_state(*pc as int, ctx@)));
            }
            return None;
        } else if op == OP_JUMP || op == OP_JUMPI {
            let tw = ctx.stack[len - 1];
            let taken: bool;
            if op == OP_JUMP {
                ctx.stack.pop();
                taken = true;
                proof {
                    assert(ctx.stack@ =~= sc.stack.drop_last());
                }
            } else {
                let cw = ctx.stack[len - 2];
                ctx.stack.pop();
                ctx.stack.pop();
                taken = !word_is_zero(cw);
                proof {
                    assert(ctx.stack@ =~= sc.stack.drop_last().drop_last());
                }
            }
            if !taken {
                *pc = *pc + 1;
                proof {
                    reveal(op_effect);
                    assert(op_effect(bytes, code, ins, sc) == Outcome::Next(cur_state(*pc as int, ctx@)));
                }
                return None;
            }
            proof {
                lemma_small_word(tw);
            }
            let nb = self.jump_tbl.len();
            if tw.l1 == 0 && tw.l2 == 0 && tw.l3 == 0 && tw.l0 < nb as u64 {
                let o = tw.l0 as usize;
                let e = self.jump_tbl[o];
                if e != u32::MAX {
                    *pc = e as usize;
                    proof {
                        let oi = word_val(tw) as int;
                        assert(valid_jumpdest(bytes, oi));
                        assert(code[e as int].offset == oi);
                        let j = jump_pc(code, oi);
                        assert(0 <= j < code.len() && code[j].offset == oi);
                        if j < e as int {
                            assert(decode_from(bytes, 0)[j].offset < decode_from(
                                bytes,
                                0,
                            )[e as int].offset);
                        }
                        if (e as int) < j {
                            assert(decode_from(bytes, 0)[e as int].offset < decode_from(
                                bytes,
                                0,
                            )[j].offset);
                        }
                        assert(j == e as int);
                    }
                    proof {
                        reveal(op_effect);
                        assert(op_effect(bytes, code, ins, sc) == Outcome::Next(cur_state(*pc as int, ctx@)));
                    }
                    return None;
                } else {
                    proof {
                        assert(!valid_jumpdest(bytes, word_val(tw) as int));
                    }
                    proof {
                        reveal(op_effect);
                        assert(op_effect(bytes, code, ins, sc) == Outcome::Done(Reason::InvalidJump, cur_state(*pc as int, ctx@)));
                    }
                    return Some(Reason::InvalidJump);
                }
            } else {
                proof {
                    assert(!valid_jumpdest(bytes, word_val(tw) as int));
                }
                proof {
                    reveal(op_effect);
                    assert(op_effect(bytes, code, ins, sc) == Outcome::Done(Reason::InvalidJump, cur_state(*pc as int, ctx@)));
                }
                return Some(Reason::InvalidJump);
            }
        } else if op == OP_MLOAD {
            let off_w = ctx.stack[len - 1];
            let w32 = word_from_u64(32);
            let ok = mem_expand(&mut ctx.gas_remaining, &mut ctx.memory, off_w, w32);
            if !ok {
                proof {
                    reveal(op_effect);
                    assert(op_effect(bytes, code, ins, sc) == Outcome::Done(Reason::MemoryOOG, cur_state(*pc as int, ctx@)));
                }
                return Some(Reason::MemoryOOG);
            }
            ctx.stack.pop();
            proof {
                lemma_small_word(off_w);
            }
            let off = off_w.l0 as usize;
            let data = mem_read(&ctx.memory, off, 32);
            let v = u256_from_be(&data);
            proof {
                lemma_word_decompose(v);
            }
            ctx.stack.push(v);
            *pc = *pc + 1;
            proof {
                assert(ctx.stack@ =~= sc.stack.drop_last().push(v));
            }
            proof {
                reveal(op_effect);
                assert(op_effect(bytes, code, ins, sc) == Outcome::Next(cur_state(*pc as int, ctx@)));
            }
            return None;
        } else if op == OP_MSTORE || op == OP_MSTORE8 {
            let off_w = ctx.stack[len - 1];
            let x = ctx.stack[len - 2];
            let width = word_from_u64(if op == OP_MSTORE {
                32
            } else {
                1
            });
            let ok = mem_expand(&mut ctx.gas_remaining, &mut ctx.memory, off_w, width);
            if !ok {
                proof {
                    reveal(op_effect);
                    assert(op_effect(bytes, code, ins, sc) == Outcome::Done(Reason::MemoryOOG, cur_state(*pc as int, ctx@)));
                }
                return Some(Reason::MemoryOOG);
            }
            ctx.stack.pop();
            ctx.stack.pop();
            proof {
                lemma_small_word(off_w);
                assert(ctx.stack@ =~= sc.stack.drop_last().drop_last());
            }
            let off = off_w.l0 as usize;
            if op == OP_MSTORE {
                let data = u256_to_be(x);
                proof {
                    assert(data@ =~= be_bytes_of(word_val(x)));
                }
                mem_write(&mut ctx.memory, off, &data);
            } else {
                let mut data: Vec<u8> = Vec::new();
                proof {
                    lemma_byte_mask(x);
                }
                data.push((x.l0 & 0xff) as u8);
                proof {
                    assert(data@ =~= seq![(word_val(x) % 256) as u8]);
                }
                mem_write(&mut ctx.memory, off, &data);
            }
            *pc = *pc + 1;
            proof {
                reveal(op_effect);
                assert(op_effect(bytes, code, ins, sc) == Outcome::Next(cur_state(*pc as int, ctx@)));
            }
            return None;
        } else {
            proof {
                assert(op == OP_RETURN || op == OP_REVERT);
            }
            let rr = if op == OP_RETURN {
                Reason::Return
            } else {
                Reason::Revert
            };
            let off_w = ctx.stack[len - 1];
            let cnt_w = ctx.stack[len - 2];
            if word_is_zero(cnt_w) {
                ctx.stack.pop();
                ctx.stack.pop();
                ctx.output = Vec::new();
                *pc = *pc + 1;
                proof {
                    assert(ctx.stack@ =~= sc.stack.drop_last().drop_last());
                    assert(ctx.output@ =~= Seq::<u8>::empty());
                }
                proof {
                    reveal(op_effect);
                    assert(op_effect(bytes, code, ins, sc) == Outcome::Done(rr, cur_state(*pc as int, ctx@)));
                }
                return Some(rr);
            } else {
                let ok = mem_expand(&mut ctx.gas_remaining, &mut ctx.memory, off_w, cnt_w);
                if !ok {
                    proof {
                        reveal(op_effect);
                        assert(op_effect(bytes, code, ins, sc) == Outcome::Done(Reason::MemoryOOG, cur_state(*pc as int, ctx@)));
                    }
                    return Some(Reason::MemoryOOG);
                }
                ctx.stack.pop();
                ctx.stack.pop();
                proof {
                    lemma_small_word(off_w);
                    lemma_small_word(cnt_w);
                    assert(ctx.stack@ =~= sc.stack.drop_last().drop_last());
                }
                let off = off_w.l0 as usize;
                let cnt = cnt_w.l0 as usize;
                let out = mem_read(&ctx.memory, off, cnt);
                ctx.output = out;
                *pc = *pc + 1;
                proof {
                    reveal(op_effect);
                    assert(op_effect(bytes, code, ins, sc) == Outcome::Done(rr, cur_state(*pc as int, ctx@)));
                }
                return Some(rr);
            }
        }
    }

    /// One invocation of the compiled function on the caller's context:
    /// dispatches on the resume token, runs until termination or
    /// suspension, and writes the state back — exactly the machine's
    /// `machine_call`.
    #[verifier::rlimit(50)]
    pub fn call(&self, ctx: &mut Context) -> (r: Reason)
        requires
            self.wf(),
        ensures
            r == machine_call(self.bytecode@, self.code(), self.spec_id, old(ctx)@).0,
            final(ctx)@ == machine_call(self.bytecode@, self.code(), self.spec_id, old(ctx)@).1,
    {
        let ghost bytes = self.bytecode@;
        let ghost code = self.code();
        let ghost spec0 = self.spec_id;
        match ctx.done {
            Some(rr) => {
                return rr;
            },
            None => {},
        }
        let t = ctx.resume_at as usize;
        if t > self.suspends.len() {
            ctx.done = Some(Reason::InvalidJump);
            return Reason::InvalidJump;
        }
        let mut pc: usize = if t == 0 {
            0
        } else {
            self.suspends[t - 1] as usize + 1
        };
        proof {
            if t > 0 {
                let j0 = self.suspends@[t - 1] as int;
                let k = (t - 1) as nat;
                assert(0 <= j0 < code.len() && spec_is_suspend(code[j0].op) && susp_count(
                    code,
                    j0,
                ) == k);
                let j = susp_at(code, k);
                assert(0 <= j < code.len() && spec_is_suspend(code[j].op) && susp_count(code, j)
                    == k);
                if j < j0 {
                    lemma_susp_unique(code, j, j0);
                }
                if j0 < j {
                    lemma_susp_unique(code, j0, j);
                }
            }
            assert(pc as int == resume_pc(code, old(ctx)@.resume_at));
        }
        let ghost s0 = entry_state(code, old(ctx)@);
        let mut reason: Option<Reason> = None;
        let n = self.instrs.len();
        proof {
            assert(cur_state(pc as int, ctx@) == s0);
        }
        loop
            invariant_except_break
                reason is None,
                self.wf(),
                bytes == self.bytecode@,
                code == self.code(),
                spec0 == self.spec_id,
                n == self.instrs@.len(),
                pc <= n,
                run_from(bytes, code, spec0, s0) == run_from(
                    bytes,
                    code,
                    spec0,
                    cur_state(pc as int, ctx@),
                ),
            ensures
                reason matches Some(rr2) && run_from(bytes, code, spec0, s0) == (
                    rr2,
                    cur_state(pc as int, ctx@),
                ) && pc <= n && n == self.instrs@.len(),
            decreases ctx.gas_remaining,
        {
            let ghost s_pre = cur_state(pc as int, ctx@);
            let res = self.step_exec(&mut pc, ctx);
            proof {
                crate::machine::lemma_step_gas(bytes, code, spec0, s_pre);
            }
            match res {
                None => {},
                Some(rr) => {
                    reason = Some(rr);
                    break;
                },
            }
        }
        let rr = match reason {
            Some(x) => x,
            None => Reason::Stop,
        };
        let tok = self.tokens[pc];
        ctx.resume_at = tok;
        if rr == Reason::CallOrCreate {
            ctx.done = None;
        } else {
            ctx.done = Some(rr);
        }
        proof {
            let pair = machine_call(bytes, code, spec0, old(ctx)@);
            assert(run_from(bytes, code, spec0, entry_state(code, old(ctx)@)) == (
                rr,
                MState {
                    pc: pc as int,
                    gas: ctx@.gas,
                    stack: ctx@.stack,
                    mem: ctx@.mem,
                    output: ctx@.output,
                },
            ));
            assert(pair.0 == rr);
            assert(ctx@ == pair.1);
        }
        rr
    }
}


/// Rounding a size up to whole 32-byte words covers it.
proof fn lemma_words_cover(x: nat)
    ensures
        mem_words(x) * 32 >= x,
{
    lemma_fundamental_div_mod((x + 31) as int, 32);
}

/// `mem_gas` grows with the word count.
proof fn lemma_mem_gas_mono(a: nat, b: nat)
    requires
        a <= b,
    ensures
        mem_gas(a) <= mem_gas(b),
{
    assert(a * a <= b * b) by (nonlinear_arith)
        requires
            0 <= a <= b,
    ;
    lemma_div_is_ordered((a * a) as int, (b * b) as int, 512);
}

/// Charges memory-expansion gas and grows the memory for an access of
/// `width_w` bytes at offset `off_w` (both straight off the stack).
/// Returns whether the access is payable; on failure nothing changes.
fn mem_expand(gas: &mut i64, mem: &mut Vec<u8>, off_w: Word, width_w: Word) -> (ok: bool)
    requires
        *old(gas) >= 0,
        word_val(width_w) >= 1,
    ensures
        ok == mem_ok(*old(gas) as int, old(mem)@, word_val(off_w), word_val(width_w)),
        ok ==> {
            &&& *final(gas) == *old(gas) - exp_cost(
                old(mem)@.len(),
                word_val(off_w) + word_val(width_w),
            )
            &&& *final(gas) >= 0
            &&& final(mem)@ == grow_mem(old(mem)@, word_val(off_w) + word_val(width_w))
            &&& word_val(off_w) + word_val(width_w) <= final(mem)@.len()
            &&& final(mem)@.len() <= usize::MAX
        },
        !ok ==> *final(gas) == *old(gas) && final(mem)@ == old(mem)@,
{
    proof {
        lemma_small_word(off_w);
        lemma_small_word(width_w);
    }
    if off_w.l1 != 0 || off_w.l2 != 0 || off_w.l3 != 0 {
        return false;
    }
    if width_w.l1 != 0 || width_w.l2 != 0 || width_w.l3 != 0 {
        return false;
    }
    let ns: u128 = off_w.l0 as u128 + width_w.l0 as u128;
    if ns > u64::MAX as u128 {
        return false;
    }
    let words: u128 = (ns + 31) / 32;
    let cur: u128 = (mem.len() as u128 + 31) / 32;
    proof {
        assert(words == mem_words(word_val(off_w) + word_val(width_w)));
        assert(cur == mem_words(mem@.len()));
        assert(words < 0x2000_0000_0000_0000);
        assert(cur < 0x2000_0000_0000_0000);
        assert(words * words < 0x1_0000_0000_0000_0000_0000_0000_0000_0000) by (nonlinear_arith)
            requires
                0 <= words < 0x2000_0000_0000_0000,
        ;
        assert(cur * cur < 0x1_0000_0000_0000_0000_0000_0000_0000_0000) by (nonlinear_arith)
            requires
                0 <= cur < 0x2000_0000_0000_0000,
        ;
    }
    let cost: u128 = if words > cur {
        proof {
            lemma_mem_gas_mono(cur as nat, words as nat);
        }
        let gw: u128 = 3 * words + (words * words) / 512;
        let gc: u128 = 3 * cur + (cur * cur) / 512;
        gw - gc
    } else {
        0
    };
    proof {
        assert(cost == exp_cost(mem@.len(), word_val(off_w) + word_val(width_w)));
    }
    if cost > *gas as u128 {
        return false;
    }
    let target: u128 = words * 32;
    if target > usize::MAX as u128 {
        return false;
    }
    *gas = *gas - cost as i64;
    let t = target as usize;
    let ghost old_mem = mem@;
    while mem.len() < t
        invariant
            old_mem.len() <= mem@.len(),
            mem@.len() <= t || mem@ == old_mem,
            mem@.subrange(0, old_mem.len() as int) == old_mem,
            forall|i: int| old_mem.len() <= i < mem@.len() ==> mem@[i] == 0u8,
        decreases t - mem.len(),
    {
        let ghost prev = mem@;
        mem.push(0u8);
        proof {
            assert(mem@.subrange(0, old_mem.len() as int) =~= prev.subrange(
                0,
                old_mem.len() as int,
            ));
        }
    }
    proof {
        let nsn = (word_val(off_w) + word_val(width_w)) as nat;
        lemma_words_cover(nsn);
        if mem_words(nsn) * 32 > old_mem.len() {
            assert(mem@.len() == t);
            assert(mem@ =~= old_mem + zeros((mem_words(nsn) * 32 - old_mem.len()) as nat));
        } else {
            assert(mem@ == old_mem);
        }
    }
    true
}

/// Reads `count` bytes of memory at `off`.
fn mem_read(mem: &Vec<u8>, off: usize, count: usize) -> (r: Vec<u8>)
    requires
        off + count <= mem@.len(),
    ensures
        r@ == mem@.subrange(off as int, off + count),
{
    let ml = mem.len();
    let mut r: Vec<u8> = Vec::new();
    let mut j: usize = 0;
    while j < count
        invariant
            j <= count,
            off + count <= ml,
            ml == mem@.len(),
            r@.len() == j,
            forall|i: int| 0 <= i < j ==> r@[i] == mem@[off + i],
        decreases count - j,
    {
        r.push(mem[off + j]);
        j = j + 1;
    }
    proof {
        assert(r@ =~= mem@.subrange(off as int, off + count));
    }
    r
}

/// Writes `data` into memory at `off`.
fn mem_write(mem: &mut Vec<u8>, off: usize, data: &Vec<u8>)
    requires
        off + data@.len() <= old(mem)@.len(),
    ensures
        final(mem)@ == store_bytes(old(mem)@, off as int, data@),
{
    let count = data.len();
    let ml = mem.len();
    let mut j: usize = 0;
    while j < count
        invariant
            j <= count,
            count == data@.len(),
            off + count <= ml,
            ml == mem@.len(),
            mem@.len() == old(mem)@.len(),
            forall|i: int|
                0 <= i < mem@.len() ==> mem@[i] == if off <= i < off + j {
                    data@[i - off]
                } else {
                    old(mem)@[i]
                },
        decreases count - j,
    {
        mem[off + j] = data[j];
        j = j + 1;
    }
    proof {
        assert(mem@ =~= store_bytes(old(mem)@, off as int, data@));
    }
}

fn is_binop_e(op: u8) -> (r: bool)
    ensures
        r == is_binop(op),
{
    op == OP_ADD || op == OP_MUL || op == OP_SUB || op == OP_DIV || op == OP_SDIV || op == OP_MOD
        || op == OP_SMOD || op == OP_SIGNEXTEND || op == OP_LT || op == OP_GT || op == OP_SLT || op == OP_SGT
        || op == OP_EQ || op == OP_AND || op == OP_OR || op == OP_XOR || op == OP_BYTE
        || op == OP_SHL || op == OP_SHR || op == OP_SAR
}

/// The machine state corresponding to the engine's live variables.
pub open spec fn cur_state(pc: int, c: CtxV) -> MState {
    MState { pc: pc, gas: c.gas, stack: c.stack, mem: c.mem, output: c.output }
}

/// The lowering of every two-operand opcode; `a` is the top slot.
fn binop_exec(op: u8, a: Word, b: Word) -> (r: Word)
    requires
        is_binop(op),
    ensures
        r == binop_result(op, a, b),
{
    if op == OP_ADD {
        word_add(a, b)
    } else if op == OP_MUL {
        word_mul(a, b)
    } else if op == OP_SUB {
        word_sub(a, b)
    } else if op == OP_DIV {
        word_div(a, b)
    } else if op == OP_SDIV {
        word_sdiv(a, b)
    } else if op == OP_MOD {
        word_mod(a, b)
    } else if op == OP_SMOD {
        word_smod(a, b)
    } else if op == OP_SIGNEXTEND {
        word_signextend(a, b)
    } else if op == OP_LT {
        word_from_bool(word_lt(a, b))
    } else if op == OP_GT {
        word_from_bool(word_lt(b, a))
    } else if op == OP_SLT {
        word_from_bool(word_slt(a, b))
    } else if op == OP_SGT {
        word_from_bool(word_slt(b, a))
    } else if op == OP_EQ {
        word_from_bool(word_eq_exec(a, b))
    } else if op == OP_AND {
        Word { l0: a.l0 & b.l0, l1: a.l1 & b.l1, l2: a.l2 & b.l2, l3: a.l3 & b.l3 }
    } else if op == OP_OR {
        Word { l0: a.l0 | b.l0, l1: a.l1 | b.l1, l2: a.l2 | b.l2, l3: a.l3 | b.l3 }
    } else if op == OP_XOR {
        Word { l0: a.l0 ^ b.l0, l1: a.l1 ^ b.l1, l2: a.l2 ^ b.l2, l3: a.l3 ^ b.l3 }
    } else if op == OP_BYTE {
        word_byte(a, b)
    } else if op == OP_SHL {
        word_shl(b, a)
    } else if op == OP_SHR {
        word_shr(b, a)
    } else {
        word_sar(b, a)
    }
}

} // verus!
