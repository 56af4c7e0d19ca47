//! Basic-block analysis: partitioning the instruction sequence into
//! maximal straight-line blocks and computing, per block, the static
//! gas sum and the stack-height bounds that let a code generator emit
//! one fused underflow check, one fused overflow check and one gas
//! deduction at the block's entry.

use vstd::prelude::*;
use crate::analysis::{views, Instr, InstrV};
use crate::opcode::{
    is_terminator, lookup, op_table, spec_is_terminator, OP_JUMPDEST,
};

verus! {

/// One basic block: instruction indices `[start, end)`, its static
/// metadata, and its terminator.
#[derive(Clone, Copy, PartialEq, Eq, Structural, Debug)]
pub struct Block {
    pub start: usize,
    pub end: usize,
    /// Sum of the static base gas of every instruction in the block.
    pub static_gas: u64,
    /// Stack slots that must be on the stack at entry so that no
    /// instruction underflows.
    pub min_entry: i64,
    /// Largest net stack growth over any prefix of the block: entry
    /// height plus this must stay within the 1024-slot stack.
    pub max_growth: i64,
    /// Net stack delta of the whole block.
    pub net: i64,
    /// Whether any instruction carries a dynamic (memory-expansion)
    /// cost, forcing per-instruction metering inside the block.
    pub has_dynamic: bool,
    /// Opcode of the last instruction.
    pub terminator: u8,
}

pub open spec fn op_gas(op: u8) -> nat {
    match op_table(op) {
        Option::Some(i) => i.gas as nat,
        Option::None => 0,
    }
}

pub open spec fn op_inputs(op: u8) -> int {
    match op_table(op) {
        Option::Some(i) => i.inputs as int,
        Option::None => 0,
    }
}

pub open spec fn op_delta(op: u8) -> int {
    match op_table(op) {
        Option::Some(i) => i.outputs - i.inputs,
        Option::None => 0,
    }
}

pub open spec fn op_dynamic(op: u8) -> bool {
    match op_table(op) {
        Option::Some(i) => i.dynamic,
        Option::None => false,
    }
}

/// Static gas of the instructions `[s, e)`.
pub open spec fn blk_gas(code: Seq<InstrV>, s: int, e: int) -> nat
    decreases e - s,
{
    if s >= e {
        0
    } else {
        op_gas(code[s].op) + blk_gas(code, s + 1, e)
    }
}

/// Net stack delta of `[s, e)`.
pub open spec fn blk_net(code: Seq<InstrV>, s: int, e: int) -> int
    decreases e - s,
{
    if s >= e {
        0
    } else {
        op_delta(code[s].op) + blk_net(code, s + 1, e)
    }
}

pub open spec fn max_i(a: int, b: int) -> int {
    if a >= b {
        a
    } else {
        b
    }
}

/// Entry stack height required so no instruction of `[s, e)`
/// underflows: the largest, over every instruction, of its inputs minus
/// the net delta accumulated before it.
pub open spec fn blk_need(code: Seq<InstrV>, s: int, e: int) -> int
    decreases e - s,
{
    if s >= e {
        0
    } else {
        max_i(op_inputs(code[s].op), blk_need(code, s + 1, e) - op_delta(code[s].op))
    }
}

/// Largest net stack growth over any prefix of `[s, e)`.
pub open spec fn blk_grow(code: Seq<InstrV>, s: int, e: int) -> int
    decreases e - s,
{
    if s >= e {
        0
    } else {
        max_i(0, op_delta(code[s].op) + blk_grow(code, s + 1, e))
    }
}

pub open spec fn blk_dynamic(code: Seq<InstrV>, s: int, e: int) -> bool
    decreases e - s,
{
    if s >= e {
        false
    } else {
        op_dynamic(code[s].op) || blk_dynamic(code, s + 1, e)
    }
}

/// What `blocks` promises of each block it returns.
pub open spec fn block_ok(code: Seq<InstrV>, b: Block) -> bool {
    &&& b.start < b.end <= code.len()
    &&& b.static_gas == blk_gas(code, b.start as int, b.end as int)
    &&& b.min_entry == blk_need(code, b.start as int, b.end as int)
    &&& b.max_growth == blk_grow(code, b.start as int, b.end as int)
    &&& b.net == blk_net(code, b.start as int, b.end as int)
    &&& b.has_dynamic == blk_dynamic(code, b.start as int, b.end as int)
    &&& b.terminator == code[b.end - 1].op
    &&& forall|j: int|
        b.start <= j < b.end - 1 ==> !spec_is_terminator(#[trigger] code[j].op)
    &&& forall|j: int| b.start < j < b.end ==> (#[trigger] code[j].op) != OP_JUMPDEST
}

/// The entry requirement dominates every instruction's own need: at
/// instruction `j` the height is the entry height plus the net delta
/// accumulated before it.
proof fn lemma_need_covers(code: Seq<InstrV>, s: int, e: int, j: int)
    requires
        s <= j < e <= code.len(),
    ensures
        blk_need(code, s, e) >= op_inputs(code[j].op) - blk_net(code, s, j),
    decreases j - s,
{
    if j > s {
        lemma_need_covers(code, s + 1, e, j);
    }
}

/// The recorded growth dominates every prefix's net delta.
proof fn lemma_grow_covers(code: Seq<InstrV>, s: int, e: int, j: int)
    requires
        s <= j <= e <= code.len(),
    ensures
        blk_grow(code, s, e) >= blk_net(code, s, j),
    decreases j - s,
{
    if j > s {
        lemma_grow_covers(code, s + 1, e, j);
    }
}

/// Soundness of the fused entry checks: an entry stack height that
/// satisfies the block's `min_entry` and `max_growth` bounds guarantees
/// that no instruction inside the block underflows the stack and that
/// no prefix pushes it past the limit, so a code generator may check
/// once at the block's entry and not per instruction.
pub proof fn block_bounds_sound(code: Seq<InstrV>, b: Block, h: int, limit: int, j: int)
    requires
        block_ok(code, b),
        b.start <= j < b.end,
        h >= b.min_entry,
        h + b.max_growth <= limit,
    ensures
        h + blk_net(code, b.start as int, j) >= op_inputs(code[j].op),
        h + blk_net(code, b.start as int, j + 1) <= limit,
{
    lemma_need_covers(code, b.start as int, b.end as int, j);
    lemma_grow_covers(code, b.start as int, b.end as int, j + 1);
}

fn exec_op_meta(op: u8) -> (r: (u64, i64, i64, bool))
    ensures
        r.0 == op_gas(op),
        r.1 == op_inputs(op),
        r.2 == op_delta(op),
        r.3 == op_dynamic(op),
{
    match lookup(op) {
        Some(i) => (i.gas as u64, i.inputs as i64, i.outputs as i64 - i.inputs as i64, i.dynamic),
        None => (0, 0, 0, false),
    }
}

/// Splits the instruction sequence into basic blocks: a block ends at
/// its terminator or just before a JUMPDEST, so every jump destination
/// starts a block.  Records per block the static gas sum, the fused
/// entry bounds, the net delta, the dynamic-gas flag and the
/// terminator.
pub fn blocks(instrs: &Vec<Instr>) -> (r: Vec<Block>)
    requires
        instrs@.len() < 0x8000_0000,
    ensures
        ({
            let code = views(instrs@);
            &&& forall|i: int| 0 <= i < r@.len() ==> block_ok(code, #[trigger] r@[i])
            &&& (code.len() > 0 ==> r@.len() > 0 && r@[0].start == 0 && r@[r@.len() - 1].end
                == code.len())
            &&& (code.len() == 0 ==> r@.len() == 0)
            &&& forall|i: int| 0 < i < r@.len() ==> #[trigger] r@[i].start == r@[i - 1].end
        }),
{
    let ghost code = views(instrs@);
    let n = instrs.len();
    let mut r: Vec<Block> = Vec::new();
    let mut s: usize = 0;
    while s < n
        invariant
            s <= n,
            n == instrs@.len(),
            n < 0x8000_0000,
            code == views(instrs@),
            forall|i: int| 0 <= i < r@.len() ==> block_ok(code, #[trigger] r@[i]),
            (s > 0 ==> r@.len() > 0 && r@[0].start == 0 && r@[r@.len() - 1].end == s),
            (s == 0 ==> r@.len() == 0),
            forall|i: int| 0 < i < r@.len() ==> #[trigger] r@[i].start == r@[i - 1].end,
        decreases n - s,
    {
        // Find the end of the block starting at s.
        let mut e: usize = s;
        let mut stop = false;
        while !stop
            invariant
                s <= e <= n,
                n == instrs@.len(),
                code == views(instrs@),
                !stop ==> e < n,
                !stop ==> (forall|j: int|
                    s <= j < e ==> !spec_is_terminator(#[trigger] code[j].op)),
                !stop ==> (forall|j: int| s < j <= e ==> (#[trigger] code[j].op) != OP_JUMPDEST),
                stop ==> s < e,
                stop ==> (forall|j: int|
                    s <= j < e - 1 ==> !spec_is_terminator(#[trigger] code[j].op)),
                stop ==> (forall|j: int| s < j < e ==> (#[trigger] code[j].op) != OP_JUMPDEST),
            decreases n - e,
        {
            let op = instrs[e].op;
            proof {
                assert(code[e as int] == instrs@[e as int]@);
            }
            e = e + 1;
            if is_terminator(op) {
                stop = true;
            } else if e >= n {
                stop = true;
            } else if instrs[e].op == OP_JUMPDEST {
                proof {
                    assert(code[e as int] == instrs@[e as int]@);
                }
                stop = true;
            }
        }
        // Walk the block backwards, mirroring the recursive metadata
        // definitions exactly.
        let mut p: usize = e;
        let mut gas: u64 = 0;
        let mut need: i64 = 0;
        let mut grow: i64 = 0;
        let mut net: i64 = 0;
        let mut dynamic = false;
        while p > s
            invariant
                s <= p <= e <= n,
                n == instrs@.len(),
                n < 0x8000_0000,
                code == views(instrs@),
                gas == blk_gas(code, p as int, e as int),
                need == blk_need(code, p as int, e as int),
                grow == blk_grow(code, p as int, e as int),
                net == blk_net(code, p as int, e as int),
                dynamic == blk_dynamic(code, p as int, e as int),
                gas <= 255 * (e - p),
                0 <= need <= 17 * (e - p),
                0 <= grow <= 17 * (e - p),
                -17 * (e - p) <= net <= 17 * (e - p),
            decreases p,
        {
            p = p - 1;
            let op = instrs[p].op;
            proof {
                assert(code[p as int] == instrs@[p as int]@);
                assert(op_gas(op) <= 255 && 0 <= op_inputs(op) <= 17 && -17 <= op_delta(op)
                    <= 17);
            }
            let (g, inp, d, dy) = exec_op_meta(op);
            gas = gas + g;
            let cand = need - d;
            need = if inp > cand {
                inp
            } else {
                cand
            };
            proof {
                assert(blk_need(code, p as int, e as int) == max_i(
                    op_inputs(op),
                    blk_need(code, p + 1, e as int) - op_delta(op),
                ));
            }
            let cand2 = d + grow;
            grow = if cand2 > 0 {
                cand2
            } else {
                0
            };
            net = net + d;
            dynamic = dynamic || dy;
        }
        r.push(Block {
            start: s,
            end: e,
            static_gas: gas,
            min_entry: need,
            max_growth: grow,
            net,
            has_dynamic: dynamic,
            terminator: instrs[e - 1].op,
        });
        proof {
            assert(code[e - 1] == instrs@[e - 1]@);
        }
        s = e;
    }
    r
}

} // verus!
