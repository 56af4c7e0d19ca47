//! Static per-opcode metadata: immediate size, stack arity, base gas
//! cost, the hardfork that introduced the opcode, and whether its gas is
//! partly dynamic.  `lookup` is the only operation; an opcode outside
//! the table is undefined and terminates execution at run time.

use vstd::prelude::*;

verus! {

/// EVM hardfork feature sets, oldest first.  Later forks enable more
/// opcodes.
#[derive(Clone, Copy, PartialEq, Eq, Structural, Debug)]
pub enum SpecId {
    Frontier,
    Homestead,
    Byzantium,
    Constantinople,
    Istanbul,
    London,
    Shanghai,
    Cancun,
}

/// Position of a hardfork in history; later forks have larger ranks.
pub open spec fn spec_rank(s: SpecId) -> nat {
    match s {
        SpecId::Frontier => 0,
        SpecId::Homestead => 1,
        SpecId::Byzantium => 2,
        SpecId::Constantinople => 3,
        SpecId::Istanbul => 4,
        SpecId::London => 5,
        SpecId::Shanghai => 6,
        SpecId::Cancun => 7,
    }
}

pub fn rank_of(s: SpecId) -> (r: u8)
    ensures
        r == spec_rank(s),
{
    match s {
        SpecId::Frontier => 0,
        SpecId::Homestead => 1,
        SpecId::Byzantium => 2,
        SpecId::Constantinople => 3,
        SpecId::Istanbul => 4,
        SpecId::London => 5,
        SpecId::Shanghai => 6,
        SpecId::Cancun => 7,
    }
}

/// Why a compiled function stopped running, or that it merely suspended
/// (`CallOrCreate`) and may be re-entered.
#[derive(Clone, Copy, PartialEq, Eq, Structural, Debug)]
pub enum Reason {
    Stop,
    Return,
    Revert,
    CallOrCreate,
    OutOfGas,
    MemoryOOG,
    StackUnderflow,
    StackOverflow,
    InvalidJump,
    InvalidOpcode,
    NotActivated,
}

pub const OP_STOP: u8 = 0x00;
pub const OP_ADD: u8 = 0x01;
pub const OP_MUL: u8 = 0x02;
pub const OP_SUB: u8 = 0x03;
pub const OP_DIV: u8 = 0x04;
pub const OP_SDIV: u8 = 0x05;
pub const OP_MOD: u8 = 0x06;
pub const OP_SMOD: u8 = 0x07;
pub const OP_SIGNEXTEND: u8 = 0x0b;
/// Pseudo-opcode on an unused byte: suspends unconditionally, for
/// exercising the suspend/resume ABI.
pub const OP_TEST_SUSPEND: u8 = 0x0c;
pub const OP_LT: u8 = 0x10;
pub const OP_GT: u8 = 0x11;
pub const OP_SLT: u8 = 0x12;
pub const OP_SGT: u8 = 0x13;
pub const OP_EQ: u8 = 0x14;
pub const OP_ISZERO: u8 = 0x15;
pub const OP_AND: u8 = 0x16;
pub const OP_OR: u8 = 0x17;
pub const OP_XOR: u8 = 0x18;
pub const OP_NOT: u8 = 0x19;
pub const OP_BYTE: u8 = 0x1a;
pub const OP_SHL: u8 = 0x1b;
pub const OP_SHR: u8 = 0x1c;
pub const OP_SAR: u8 = 0x1d;
pub const OP_POP: u8 = 0x50;
pub const OP_MLOAD: u8 = 0x51;
pub const OP_MSTORE: u8 = 0x52;
pub const OP_MSTORE8: u8 = 0x53;
pub const OP_JUMP: u8 = 0x56;
pub const OP_JUMPI: u8 = 0x57;
pub const OP_PC: u8 = 0x58;
pub const OP_MSIZE: u8 = 0x59;
pub const OP_GAS: u8 = 0x5a;
pub const OP_JUMPDEST: u8 = 0x5b;
pub const OP_PUSH0: u8 = 0x5f;
pub const OP_PUSH1: u8 = 0x60;
pub const OP_PUSH32: u8 = 0x7f;
pub const OP_DUP1: u8 = 0x80;
pub const OP_DUP16: u8 = 0x8f;
pub const OP_SWAP1: u8 = 0x90;
pub const OP_SWAP16: u8 = 0x9f;
pub const OP_RETURN: u8 = 0xf3;
pub const OP_REVERT: u8 = 0xfd;
pub const OP_INVALID: u8 = 0xfe;

/// Static metadata of one opcode under the hardfork that carries it.
#[derive(Clone, Copy, PartialEq, Eq, Structural, Debug)]
pub struct OpInfo {
    /// Bytes of immediate following the opcode (only PUSH has any).
    pub imm: u8,
    /// Stack slots read.
    pub inputs: u8,
    /// Stack slots written.
    pub outputs: u8,
    /// Static base gas cost.
    pub gas: u8,
    /// First hardfork in which the opcode exists.
    pub since: SpecId,
    /// Whether an additional dynamic cost (memory expansion) applies.
    pub dynamic: bool,
}

pub open spec fn mk_op(imm: u8, inputs: u8, outputs: u8, gas: u8, since: SpecId, dynamic: bool) -> OpInfo {
    OpInfo { imm, inputs, outputs, gas, since, dynamic }
}

/// The opcode table: `None` is an undefined opcode.
pub open spec fn op_table(op: u8) -> Option<OpInfo> {
    if op == OP_STOP {
        Some(mk_op(0, 0, 0, 0, SpecId::Frontier, false))
    } else if op == OP_ADD {
        Some(mk_op(0, 2, 1, 3, SpecId::Frontier, false))
    } else if op == OP_MUL {
        Some(mk_op(0, 2, 1, 5, SpecId::Frontier, false))
    } else if op == OP_SUB {
        Some(mk_op(0, 2, 1, 3, SpecId::Frontier, false))
    } else if op == OP_DIV {
        Some(mk_op(0, 2, 1, 5, SpecId::Frontier, false))
    } else if op == OP_SDIV {
        Some(mk_op(0, 2, 1, 5, SpecId::Frontier, false))
    } else if op == OP_MOD {
        Some(mk_op(0, 2, 1, 5, SpecId::Frontier, false))
    } else if op == OP_SMOD {
        Some(mk_op(0, 2, 1, 5, SpecId::Frontier, false))
    } else if op == OP_SIGNEXTEND {
        Some(mk_op(0, 2, 1, 5, SpecId::Frontier, false))
    } else if op == OP_TEST_SUSPEND {
        Some(mk_op(0, 0, 0, 0, SpecId::Frontier, false))
    } else if op == OP_LT || op == OP_GT || op == OP_SLT || op == OP_SGT || op == OP_EQ {
        Some(mk_op(0, 2, 1, 3, SpecId::Frontier, false))
    } else if op == OP_ISZERO {
        Some(mk_op(0, 1, 1, 3, SpecId::Frontier, false))
    } else if op == OP_AND || op == OP_OR || op == OP_XOR {
        Some(mk_op(0, 2, 1, 3, SpecId::Frontier, false))
    } else if op == OP_NOT {
        Some(mk_op(0, 1, 1, 3, SpecId::Frontier, false))
    } else if op == OP_BYTE {
        Some(mk_op(0, 2, 1, 3, SpecId::Frontier, false))
    } else if op == OP_SHL || op == OP_SHR || op == OP_SAR {
        Some(mk_op(0, 2, 1, 3, SpecId::Constantinople, false))
    } else if op == OP_POP {
        Some(mk_op(0, 1, 0, 2, SpecId::Frontier, false))
    } else if op == OP_MLOAD {
        Some(mk_op(0, 1, 1, 3, SpecId::Frontier, true))
    } else if op == OP_MSTORE {
        Some(mk_op(0, 2, 0, 3, SpecId::Frontier, true))
    } else if op == OP_MSTORE8 {
        Some(mk_op(0, 2, 0, 3, SpecId::Frontier, true))
    } else if op == OP_JUMP {
        Some(mk_op(0, 1, 0, 8, SpecId::Frontier, false))
    } else if op == OP_JUMPI {
        Some(mk_op(0, 2, 0, 10, SpecId::Frontier, false))
    } else if op == OP_PC {
        Some(mk_op(0, 0, 1, 2, SpecId::Frontier, false))
    } else if op == OP_MSIZE {
        Some(mk_op(0, 0, 1, 2, SpecId::Frontier, false))
    } else if op == OP_GAS {
        Some(mk_op(0, 0, 1, 2, SpecId::Frontier, false))
    } else if op == OP_JUMPDEST {
        Some(mk_op(0, 0, 0, 1, SpecId::Frontier, false))
    } else if op == OP_PUSH0 {
        Some(mk_op(0, 0, 1, 2, SpecId::Shanghai, false))
    } else if OP_PUSH1 <= op && op <= OP_PUSH32 {
        Some(mk_op((op - 0x5f) as u8, 0, 1, 3, SpecId::Frontier, false))
    } else if OP_DUP1 <= op && op <= OP_DUP16 {
        Some(mk_op(0, (op - 0x7f) as u8, (op - 0x7e) as u8, 3, SpecId::Frontier, false))
    } else if OP_SWAP1 <= op && op <= OP_SWAP16 {
        Some(mk_op(0, (op - 0x8e) as u8, (op - 0x8e) as u8, 3, SpecId::Frontier, false))
    } else if op == OP_RETURN {
        Some(mk_op(0, 2, 0, 0, SpecId::Frontier, true))
    } else if op == OP_REVERT {
        Some(mk_op(0, 2, 0, 0, SpecId::Byzantium, true))
    } else if op == OP_INVALID {
        Some(mk_op(0, 0, 0, 0, SpecId::Frontier, false))
    } else {
        None
    }
}

/// Immediate length used by the instruction walker: PUSHk carries k
/// bytes, every other byte none.  Defined for all 256 bytes, since the
/// walker accepts arbitrary bytecode.
pub open spec fn spec_imm_len(op: u8) -> nat {
    if OP_PUSH1 <= op && op <= OP_PUSH32 {
        (op - 0x5f) as nat
    } else {
        0
    }
}

/// Opcodes at which a basic block ends.
pub open spec fn spec_is_terminator(op: u8) -> bool {
    op == OP_STOP || op == OP_JUMP || op == OP_JUMPI || op == OP_RETURN || op == OP_REVERT
        || op == OP_INVALID || op == OP_TEST_SUSPEND || op_table(op) is None
}

/// Opcodes that suspend execution and return control to the host.
pub open spec fn spec_is_suspend(op: u8) -> bool {
    op == OP_TEST_SUSPEND
}

/// Looks an opcode up under a hardfork: its metadata, or `None` where
/// the byte is not an opcode at all.  An opcode introduced by a later
/// hardfork is still returned; the machine reports it as `NotActivated`.
pub fn lookup(op: u8) -> (r: Option<OpInfo>)
    ensures
        r == op_table(op),
{
    if op == OP_STOP || op == OP_TEST_SUSPEND || op == OP_INVALID {
        Some(OpInfo { imm: 0, inputs: 0, outputs: 0, gas: 0, since: SpecId::Frontier, dynamic: false })
    } else if op == OP_ADD || op == OP_SUB {
        Some(OpInfo { imm: 0, inputs: 2, outputs: 1, gas: 3, since: SpecId::Frontier, dynamic: false })
    } else if op == OP_MUL || op == OP_DIV || op == OP_SDIV || op == OP_MOD || op == OP_SMOD
        || op == OP_SIGNEXTEND {
        Some(OpInfo { imm: 0, inputs: 2, outputs: 1, gas: 5, since: SpecId::Frontier, dynamic: false })
    } else if op == OP_LT || op == OP_GT || op == OP_SLT || op == OP_SGT || op == OP_EQ
        || op == OP_AND || op == OP_OR || op == OP_XOR || op == OP_BYTE {
        Some(OpInfo { imm: 0, inputs: 2, outputs: 1, gas: 3, since: SpecId::Frontier, dynamic: false })
    } else if op == OP_ISZERO || op == OP_NOT {
        Some(OpInfo { imm: 0, inputs: 1, outputs: 1, gas: 3, since: SpecId::Frontier, dynamic: false })
    } else if op == OP_SHL || op == OP_SHR || op == OP_SAR {
        Some(OpInfo { imm: 0, inputs: 2, outputs: 1, gas: 3, since: SpecId::Constantinople, dynamic: false })
    } else if op == OP_POP {
        Some(OpInfo { imm: 0, inputs: 1, outputs: 0, gas: 2, since: SpecId::Frontier, dynamic: false })
    } else if op == OP_MLOAD {
        Some(OpInfo { imm: 0, inputs: 1, outputs: 1, gas: 3, since: SpecId::Frontier, dynamic: true })
    } else if op == OP_MSTORE || op == OP_MSTORE8 {
        Some(OpInfo { imm: 0, inputs: 2, outputs: 0, gas: 3, since: SpecId::Frontier, dynamic: true })
    } else if op == OP_JUMP {
        Some(OpInfo { imm: 0, inputs: 1, outputs: 0, gas: 8, since: SpecId::Frontier, dynamic: false })
    } else if op == OP_JUMPI {
        Some(OpInfo { imm: 0, inputs: 2, outputs: 0, gas: 10, since: SpecId::Frontier, dynamic: false })
    } else if op == OP_PC || op == OP_MSIZE || op == OP_GAS {
        Some(OpInfo { imm: 0, inputs: 0, outputs: 1, gas: 2, since: SpecId::Frontier, dynamic: false })
    } else if op == OP_JUMPDEST {
        Some(OpInfo { imm: 0, inputs: 0, outputs: 0, gas: 1, since: SpecId::Frontier, dynamic: false })
    } else if op == OP_PUSH0 {
        Some(OpInfo { imm: 0, inputs: 0, outputs: 1, gas: 2, since: SpecId::Shanghai, dynamic: false })
    } else if OP_PUSH1 <= op && op <= OP_PUSH32 {
        Some(OpInfo { imm: op - 0x5f, inputs: 0, outputs: 1, gas: 3, since: SpecId::Frontier, dynamic: false })
    } else if OP_DUP1 <= op && op <= OP_DUP16 {
        Some(OpInfo { imm: 0, inputs: op - 0x7f, outputs: op - 0x7e, gas: 3, since: SpecId::Frontier, dynamic: false })
    } else if OP_SWAP1 <= op && op <= OP_SWAP16 {
        Some(OpInfo { imm: 0, inputs: op - 0x8e, outputs: op - 0x8e, gas: 3, since: SpecId::Frontier, dynamic: false })
    } else if op == OP_RETURN {
        Some(OpInfo { imm: 0, inputs: 2, outputs: 0, gas: 0, since: SpecId::Frontier, dynamic: true })
    } else if op == OP_REVERT {
        Some(OpInfo { imm: 0, inputs: 2, outputs: 0, gas: 0, since: SpecId::Byzantium, dynamic: true })
    } else {
        None
    }
}

/// Immediate length of an opcode byte, for the instruction walker.
pub fn imm_len(op: u8) -> (r: usize)
    ensures
        r == spec_imm_len(op),
{
    if OP_PUSH1 <= op && op <= OP_PUSH32 {
        (op - 0x5f) as usize
    } else {
        0
    }
}

pub fn is_terminator(op: u8) -> (r: bool)
    ensures
        r == spec_is_terminator(op),
{
    op == OP_STOP || op == OP_JUMP || op == OP_JUMPI || op == OP_RETURN || op == OP_REVERT
        || op == OP_INVALID || op == OP_TEST_SUSPEND || lookup(op).is_none()
}

pub fn is_suspend(op: u8) -> (r: bool)
    ensures
        r == spec_is_suspend(op),
{
    op == OP_TEST_SUSPEND
}

} // verus!
