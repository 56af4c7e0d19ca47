use revmc::exec::{CompiledCode, Context};
use revmc::opcode::{Reason, SpecId};
use revmc::word::Word;

fn w(x: u64) -> Word {
    Word { l0: x, l1: 0, l2: 0, l3: 0 }
}

fn neg(x: u64) -> Word {
    // Two's complement of a small positive value.
    Word {
        l0: x.wrapping_neg(),
        l1: u64::MAX,
        l2: u64::MAX,
        l3: u64::MAX,
    }
}

fn run(bytes: Vec<u8>, gas: i64) -> (Reason, Context) {
    let code = CompiledCode::compile(&bytes, SpecId::Cancun);
    let mut ctx = Context::new(gas);
    let r = code.call(&mut ctx);
    (r, ctx)
}

/// Runs `PUSH1 b, PUSH1 a, <op>, STOP` so that `a` is on top.
fn binop(a: u8, b: u8, op: u8) -> Word {
    let (r, ctx) = run(vec![0x60, b, 0x60, a, op, 0x00], 100);
    assert_eq!(r, Reason::Stop);
    assert_eq!(ctx.stack.len(), 1);
    ctx.stack[0]
}

#[test]
fn arithmetic_exact_values() {
    assert_eq!(binop(7, 2, 0x02), w(14)); // MUL
    assert_eq!(binop(7, 2, 0x03), w(5)); // SUB: top - next
    assert_eq!(binop(7, 2, 0x04), w(3)); // DIV
    assert_eq!(binop(7, 2, 0x06), w(1)); // MOD
    assert_eq!(binop(7, 0, 0x04), w(0)); // DIV by zero -> 0
    assert_eq!(binop(7, 0, 0x06), w(0)); // MOD by zero -> 0
}

#[test]
fn comparisons() {
    assert_eq!(binop(1, 2, 0x10), w(1)); // LT: 1 < 2
    assert_eq!(binop(2, 1, 0x10), w(0));
    assert_eq!(binop(2, 1, 0x11), w(1)); // GT
    assert_eq!(binop(3, 3, 0x14), w(1)); // EQ
    assert_eq!(binop(3, 4, 0x14), w(0));
}

#[test]
fn signed_comparisons_and_smod() {
    // -1 < 1 signed, but not unsigned.
    let bytes = vec![
        0x60, 0x01, // PUSH1 1
        0x7f, 0xff, 0xff, 0xff, 0xff, 0xff, 0xff, 0xff, 0xff, 0xff, 0xff, 0xff, 0xff, 0xff,
        0xff, 0xff, 0xff, 0xff, 0xff, 0xff, 0xff, 0xff, 0xff, 0xff, 0xff, 0xff, 0xff, 0xff,
        0xff, 0xff, 0xff, 0xff, 0xff, // PUSH32 -1 (top)
        0x12, // SLT: -1 < 1
        0x00,
    ];
    let (r, ctx) = run(bytes, 100);
    assert_eq!(r, Reason::Stop);
    assert_eq!(ctx.stack, vec![w(1)]);

    // SMOD: -7 % 2 == -1 (sign follows the dividend).
    let mut b2 = vec![0x60, 0x02, 0x7f];
    b2.extend(std::iter::repeat(0xff).take(31));
    b2.push(0xf9); // -7 on top
    b2.push(0x07); // SMOD
    b2.push(0x00);
    let (r2, ctx2) = run(b2, 100);
    assert_eq!(r2, Reason::Stop);
    assert_eq!(ctx2.stack, vec![neg(1)]);
}

#[test]
fn bitwise_and_byte() {
    assert_eq!(binop(0b1100, 0b1010, 0x16), w(0b1000)); // AND
    assert_eq!(binop(0b1100, 0b1010, 0x17), w(0b1110)); // OR
    assert_eq!(binop(0b1100, 0b1010, 0x18), w(0b0110)); // XOR
    // NOT 0 == all ones.
    let (r, ctx) = run(vec![0x60, 0x00, 0x19, 0x00], 100);
    assert_eq!(r, Reason::Stop);
    assert_eq!(
        ctx.stack,
        vec![Word { l0: u64::MAX, l1: u64::MAX, l2: u64::MAX, l3: u64::MAX }]
    );
    // BYTE 31 of 0xAB is 0xAB (least significant byte).
    assert_eq!(binop(31, 0xab, 0x1a), w(0xab));
    // BYTE 0 of a small value is 0.
    assert_eq!(binop(0, 0xab, 0x1a), w(0));
    // ISZERO.
    let (r2, ctx2) = run(vec![0x60, 0x00, 0x15, 0x00], 100);
    assert_eq!(r2, Reason::Stop);
    assert_eq!(ctx2.stack, vec![w(1)]);
}

#[test]
fn shifts_by_word() {
    // SHL: shift amount on top.
    let (r, ctx) = run(vec![0x60, 0x01, 0x60, 0x08, 0x1b, 0x00], 100);
    assert_eq!(r, Reason::Stop);
    assert_eq!(ctx.stack, vec![w(0x100)]);
    // Shift of 256 or more gives zero.
    let (r2, ctx2) = run(vec![0x60, 0x01, 0x61, 0x01, 0x00, 0x1b, 0x00], 100);
    assert_eq!(r2, Reason::Stop);
    assert_eq!(ctx2.stack, vec![w(0)]);
    // SAR on -8 by 1 gives -4.
    let mut b = vec![0x7f];
    b.extend(std::iter::repeat(0xff).take(31));
    b.push(0xf8); // -8
    b.extend([0x60, 0x01, 0x1d, 0x00]); // PUSH1 1, SAR
    let (r3, ctx3) = run(b, 100);
    assert_eq!(r3, Reason::Stop);
    assert_eq!(ctx3.stack, vec![neg(4)]);
}

#[test]
fn signextend_cases() {
    // SIGNEXTEND(0, 0xFF) treats 0xFF as the signed byte -1.
    let (r, ctx) = run(vec![0x60, 0xff, 0x60, 0x00, 0x0b, 0x00], 100);
    assert_eq!(r, Reason::Stop);
    assert_eq!(ctx.stack, vec![neg(1)]);
    // SIGNEXTEND(0, 0x7F) keeps a positive byte as it is.
    let (r2, ctx2) = run(vec![0x60, 0x7f, 0x60, 0x00, 0x0b, 0x00], 100);
    assert_eq!(r2, Reason::Stop);
    assert_eq!(ctx2.stack, vec![w(0x7f)]);
    // An index of 31 or more leaves the word unchanged.
    let (r3, ctx3) = run(vec![0x60, 0xff, 0x60, 0x20, 0x0b, 0x00], 100);
    assert_eq!(r3, Reason::Stop);
    assert_eq!(ctx3.stack, vec![w(0xff)]);
}

#[test]
fn dup_swap_pop() {
    // PUSH1 1, PUSH1 2, SWAP1 -> [2, 1]
    let (r, ctx) = run(vec![0x60, 0x01, 0x60, 0x02, 0x90, 0x00], 100);
    assert_eq!(r, Reason::Stop);
    assert_eq!(ctx.stack, vec![w(2), w(1)]);
    // DUP2 copies the slot under the top.
    let (r2, ctx2) = run(vec![0x60, 0x01, 0x60, 0x02, 0x81, 0x00], 100);
    assert_eq!(r2, Reason::Stop);
    assert_eq!(ctx2.stack, vec![w(1), w(2), w(1)]);
    // POP removes the top.
    let (r3, ctx3) = run(vec![0x60, 0x01, 0x60, 0x02, 0x50, 0x00], 100);
    assert_eq!(r3, Reason::Stop);
    assert_eq!(ctx3.stack, vec![w(1)]);
}

#[test]
fn pc_gas_msize_push0() {
    // PC pushes the instruction's own byte offset.
    let (r, ctx) = run(vec![0x58, 0x58, 0x00], 100);
    assert_eq!(r, Reason::Stop);
    assert_eq!(ctx.stack, vec![w(0), w(1)]);
    // GAS pushes what remains after its own charge.
    let (r2, ctx2) = run(vec![0x5a, 0x00], 10);
    assert_eq!(r2, Reason::Stop);
    assert_eq!(ctx2.stack, vec![w(8)]);
    // MSIZE reports the 32-byte-aligned memory size.
    let (r3, ctx3) = run(vec![0x60, 0x01, 0x60, 0x00, 0x53, 0x59, 0x00], 100);
    assert_eq!(r3, Reason::Stop);
    assert_eq!(ctx3.stack, vec![w(32)]);
    assert_eq!(ctx3.memory[0], 0x01); // MSTORE8 wrote one byte
    // PUSH0 pushes zero under Shanghai and later.
    let (r4, ctx4) = run(vec![0x5f, 0x00], 100);
    assert_eq!(r4, Reason::Stop);
    assert_eq!(ctx4.stack, vec![w(0)]);
}

#[test]
fn jumpi_both_ways() {
    // Condition 1: jump over the INVALID to the JUMPDEST.
    let taken = vec![0x60, 0x01, 0x60, 0x06, 0x57, 0xfe, 0x5b, 0x00];
    let (r, _) = run(taken, 100);
    assert_eq!(r, Reason::Stop);
    // Condition 0: fall through into the INVALID.
    let not_taken = vec![0x60, 0x00, 0x60, 0x06, 0x57, 0xfe, 0x5b, 0x00];
    let (r2, _) = run(not_taken, 100);
    assert_eq!(r2, Reason::InvalidOpcode);
}
