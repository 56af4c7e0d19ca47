use revmc::exec::{CompiledCode, Context};
use revmc::opcode::{Reason, SpecId};
use revmc::word::Word;

fn w(x: u64) -> Word {
    Word { l0: x, l1: 0, l2: 0, l3: 0 }
}

fn run(bytes: Vec<u8>, gas: i64) -> (Reason, Context) {
    let code = CompiledCode::compile(&bytes, SpecId::Cancun);
    let mut ctx = Context::new(gas);
    let r = code.call(&mut ctx);
    (r, ctx)
}

#[test]
fn push_add_stop() {
    // 60 42 60 69 01 00 -> Stop, stack [0xAB], gas = limit - (3+3+3)
    let (r, ctx) = run(vec![0x60, 0x42, 0x60, 0x69, 0x01, 0x00], 100);
    assert_eq!(r, Reason::Stop);
    assert_eq!(ctx.stack, vec![w(0xab)]);
    assert_eq!(ctx.gas_remaining, 100 - 9);
}

#[test]
fn resume_across_test_suspend() {
    // 60 42 SUS 60 69 SUS 01 SUS drives CallOrCreate x3 then Stop,
    // resume_at 1,2,3,3 and the stack [42], [42,69], [AB], [AB].
    let bytes = vec![0x60, 0x42, 0x0c, 0x60, 0x69, 0x0c, 0x01, 0x0c];
    let code = CompiledCode::compile(&bytes, SpecId::Cancun);
    let mut ctx = Context::new(1_000);

    assert_eq!(code.call(&mut ctx), Reason::CallOrCreate);
    assert_eq!(ctx.resume_at, 1);
    assert_eq!(ctx.stack, vec![w(0x42)]);

    assert_eq!(code.call(&mut ctx), Reason::CallOrCreate);
    assert_eq!(ctx.resume_at, 2);
    assert_eq!(ctx.stack, vec![w(0x42), w(0x69)]);

    assert_eq!(code.call(&mut ctx), Reason::CallOrCreate);
    assert_eq!(ctx.resume_at, 3);
    assert_eq!(ctx.stack, vec![w(0xab)]);

    assert_eq!(code.call(&mut ctx), Reason::Stop);
    assert_eq!(ctx.resume_at, 3);
    assert_eq!(ctx.stack, vec![w(0xab)]);
}

#[test]
fn stack_underflow_on_replay() {
    // From the final state above, replaying from the ADD with one
    // element left underflows and leaves the stack untouched.
    let bytes = vec![0x60, 0x42, 0x0c, 0x60, 0x69, 0x0c, 0x01, 0x0c];
    let code = CompiledCode::compile(&bytes, SpecId::Cancun);
    let mut ctx = Context::new(1_000);
    for _ in 0..4 {
        code.call(&mut ctx);
    }
    assert_eq!(ctx.stack, vec![w(0xab)]);
    ctx.set_resume_at(2);
    assert_eq!(code.call(&mut ctx), Reason::StackUnderflow);
    assert_eq!(ctx.stack, vec![w(0xab)]);
}

#[test]
fn valid_jump_stops() {
    // 60 04 56 00 5B 00: JUMP to the JUMPDEST at offset 4 -> Stop.
    let (r, _) = run(vec![0x60, 0x04, 0x56, 0x00, 0x5b, 0x00], 100);
    assert_eq!(r, Reason::Stop);
}

#[test]
fn invalid_jump_mid_push() {
    // Offset 5 holds a JUMPDEST byte, but inside a PUSH immediate: the
    // jump must fail.
    let (r, _) = run(vec![0x60, 0x05, 0x56, 0x00, 0x60, 0x5b], 100);
    assert_eq!(r, Reason::InvalidJump);
}

#[test]
fn invalid_jump_to_non_jumpdest() {
    let (r, _) = run(vec![0x60, 0x03, 0x56, 0x00, 0x5b, 0x00], 100);
    assert_eq!(r, Reason::InvalidJump);
}

#[test]
fn sdiv_min_by_minus_one() {
    // SDIV of -2^255 by -1 wraps back to -2^255.
    let mut bytes = vec![0x7f];
    bytes.extend(std::iter::repeat(0xff).take(32)); // -1, pushed first
    bytes.push(0x7f);
    bytes.push(0x80);
    bytes.extend(std::iter::repeat(0x00).take(31)); // -2^255 on top
    bytes.push(0x05); // SDIV: top / next
    bytes.push(0x00);
    let (r, ctx) = run(bytes, 100);
    assert_eq!(r, Reason::Stop);
    assert_eq!(ctx.stack, vec![Word { l0: 0, l1: 0, l2: 0, l3: 0x8000_0000_0000_0000 }]);
}

#[test]
fn memory_expansion_gas() {
    // MSTORE at 0 then at 64: quadratic expansion charges 3 then 6.
    let bytes = vec![
        0x60, 0x42, 0x60, 0x00, 0x52, // MSTORE value 0x42 at 0
        0x60, 0x43, 0x60, 0x40, 0x52, // MSTORE value 0x43 at 64
        0x00,
    ];
    let (r, ctx) = run(bytes, 1_000);
    assert_eq!(r, Reason::Stop);
    // 4 pushes (3 each) + 2 MSTORE bases (3 each) + expansion 3 + 6
    assert_eq!(ctx.gas_remaining, 1_000 - (12 + 6 + 3 + 6));
    assert_eq!(ctx.memory.len(), 96);
}

#[test]
fn mstore_mload_roundtrip() {
    // The stored big-endian word is read back unchanged.
    let bytes = vec![0x60, 0x42, 0x60, 0x00, 0x52, 0x60, 0x00, 0x51, 0x00];
    let (r, ctx) = run(bytes, 1_000);
    assert_eq!(r, Reason::Stop);
    assert_eq!(ctx.stack, vec![w(0x42)]);
    assert_eq!(ctx.memory[31], 0x42);
    assert_eq!(ctx.memory[0], 0x00);
}

#[test]
fn return_copies_memory() {
    let bytes = vec![0x60, 0x42, 0x60, 0x00, 0x52, 0x60, 0x20, 0x60, 0x00, 0xf3];
    let (r, ctx) = run(bytes, 1_000);
    assert_eq!(r, Reason::Return);
    assert_eq!(ctx.output.len(), 32);
    assert_eq!(ctx.output[31], 0x42);
    assert_eq!(ctx.output[30], 0x00);
}

#[test]
fn revert_with_empty_output() {
    let bytes = vec![0x60, 0x00, 0x60, 0x00, 0xfd];
    let (r, ctx) = run(bytes, 1_000);
    assert_eq!(r, Reason::Revert);
    assert_eq!(ctx.output.len(), 0);
}

#[test]
fn out_of_gas() {
    let (r, ctx) = run(vec![0x60, 0x01, 0x60, 0x02, 0x01, 0x00], 4);
    assert_eq!(r, Reason::OutOfGas);
    // The failing PUSH commits nothing: only the first PUSH ran.
    assert_eq!(ctx.stack, vec![w(0x01)]);
    assert_eq!(ctx.gas_remaining, 1);
}

#[test]
fn memory_oog_leaves_stack() {
    // MSTORE at an enormous offset cannot be paid for.
    let mut bytes = vec![0x60, 0x42, 0x7f];
    bytes.extend(std::iter::repeat(0xff).take(32));
    bytes.push(0x52);
    let (r, ctx) = run(bytes, 1_000);
    assert_eq!(r, Reason::MemoryOOG);
    // Dynamic-gas failure commits no stack mutation.
    assert_eq!(ctx.stack.len(), 2);
    assert_eq!(ctx.memory.len(), 0);
}

#[test]
fn stack_overflow_at_limit() {
    // 1025 pushes: the 1025th fails and leaves the 1024 below intact.
    let bytes = vec![0x5f; 1025];
    let (r, ctx) = run(bytes, 1_000_000);
    assert_eq!(r, Reason::StackOverflow);
    assert_eq!(ctx.stack.len(), 1024);
}

#[test]
fn invalid_opcode_and_invalid() {
    let (r, _) = run(vec![0xef], 100);
    assert_eq!(r, Reason::InvalidOpcode);
    let (r2, _) = run(vec![0xfe], 100);
    assert_eq!(r2, Reason::InvalidOpcode);
}

#[test]
fn not_activated_under_old_fork() {
    // PUSH0 exists only from Shanghai on; SHL only from Constantinople.
    let bytes = vec![0x5f, 0x00];
    let code = CompiledCode::compile(&bytes, SpecId::Byzantium);
    let mut ctx = Context::new(100);
    assert_eq!(code.call(&mut ctx), Reason::NotActivated);

    let code2 = CompiledCode::compile(&vec![0x60, 0x01, 0x60, 0x02, 0x1b, 0x00], SpecId::Byzantium);
    let mut ctx2 = Context::new(100);
    assert_eq!(code2.call(&mut ctx2), Reason::NotActivated);
}

#[test]
fn terminal_reason_is_idempotent() {
    let bytes = vec![0x60, 0x42, 0x00];
    let code = CompiledCode::compile(&bytes, SpecId::Cancun);
    let mut ctx = Context::new(100);
    assert_eq!(code.call(&mut ctx), Reason::Stop);
    let gas = ctx.gas_remaining;
    assert_eq!(code.call(&mut ctx), Reason::Stop);
    assert_eq!(ctx.gas_remaining, gas);
    assert_eq!(ctx.stack, vec![w(0x42)]);
}
