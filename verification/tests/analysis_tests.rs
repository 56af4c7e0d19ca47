use revmc::analysis::{decode, jumpdests};
use revmc::block::blocks;
use revmc::opcode::{lookup, Reason, SpecId};
use revmc::word::{word_add, word_sar, word_sdiv, word_shl, word_shr, Word};

fn w(x: u64) -> Word {
    Word { l0: x, l1: 0, l2: 0, l3: 0 }
}

#[test]
fn decode_skips_and_pads_immediates() {
    // PUSH2 with only one immediate byte left: zero-padded.
    let instrs = decode(&vec![0x61, 0x12]);
    assert_eq!(instrs.len(), 1);
    assert_eq!(instrs[0].offset, 0);
    assert_eq!(instrs[0].op, 0x61);
    assert_eq!(instrs[0].imm, vec![0x12, 0x00]);

    // PUSH1 skips its immediate; the walker resumes after it.
    let instrs2 = decode(&vec![0x60, 0x5b, 0x01]);
    assert_eq!(instrs2.len(), 2);
    assert_eq!(instrs2[1].offset, 2);
    assert_eq!(instrs2[1].op, 0x01);
}

#[test]
fn jumpdest_set_ignores_immediates() {
    // A 0x5B inside a PUSH immediate is no jump destination.
    let flags = jumpdests(&vec![0x60, 0x5b, 0x5b]);
    assert_eq!(flags, vec![false, false, true]);
}

#[test]
fn opcode_lookup_metadata() {
    let add = lookup(0x01).unwrap();
    assert_eq!(add.inputs, 2);
    assert_eq!(add.outputs, 1);
    assert_eq!(add.gas, 3);
    assert_eq!(add.imm, 0);
    assert!(lookup(0xef).is_none());
    let push32 = lookup(0x7f).unwrap();
    assert_eq!(push32.imm, 32);
    let shl = lookup(0x1b).unwrap();
    assert_eq!(shl.since, SpecId::Constantinople);
}

#[test]
fn word_arithmetic_exact_values() {
    assert_eq!(word_add(w(1), w(2)), w(3));
    // Wrapping: max + 1 == 0.
    let max = Word {
        l0: u64::MAX,
        l1: u64::MAX,
        l2: u64::MAX,
        l3: u64::MAX,
    };
    assert_eq!(word_add(max, w(1)), w(0));
    // Shifts move across limbs.
    assert_eq!(word_shl(w(1), w(64)), Word { l0: 0, l1: 1, l2: 0, l3: 0 });
    assert_eq!(word_shr(Word { l0: 0, l1: 1, l2: 0, l3: 0 }, w(64)), w(1));
    // Arithmetic shift keeps the sign: -8 >> 1 == -4.
    let m8 = Word {
        l0: u64::MAX - 7,
        l1: u64::MAX,
        l2: u64::MAX,
        l3: u64::MAX,
    };
    let m4 = Word {
        l0: u64::MAX - 3,
        l1: u64::MAX,
        l2: u64::MAX,
        l3: u64::MAX,
    };
    assert_eq!(word_sar(m8, w(1)), m4);
    // Signed division truncates toward zero: -7 / 2 == -3.
    let m7 = Word {
        l0: u64::MAX - 6,
        l1: u64::MAX,
        l2: u64::MAX,
        l3: u64::MAX,
    };
    let m3 = Word {
        l0: u64::MAX - 2,
        l1: u64::MAX,
        l2: u64::MAX,
        l3: u64::MAX,
    };
    assert_eq!(word_sdiv(m7, w(2)), m3);
}

#[test]
fn call_or_create_reason_distinct() {
    assert_ne!(Reason::CallOrCreate, Reason::Stop);
}

#[test]
fn block_analysis_push_add_stop() {
    let instrs = decode(&vec![0x60, 0x42, 0x60, 0x69, 0x01, 0x00]);
    let bs = blocks(&instrs);
    assert_eq!(bs.len(), 1);
    let b = bs[0];
    assert_eq!((b.start, b.end), (0, 4));
    assert_eq!(b.static_gas, 9);
    assert_eq!(b.min_entry, 0);
    assert_eq!(b.max_growth, 2);
    assert_eq!(b.net, 1);
    assert!(!b.has_dynamic);
    assert_eq!(b.terminator, 0x00);
}

#[test]
fn block_splits_at_jumpdest_and_terminator() {
    let instrs = decode(&vec![0x60, 0x04, 0x56, 0x00, 0x5b, 0x00]);
    let bs = blocks(&instrs);
    assert_eq!(bs.len(), 3);
    assert_eq!((bs[0].start, bs[0].end), (0, 2));
    assert_eq!(bs[0].terminator, 0x56);
    assert_eq!((bs[1].start, bs[1].end), (2, 3));
    assert_eq!((bs[2].start, bs[2].end), (3, 5));
    assert_eq!(bs[2].terminator, 0x00);

    // A bare ADD needs two slots at entry and shrinks the stack.
    let instrs2 = decode(&vec![0x01, 0x00]);
    let bs2 = blocks(&instrs2);
    assert_eq!(bs2[0].min_entry, 2);
    assert_eq!(bs2[0].net, -1);
}

#[test]
fn block_marks_dynamic_gas() {
    // MSTORE carries a dynamic memory-expansion cost.
    let instrs = decode(&vec![0x60, 0x42, 0x60, 0x00, 0x52, 0x00]);
    let bs = blocks(&instrs);
    assert_eq!(bs.len(), 1);
    assert!(bs[0].has_dynamic);
}
