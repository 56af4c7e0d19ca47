//! Bytecode analysis: decoding raw bytes into an indexed instruction
//! sequence, discovering jump destinations, and locating suspension
//! points.  Arbitrary bytes are accepted; a byte that is no opcode
//! still decodes (and later terminates execution as `InvalidOpcode`).

use vstd::prelude::*;
use crate::opcode::{
    spec_imm_len, spec_is_suspend, imm_len, OP_JUMPDEST,
};

verus! {

/// One decoded instruction.
pub ghost struct InstrV {
    /// Byte offset of the opcode in the bytecode.
    pub offset: int,
    pub op: u8,
    /// The immediate, zero-padded to the full declared length when the
    /// bytecode ends inside it.
    pub imm: Seq<u8>,
}

#[derive(Debug)]
pub struct Instr {
    pub offset: usize,
    pub op: u8,
    pub imm: Vec<u8>,
}

impl View for Instr {
    type V = InstrV;

    open spec fn view(&self) -> InstrV {
        InstrV { offset: self.offset as int, op: self.op, imm: self.imm@ }
    }
}

pub open spec fn views(s: Seq<Instr>) -> Seq<InstrV> {
    s.map_values(|x: Instr| x@)
}

/// The immediate of a PUSH at offset `i`: the following `k` bytes,
/// zero-padded past the end of the bytecode.
pub open spec fn imm_of(bytes: Seq<u8>, i: int, k: nat) -> Seq<u8> {
    Seq::new(k, |j: int| if i + 1 + j < bytes.len() { bytes[i + 1 + j] } else { 0u8 })
}

/// Offset of the instruction following the one at offset `i`.
pub open spec fn next_offset(bytes: Seq<u8>, i: int) -> int {
    let k = spec_imm_len(bytes[i]);
    if i + 1 + k > bytes.len() {
        bytes.len() as int
    } else {
        i + 1 + k
    }
}

/// The instruction sequence of `bytes` from offset `i` on: a single
/// left-to-right walk that steps over each PUSH immediate.
pub open spec fn decode_from(bytes: Seq<u8>, i: int) -> Seq<InstrV>
    decreases bytes.len() - i,
{
    if i < 0 || i >= bytes.len() {
        Seq::empty()
    } else {
        seq![
            InstrV { offset: i, op: bytes[i], imm: imm_of(bytes, i, spec_imm_len(bytes[i])) },
        ] + decode_from(bytes, next_offset(bytes, i))
    }
}

/// Whether offset `o` is on an instruction boundary, given that `i` is:
/// the walk from `i` lands exactly on `o`.  Offsets in `[0, len)` that
/// are not boundaries of the walk from 0 are exactly the bytes inside
/// some PUSH immediate.
pub open spec fn boundary_from(bytes: Seq<u8>, i: int, o: int) -> bool
    decreases o - i,
{
    if i >= o {
        i == o
    } else if i >= bytes.len() {
        false
    } else if next_offset(bytes, i) > o {
        false
    } else {
        boundary_from(bytes, next_offset(bytes, i), o)
    }
}

/// A legal target of a dynamic jump: a JUMPDEST byte on an instruction
/// boundary.
pub open spec fn valid_jumpdest(bytes: Seq<u8>, o: int) -> bool {
    0 <= o < bytes.len() && bytes[o] == OP_JUMPDEST && boundary_from(bytes, 0, o)
}

/// Walking on from a boundary reaches the same boundaries beyond it.
pub proof fn lemma_boundary_trans(bytes: Seq<u8>, a: int, b: int, o: int)
    requires
        boundary_from(bytes, a, b),
        b <= o,
    ensures
        boundary_from(bytes, a, o) == boundary_from(bytes, b, o),
    decreases b - a,
{
    if a < b {
        let nx = next_offset(bytes, a);
        assert(boundary_from(bytes, nx, b));
        lemma_boundary_trans(bytes, nx, b, o);
    }
}

/// Every decoded instruction sits on a boundary of the walk, inside the
/// bytecode, and carries the byte and immediate found there.
pub proof fn lemma_decode_wf(bytes: Seq<u8>, i: int)
    requires
        0 <= i,
    ensures
        forall|j: int| 0 <= j < decode_from(bytes, i).len() ==> {
            let ins = #[trigger] decode_from(bytes, i)[j];
            &&& i <= ins.offset < bytes.len()
            &&& ins.op == bytes[ins.offset]
            &&& ins.imm == imm_of(bytes, ins.offset, spec_imm_len(ins.op))
            &&& boundary_from(bytes, i, ins.offset)
        },
    decreases bytes.len() - i,
{
    if i < bytes.len() {
        let nx = next_offset(bytes, i);
        lemma_decode_wf(bytes, nx);
        assert forall|j: int| 0 <= j < decode_from(bytes, i).len() implies {
            let ins = #[trigger] decode_from(bytes, i)[j];
            &&& i <= ins.offset < bytes.len()
            &&& ins.op == bytes[ins.offset]
            &&& ins.imm == imm_of(bytes, ins.offset, spec_imm_len(ins.op))
            &&& boundary_from(bytes, i, ins.offset)
        } by {
            if j > 0 {
                let ins = decode_from(bytes, i)[j];
                assert(ins == decode_from(bytes, nx)[j - 1]);
                assert(boundary_from(bytes, nx, nx));
                assert(boundary_from(bytes, i, nx));
                lemma_boundary_trans(bytes, i, nx, ins.offset);
            }
        }
    }
}

/// Decoded offsets are strictly increasing: each offset is distinct.
pub proof fn lemma_decode_increasing(bytes: Seq<u8>, i: int)
    requires
        0 <= i,
    ensures
        forall|j1: int, j2: int|
            0 <= j1 < j2 < decode_from(bytes, i).len() ==> #[trigger] decode_from(
                bytes,
                i,
            )[j1].offset < #[trigger] decode_from(bytes, i)[j2].offset,
    decreases bytes.len() - i,
{
    if i < bytes.len() {
        let nx = next_offset(bytes, i);
        lemma_decode_increasing(bytes, nx);
        lemma_decode_wf(bytes, nx);
        assert forall|j1: int, j2: int|
            0 <= j1 < j2 < decode_from(bytes, i).len() implies #[trigger] decode_from(
            bytes,
            i,
        )[j1].offset < #[trigger] decode_from(bytes, i)[j2].offset by {
            if j1 == 0 {
                assert(decode_from(bytes, i)[j2] == decode_from(bytes, nx)[j2 - 1]);
            } else {
                assert(decode_from(bytes, i)[j1] == decode_from(bytes, nx)[j1 - 1]);
                assert(decode_from(bytes, i)[j2] == decode_from(bytes, nx)[j2 - 1]);
            }
        }
    }
}

/// Every boundary inside the bytecode is the offset of a decoded
/// instruction.
pub proof fn lemma_boundary_instr(bytes: Seq<u8>, i: int, o: int)
    requires
        0 <= i <= o < bytes.len(),
        boundary_from(bytes, i, o),
    ensures
        exists|j: int|
            0 <= j < decode_from(bytes, i).len() && #[trigger] decode_from(bytes, i)[j].offset
                == o,
    decreases o - i,
{
    if i == o {
        assert(decode_from(bytes, i)[0].offset == o);
    } else {
        let nx = next_offset(bytes, i);
        if nx > o {
            assert(!boundary_from(bytes, nx, o));
        }
        lemma_boundary_instr(bytes, nx, o);
        let j = choose|j: int|
            0 <= j < decode_from(bytes, nx).len() && #[trigger] decode_from(bytes, nx)[j].offset
                == o;
        assert(decode_from(bytes, i)[j + 1].offset == o);
    }
}

/// Offset `o` lies inside the immediate of an earlier PUSH: some
/// instruction boundary `b` before it carries an immediate whose span
/// covers `o`.
pub open spec fn inside_push_imm(bytes: Seq<u8>, o: int) -> bool {
    exists|b: int|
        0 <= b < o && #[trigger] boundary_from(bytes, 0, b) && o <= b + spec_imm_len(bytes[b])
}

proof fn lemma_boundary_vs_push_imm_from(bytes: Seq<u8>, i: int, o: int)
    requires
        0 <= i <= o < bytes.len(),
        boundary_from(bytes, 0, i),
    ensures
        boundary_from(bytes, i, o) <==> !(exists|b: int|
            i <= b < o && #[trigger] boundary_from(bytes, 0, b) && o <= b + spec_imm_len(
                bytes[b],
            )),
    decreases o - i,
{
    if i == o {
    } else {
        let nx = next_offset(bytes, i);
        assert(boundary_from(bytes, nx, nx));
        assert(boundary_from(bytes, i, nx));
        lemma_boundary_trans(bytes, 0, i, nx);
        if nx > o {
            assert(!boundary_from(bytes, i, o));
            assert(o <= i + spec_imm_len(bytes[i]));
            assert(i <= i < o && boundary_from(bytes, 0, i) && o <= i + spec_imm_len(bytes[i]));
        } else {
            lemma_boundary_vs_push_imm_from(bytes, nx, o);
            assert forall|b: int| i <= b < nx implies !(#[trigger] boundary_from(bytes, 0, b)
                && o <= b + spec_imm_len(bytes[b])) by {
                if i < b < nx {
                    assert(!boundary_from(bytes, i, b));
                    lemma_boundary_trans(bytes, 0, i, b);
                }
                if b == i {
                    assert(o >= nx);
                }
            }
        }
    }
}

/// Jumpdest discipline, in the scan's own terms: inside the bytecode,
/// the offsets that are no instruction boundary are exactly the bytes
/// inside some PUSH immediate.
pub proof fn lemma_boundary_vs_push_imm(bytes: Seq<u8>, o: int)
    requires
        0 <= o < bytes.len(),
    ensures
        boundary_from(bytes, 0, o) <==> !inside_push_imm(bytes, o),
{
    lemma_boundary_vs_push_imm_from(bytes, 0, o);
}

/// The analyzer's jumpdest set contains exactly the offsets whose byte
/// is the JUMPDEST opcode and which are not inside a PUSH immediate.
pub proof fn jumpdest_discipline(bytes: Seq<u8>, o: int)
    requires
        0 <= o < bytes.len(),
    ensures
        valid_jumpdest(bytes, o) <==> (bytes[o] == OP_JUMPDEST && !inside_push_imm(bytes, o)),
{
    lemma_boundary_vs_push_imm(bytes, o);
}

/// Number of suspension points among the first `upto` instructions.
pub open spec fn susp_count(code: Seq<InstrV>, upto: int) -> nat
    decreases upto,
{
    if upto <= 0 || upto > code.len() {
        0
    } else {
        susp_count(code, upto - 1) + if spec_is_suspend(code[upto - 1].op) {
            1nat
        } else {
            0nat
        }
    }
}

/// Instruction index of the `k`-th (0-based) suspension point.
pub open spec fn susp_at(code: Seq<InstrV>, k: nat) -> int {
    choose|j: int|
        0 <= j < code.len() && spec_is_suspend(code[j].op) && susp_count(code, j) == k
}

pub proof fn lemma_susp_count_mono(code: Seq<InstrV>, a: int, b: int)
    requires
        a <= b <= code.len(),
    ensures
        susp_count(code, a) <= susp_count(code, b),
    decreases b,
{
    if a < b && b > 0 {
        lemma_susp_count_mono(code, a, b - 1);
    }
}

pub proof fn lemma_susp_count_bound(code: Seq<InstrV>, i: int)
    ensures
        susp_count(code, i) <= if i < 0 {
            0int
        } else {
            i
        },
    decreases i,
{
    if 0 < i <= code.len() {
        lemma_susp_count_bound(code, i - 1);
    }
}

/// Suspension points are determined by their ordinal: two distinct
/// suspension indices have distinct counts.
pub proof fn lemma_susp_unique(code: Seq<InstrV>, j1: int, j2: int)
    requires
        0 <= j1 < j2 < code.len(),
        spec_is_suspend(code[j1].op),
    ensures
        susp_count(code, j1) < susp_count(code, j2),
{
    lemma_susp_count_mono(code, j1 + 1, j2);
}

/// Decodes bytecode into its instruction sequence: a single
/// left-to-right walk that skips over PUSH immediates and zero-pads a
/// trailing partial immediate.
pub fn decode(bytes: &Vec<u8>) -> (r: Vec<Instr>)
    ensures
        views(r@) == decode_from(bytes@, 0),
        r@.len() <= bytes@.len(),
{
    let n = bytes.len();
    let mut out: Vec<Instr> = Vec::new();
    let mut i: usize = 0;
    while i < n
        invariant
            i <= n,
            n == bytes@.len(),
            out@.len() <= i,
            decode_from(bytes@, 0) == views(out@) + decode_from(bytes@, i as int),
        decreases n - i,
    {
        let op = bytes[i];
        let k = imm_len(op);
        let avail = n - i - 1;
        let mut imm: Vec<u8> = Vec::new();
        let mut j: usize = 0;
        while j < k
            invariant
                j <= k,
                k == spec_imm_len(op),
                i < n,
                n == bytes@.len(),
                avail == n - i - 1,
                imm@.len() == j,
                forall|t: int|
                    0 <= t < j ==> imm@[t] == imm_of(bytes@, i as int, k as nat)[t],
            decreases k - j,
        {
            if j < avail {
                imm.push(bytes[i + 1 + j]);
            } else {
                imm.push(0);
            }
            j += 1;
        }
        proof {
            assert(imm@ =~= imm_of(bytes@, i as int, spec_imm_len(op)));
        }
        let ghost prev = out@;
        let ins = Instr { offset: i, op, imm };
        out.push(ins);
        proof {
            assert(views(out@) =~= views(prev) + seq![ins@]);
            assert(decode_from(bytes@, 0) =~= views(out@) + decode_from(
                bytes@,
                next_offset(bytes@, i as int),
            ));
        }
        i = if avail < k {
            n
        } else {
            i + 1 + k
        };
    }
    out
}

/// One flag per byte offset: whether it is a legal dynamic-jump target.
/// A byte is one exactly when it is the JUMPDEST opcode and does not
/// lie inside the immediate of an earlier PUSH (one left-to-right
/// scan).
pub fn jumpdests(bytes: &Vec<u8>) -> (r: Vec<bool>)
    ensures
        r@.len() == bytes@.len(),
        forall|o: int| 0 <= o < bytes@.len() ==> r@[o] == valid_jumpdest(bytes@, o),
{
    let n = bytes.len();
    let mut r: Vec<bool> = Vec::new();
    while r.len() < n
        invariant
            r@.len() <= n,
            forall|o: int| 0 <= o < r@.len() ==> r@[o] == false,
        decreases n - r.len(),
    {
        r.push(false);
    }
    let mut i: usize = 0;
    while i < n
        invariant
            i <= n,
            n == bytes@.len(),
            r@.len() == n,
            boundary_from(bytes@, 0, i as int),
            forall|o: int|
                0 <= o < n ==> r@[o] == (bytes@[o] == OP_JUMPDEST && boundary_from(bytes@, 0, o)
                    && o < i),
            forall|o: int|
                i <= o < n ==> boundary_from(bytes@, 0, o) == boundary_from(bytes@, i as int, o),
        decreases n - i,
    {
        if bytes[i] == OP_JUMPDEST {
            r[i] = true;
        }
        let k = imm_len(bytes[i]);
        let avail = n - i - 1;
        let nx: usize = if avail < k {
            n
        } else {
            i + 1 + k
        };
        proof {
            assert(nx == next_offset(bytes@, i as int));
            assert(boundary_from(bytes@, nx as int, nx as int));
            assert(boundary_from(bytes@, i as int, nx as int));
            lemma_boundary_trans(bytes@, 0, i as int, nx as int);
            assert forall|o: int| nx <= o < n implies boundary_from(bytes@, 0, o)
                == boundary_from(bytes@, nx as int, o) by {
                lemma_boundary_trans(bytes@, i as int, nx as int, o);
            }
            assert forall|o: int| i < o < nx implies !boundary_from(bytes@, 0, o) by {
                assert(!boundary_from(bytes@, i as int, o));
            }
        }
        i = nx;
    }
    r
}

} // verus!
