//! Bytecode as a sequence of instructions: code is whole when walking it
//! instruction by instruction, each starting with a valid opcode, ends
//! exactly at its end; the positions the walk visits are its boundaries.
//!
//! The lemmas here say how wholeness and boundaries fare when code is
//! appended to, cut, patched in an operand, or rewritten.

use crate::bytecode::{lemma_opcode_byte_roundtrip, opcode_byte, opcode_of_byte, spec_operand_width, OpCode, OPCODE_COUNT};
use crate::codegen::{rewritten_from, well_formed_from};
use vstd::prelude::*;

verus! {

/// The number of bytes of the instruction whose opcode byte is `b`.
pub open spec fn instruction_size(b: u8) -> nat {
    1 + spec_operand_width(opcode_of_byte(b))
}

/// Walking the instructions of `code` from `i` ends exactly at its end, and
/// every instruction on the way starts with a valid opcode byte.
pub open spec fn whole_from(code: Seq<u8>, i: nat) -> bool
    decreases if i <= code.len() { code.len() - i } else { 0 },
{
    if i >= code.len() {
        i == code.len()
    } else if code[i as int] >= OPCODE_COUNT {
        false
    } else {
        whole_from(code, i + instruction_size(code[i as int]))
    }
}

/// `code` is a sequence of complete instructions.
pub open spec fn is_whole(code: Seq<u8>) -> bool {
    whole_from(code, 0)
}

/// Walking the instructions of `code` from `i` reaches position `p`.
pub open spec fn boundary_from(code: Seq<u8>, i: nat, p: nat) -> bool
    decreases if i <= p { p - i } else { 0 },
{
    if i == p {
        true
    } else if i > p || i >= code.len() || code[i as int] >= OPCODE_COUNT {
        false
    } else {
        boundary_from(code, i + instruction_size(code[i as int]), p)
    }
}

/// An instruction of `code` starts at `p`.
pub open spec fn is_boundary(code: Seq<u8>, p: nat) -> bool {
    boundary_from(code, 0, p)
}

/// The code `new` keeps what the code `old` was: at least as long, with every
/// boundary of `old` (its end included) a boundary of `new`, and the same
/// opcode at each of them.
pub open spec fn keeps(old: Seq<u8>, new: Seq<u8>) -> bool {
    &&& new.len() >= old.len()
    &&& forall|p: nat| p <= old.len() && #[trigger] is_boundary(old, p) ==> is_boundary(new, p)
    &&& forall|p: nat| p < old.len() && #[trigger] is_boundary(old, p) ==> new[p as int] == old[p as int]
}

/// A forward jump, or another instruction with a two-byte operand that is
/// not a loop, starts just before `operand_index`, with its operand inside
/// the code.
pub open spec fn jump_at(code: Seq<u8>, operand_index: int) -> bool {
    &&& 1 <= operand_index
    &&& operand_index + 2 <= code.len()
    &&& is_boundary(code, (operand_index - 1) as nat)
    &&& instruction_size(code[operand_index - 1]) == 3
    &&& opcode_of_byte(code[operand_index - 1]) != OpCode::OpLoop
}

/// A single instruction is whole.
pub proof fn lemma_instruction_whole(op: OpCode, operands: Seq<u8>)
    requires
        operands.len() == spec_operand_width(op),
    ensures
        is_whole(seq![opcode_byte(op)] + operands),
{
    lemma_opcode_byte_roundtrip(op);
    let code = seq![opcode_byte(op)] + operands;
    assert(code[0] == opcode_byte(op));
    assert(whole_from(code, code.len()));
}

/// Whole code is walked without meeting an invalid opcode.
pub proof fn lemma_whole_well_formed(code: Seq<u8>, i: nat)
    requires
        whole_from(code, i),
    ensures
        well_formed_from(code, i),
    decreases if i <= code.len() { code.len() - i } else { 0 },
{
    if i < code.len() {
        lemma_whole_well_formed(code, i + instruction_size(code[i as int]));
    }
}

/// Walking `a + b` from inside `b` is walking `b`.
pub proof fn lemma_shift(a: Seq<u8>, b: Seq<u8>, j: nat)
    ensures
        whole_from(a + b, a.len() + j) == whole_from(b, j),
    decreases if j <= b.len() { b.len() - j } else { 0 },
{
    let c = a + b;
    if j < b.len() {
        assert(c[(a.len() + j) as int] == b[j as int]);
        lemma_shift(a, b, j + instruction_size(b[j as int]));
    }
}

/// Boundaries of `a + b` past `a` are those of `b`, shifted.
pub proof fn lemma_shift_boundary(a: Seq<u8>, b: Seq<u8>, j: nat, q: nat)
    ensures
        boundary_from(a + b, a.len() + j, a.len() + q) == boundary_from(b, j, q),
    decreases if j <= q { q - j } else { 0 },
{
    let c = a + b;
    if j < q && j < b.len() {
        assert(c[(a.len() + j) as int] == b[j as int]);
        lemma_shift_boundary(a, b, j + instruction_size(b[j as int]), q);
    }
}

/// A boundary of `a` is one of `a + b`.
pub proof fn lemma_extend_boundary(a: Seq<u8>, b: Seq<u8>, i: nat, p: nat)
    requires
        boundary_from(a, i, p),
        p <= a.len(),
    ensures
        boundary_from(a + b, i, p),
    decreases if i <= p { p - i } else { 0 },
{
    if i < p {
        assert((a + b)[i as int] == a[i as int]);
        lemma_extend_boundary(a, b, i + instruction_size(a[i as int]), p);
    }
}

/// The end of whole code is a boundary.
pub proof fn lemma_end_boundary(code: Seq<u8>, i: nat)
    requires
        whole_from(code, i),
    ensures
        boundary_from(code, i, code.len()),
    decreases if i <= code.len() { code.len() - i } else { 0 },
{
    if i < code.len() {
        lemma_end_boundary(code, i + instruction_size(code[i as int]));
    }
}

/// Whole code stays whole from each of its boundaries.
pub proof fn lemma_whole_after(code: Seq<u8>, i: nat, p: nat)
    requires
        whole_from(code, i),
        boundary_from(code, i, p),
    ensures
        whole_from(code, p),
    decreases if i <= p { p - i } else { 0 },
{
    if i < p {
        lemma_whole_after(code, i + instruction_size(code[i as int]), p);
    }
}

/// Whole code followed by whole code is whole.
pub proof fn lemma_concat(a: Seq<u8>, b: Seq<u8>, i: nat)
    requires
        whole_from(a, i),
        is_whole(b),
    ensures
        whole_from(a + b, i),
    decreases if i <= a.len() { a.len() - i } else { 0 },
{
    if i < a.len() {
        assert((a + b)[i as int] == a[i as int]);
        lemma_concat(a, b, i + instruction_size(a[i as int]));
    } else {
        lemma_shift(a, b, 0);
    }
}

/// Appending whole code keeps what the code was, and the result is whole.
pub proof fn lemma_append_keeps(a: Seq<u8>, b: Seq<u8>)
    requires
        is_whole(a),
        is_whole(b),
    ensures
        is_whole(a + b),
        keeps(a, a + b),
        is_boundary(a + b, a.len()),
{
    lemma_concat(a, b, 0);
    lemma_end_boundary(a, 0);
    lemma_extend_boundary(a, b, 0, a.len());
    assert forall|p: nat| p <= a.len() && #[trigger] is_boundary(a, p) implies is_boundary(a + b, p) by {
        lemma_extend_boundary(a, b, 0, p);
    }
}

/// The code up to a boundary is whole, with the same boundaries below it.
pub proof fn lemma_prefix(code: Seq<u8>, i: nat, s: nat)
    requires
        boundary_from(code, i, s),
        s <= code.len(),
    ensures
        whole_from(code.subrange(0, s as int), i),
    decreases if i <= s { s - i } else { 0 },
{
    let pre = code.subrange(0, s as int);
    if i < s {
        assert(pre[i as int] == code[i as int]);
        lemma_prefix(code, i + instruction_size(code[i as int]), s);
    }
}

/// A boundary below a cut is a boundary of the code up to the cut.
pub proof fn lemma_prefix_boundary(code: Seq<u8>, i: nat, s: nat, p: nat)
    requires
        boundary_from(code, i, p),
        p <= s <= code.len(),
    ensures
        boundary_from(code.subrange(0, s as int), i, p),
    decreases if i <= p { p - i } else { 0 },
{
    let pre = code.subrange(0, s as int);
    if i < p {
        assert(pre[i as int] == code[i as int]);
        lemma_prefix_boundary(code, i + instruction_size(code[i as int]), s, p);
    }
}

/// Cutting whole code at a boundary gives two whole pieces, and the first
/// keeps the boundaries below the cut.
pub proof fn lemma_split(code: Seq<u8>, s: nat)
    requires
        is_whole(code),
        is_boundary(code, s),
        s <= code.len(),
    ensures
        is_whole(code.subrange(0, s as int)),
        is_whole(code.subrange(s as int, code.len() as int)),
        forall|p: nat| p <= s && #[trigger] is_boundary(code, p) ==> is_boundary(code.subrange(0, s as int), p),
{
    let pre = code.subrange(0, s as int);
    let post = code.subrange(s as int, code.len() as int);
    lemma_prefix(code, 0, s);
    lemma_whole_after(code, 0, s);
    assert(code =~= pre + post);
    lemma_shift(pre, post, 0);
    assert forall|p: nat| p <= s && #[trigger] is_boundary(code, p) implies is_boundary(pre, p) by {
        lemma_prefix_boundary(code, 0, s, p);
    }
}

/// Two codes of the same length that agree from `j` on are walked alike
/// from `j`.
pub proof fn lemma_frame(c1: Seq<u8>, c2: Seq<u8>, j: nat)
    requires
        c1.len() == c2.len(),
        forall|k: int| j <= k < c1.len() ==> c1[k] == c2[k],
    ensures
        whole_from(c1, j) == whole_from(c2, j),
    decreases if j <= c1.len() { c1.len() - j } else { 0 },
{
    if j < c1.len() {
        lemma_frame(c1, c2, j + instruction_size(c1[j as int]));
    }
}

/// Two codes of the same length that agree from `j` on have the same
/// boundaries from `j`.
pub proof fn lemma_frame_boundary(c1: Seq<u8>, c2: Seq<u8>, j: nat, q: nat)
    requires
        c1.len() == c2.len(),
        forall|k: int| j <= k < c1.len() ==> c1[k] == c2[k],
    ensures
        boundary_from(c1, j, q) == boundary_from(c2, j, q),
    decreases if j <= q { q - j } else { 0 },
{
    if j < q && j < c1.len() {
        lemma_frame_boundary(c1, c2, j + instruction_size(c1[j as int]), q);
    }
}

/// Two boundaries are at least an instruction apart: the one at `p` is
/// followed by no other before `p` plus the instruction's size.
pub proof fn lemma_boundary_gap(code: Seq<u8>, i: nat, p: nat, q: nat)
    requires
        boundary_from(code, i, p),
        boundary_from(code, i, q),
        p < q,
        p < code.len(),
    ensures
        q >= p + instruction_size(code[p as int]),
    decreases if i <= p { p - i } else { 0 },
{
    if i < p {
        lemma_boundary_gap(code, i + instruction_size(code[i as int]), p, q);
    } else {
        assert(boundary_from(code, p + instruction_size(code[p as int]), q));
    }
}

/// Writing the two operand bytes of the instruction at boundary `p` keeps
/// the code whole and its boundaries, with their opcodes, unchanged.
pub proof fn lemma_patch(code: Seq<u8>, i: nat, p: nat, x: u8, y: u8)
    requires
        whole_from(code, i),
        boundary_from(code, i, p),
        p < code.len(),
        instruction_size(code[p as int]) == 3,
    ensures
        whole_from(code.update(p + 1int, x).update(p + 2int, y), i),
        forall|q: nat|
            #[trigger] boundary_from(code, i, q) ==> boundary_from(code.update(p + 1int, x).update(p + 2int, y), i, q),
    decreases if i <= p { p - i } else { 0 },
{
    let patched = code.update(p + 1int, x).update(p + 2int, y);
    lemma_whole_after(code, i, p);
    assert(whole_from(code, p + 3));
    assert(p + 3 <= code.len());
    if i == p {
        lemma_frame(code, patched, p + 3);
        assert forall|q: nat| #[trigger] boundary_from(code, i, q) implies boundary_from(patched, i, q) by {
            if q != p {
                lemma_frame_boundary(code, patched, p + 3, q);
            }
        }
    } else {
        assert(patched[i as int] == code[i as int]);
        lemma_patch(code, i + instruction_size(code[i as int]), p, x, y);
        assert forall|q: nat| #[trigger] boundary_from(code, i, q) implies boundary_from(patched, i, q) by {
            if q != i {
                assert(boundary_from(code, i + instruction_size(code[i as int]), q));
            }
        }
    }
}

/// Patching the operand of a jump keeps what the code was, and its
/// wholeness.
pub proof fn lemma_patch_keeps(code: Seq<u8>, operand_index: int, x: u8, y: u8)
    requires
        is_whole(code),
        jump_at(code, operand_index),
    ensures
        is_whole(code.update(operand_index, x).update(operand_index + 1, y)),
        keeps(code, code.update(operand_index, x).update(operand_index + 1, y)),
{
    let p = (operand_index - 1) as nat;
    let patched = code.update(operand_index, x).update(operand_index + 1, y);
    lemma_patch(code, 0, p, x, y);
    lemma_end_boundary(code, 0);
    assert forall|q: nat| q < code.len() && #[trigger] is_boundary(code, q) implies patched[q as int] == code[q as int] by {
        if q > p {
            lemma_boundary_gap(code, 0, p, q);
        } else if q < p {
            lemma_boundary_gap(code, 0, q, p);
        }
    }
}

/// Rewriting global accesses into local ones keeps code whole.
pub proof fn lemma_rewrite_whole(code: Seq<u8>, targets: Seq<usize>, slot: u8, i: nat)
    requires
        whole_from(code, i),
    ensures
        whole_from(rewritten_from(code, targets, slot, i), i),
    decreases if i <= code.len() { code.len() - i } else { 0 },
{
    if i < code.len() {
        let op = opcode_of_byte(code[i as int]);
        let hit = i + 1 < code.len() && targets.contains(code[(i + 1) as int] as usize);
        lemma_opcode_byte_roundtrip(OpCode::OpGetLocal);
        lemma_opcode_byte_roundtrip(OpCode::OpSetLocal);
        if op == OpCode::OpGetGlobal || op == OpCode::OpSetGlobal {
            let local = if op == OpCode::OpGetGlobal {
                opcode_byte(OpCode::OpGetLocal)
            } else {
                opcode_byte(OpCode::OpSetLocal)
            };
            let next = if hit {
                code.update(i as int, local).update((i + 1) as int, slot)
            } else {
                code
            };
            lemma_frame(code, next, i + 2);
            lemma_rewrite_whole(next, targets, slot, i + 2);
            let r = rewritten_from(next, targets, slot, i + 2);
            crate::codegen::lemma_rewrite_keeps_prefix(next, targets, slot, i + 2);
            assert(r[i as int] == next[i as int]);
            assert(r == rewritten_from(code, targets, slot, i));
        } else {
            let j = i + instruction_size(code[i as int]);
            lemma_rewrite_whole(code, targets, slot, j);
            crate::codegen::lemma_rewrite_keeps_prefix(code, targets, slot, j);
            let r = rewritten_from(code, targets, slot, j);
            assert(r[i as int] == code[i as int]);
        }
    }
}

} // verus!
