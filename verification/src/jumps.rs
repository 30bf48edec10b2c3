//! Where jumps land: the jumps of whole code lead to instruction starts, and
//! appending, cutting at a position that no jump crosses, patching a forward
//! jump to the end, and rewriting global accesses keep it so.

use crate::bytecode::{lemma_opcode_byte_roundtrip, opcode_byte, opcode_of_byte, spec_operand_width, OpCode, OPCODE_COUNT};
use crate::codegen::{decode_u16, rewritten_from};
use crate::walk::{
    boundary_from, instruction_size, is_boundary, is_whole, lemma_end_boundary,
    lemma_extend_boundary, lemma_frame, lemma_frame_boundary, lemma_prefix_boundary,
    lemma_shift_boundary, lemma_split, lemma_whole_after, whole_from, lemma_boundary_gap,
};
use vstd::prelude::*;

verus! {

/// Whether `b` encodes an instruction that jumps by its two-byte operand.
pub open spec fn is_jump(b: u8) -> bool {
    &&& b < OPCODE_COUNT
    &&& {
        let op = opcode_of_byte(b);
        op == OpCode::OpJump || op == OpCode::OpJumpIfFalse || op == OpCode::OpIterNext || op
            == OpCode::OpLoop
    }
}

/// Where the jump at `p` leads, counted from the end of its operand: back
/// for a loop, forward otherwise.
pub open spec fn jump_target(code: Seq<u8>, p: int) -> int {
    if opcode_of_byte(code[p]) == OpCode::OpLoop {
        p + 3 - decode_u16(code, p + 1)
    } else {
        p + 3 + decode_u16(code, p + 1)
    }
}

/// Every jump that starts an instruction of `code` leads to an instruction
/// start, the end of the code included.
pub open spec fn jumps_land(code: Seq<u8>) -> bool {
    forall|p: nat|
        #[trigger] is_boundary(code, p) && p < code.len() && is_jump(code[p as int]) ==> 0
            <= jump_target(code, p as int) && is_boundary(code, jump_target(code, p as int) as nat)
}

/// No jump starting before `s` leads past `s`, and none starting at or after
/// `s` leads before it.
pub open spec fn no_jump_crosses(code: Seq<u8>, s: nat) -> bool {
    forall|p: nat|
        #[trigger] is_boundary(code, p) && p < code.len() && is_jump(code[p as int]) ==> (p < s
            ==> jump_target(code, p as int) <= s) && (p >= s ==> jump_target(code, p as int) >= s)
}

/// A boundary of whole code lies within it, its end included.
pub proof fn lemma_boundary_within(code: Seq<u8>, i: nat, p: nat)
    requires
        boundary_from(code, i, p),
        whole_from(code, i),
    ensures
        p <= code.len(),
    decreases if i <= p { p - i } else { 0 },
{
    if i < p {
        lemma_boundary_within(code, i + instruction_size(code[i as int]), p);
    }
}

/// Walking from `i`, the walk passes a boundary `s` before any later one.
pub proof fn lemma_walk_through(code: Seq<u8>, i: nat, s: nat, p: nat)
    requires
        boundary_from(code, i, s),
        boundary_from(code, i, p),
        s <= p,
    ensures
        boundary_from(code, s, p),
    decreases if i <= s { s - i } else { 0 },
{
    if i < s {
        lemma_walk_through(code, i + instruction_size(code[i as int]), s, p);
    }
}

/// Walking from `i` to `s` and on from `s` to `p` walks from `i` to `p`.
pub proof fn lemma_walk_join(code: Seq<u8>, i: nat, s: nat, p: nat)
    requires
        boundary_from(code, i, s),
        boundary_from(code, s, p),
    ensures
        boundary_from(code, i, p),
    decreases if i <= s { s - i } else { 0 },
{
    if i < s {
        lemma_walk_join(code, i + instruction_size(code[i as int]), s, p);
    }
}

/// A boundary of `a + b` within `a` is a boundary of `a`.
pub proof fn lemma_boundary_in_prefix(a: Seq<u8>, b: Seq<u8>, i: nat, p: nat)
    requires
        boundary_from(a + b, i, p),
        p <= a.len(),
    ensures
        boundary_from(a, i, p),
    decreases if i <= p { p - i } else { 0 },
{
    if i < p {
        assert((a + b)[i as int] == a[i as int]);
        lemma_boundary_in_prefix(a, b, i + instruction_size(a[i as int]), p);
    }
}

/// A boundary of `a + b` past whole `a` is a boundary of `b`, shifted.
pub proof fn lemma_boundary_in_suffix(a: Seq<u8>, b: Seq<u8>, p: nat)
    requires
        is_whole(a),
        is_boundary(a + b, p),
        p >= a.len(),
    ensures
        is_boundary(b, (p - a.len()) as nat),
{
    lemma_end_boundary(a, 0);
    lemma_extend_boundary(a, b, 0, a.len());
    lemma_walk_through(a + b, 0, a.len(), p);
    lemma_shift_boundary(a, b, 0, (p - a.len()) as nat);
}

/// A boundary of `b` is, shifted past whole `a`, a boundary of `a + b`.
pub proof fn lemma_boundary_from_suffix(a: Seq<u8>, b: Seq<u8>, q: nat)
    requires
        is_whole(a),
        is_boundary(b, q),
    ensures
        is_boundary(a + b, a.len() + q),
{
    lemma_end_boundary(a, 0);
    lemma_extend_boundary(a, b, 0, a.len());
    lemma_shift_boundary(a, b, 0, q);
    lemma_walk_join(a + b, 0, a.len(), a.len() + q);
}

/// The jumps of whole `a` still land in `a + b`.
pub proof fn lemma_old_jumps(a: Seq<u8>, b: Seq<u8>, p: nat)
    requires
        is_whole(a),
        jumps_land(a),
        is_boundary(a + b, p),
        p < a.len(),
        is_jump((a + b)[p as int]),
    ensures
        jump_target(a + b, p as int) == jump_target(a, p as int),
        0 <= jump_target(a + b, p as int) <= a.len(),
        is_boundary(a, jump_target(a, p as int) as nat),
        is_boundary(a + b, jump_target(a + b, p as int) as nat),
{
    let c = a + b;
    lemma_boundary_in_prefix(a, b, 0, p);
    assert(is_boundary(a, p));
    assert(c[p as int] == a[p as int]);
    lemma_whole_after(a, 0, p);
    assert(whole_from(a, p + 3));
    assert(c[p + 1int] == a[p + 1int]);
    assert(c[p + 2int] == a[p + 2int]);
    let t = jump_target(a, p as int);
    lemma_boundary_within(a, 0, t as nat);
    lemma_extend_boundary(a, b, 0, t as nat);
}

/// The jumps of whole `b` that land in `b` still land, shifted, in `a + b`.
pub proof fn lemma_new_jumps(a: Seq<u8>, b: Seq<u8>, p: nat)
    requires
        is_whole(a),
        is_whole(b),
        jumps_land(b),
        is_boundary(a + b, p),
        p >= a.len(),
        p < a.len() + b.len(),
        is_jump((a + b)[p as int]),
    ensures
        jump_target(a + b, p as int) == a.len() + jump_target(b, p - a.len()),
        jump_target(a + b, p as int) >= a.len(),
        is_boundary(a + b, jump_target(a + b, p as int) as nat),
{
    let c = a + b;
    let q = (p - a.len()) as nat;
    lemma_boundary_in_suffix(a, b, p);
    assert(c[p as int] == b[q as int]);
    assert(is_boundary(b, q));
    assert(is_jump(b[q as int]));
    let t = jump_target(b, q as int);
    assert(is_boundary(b, t as nat));
    lemma_whole_after(b, 0, q);
    assert(whole_from(b, q + 3));
    assert(c[p + 1int] == b[q + 1int]);
    assert(c[p + 2int] == b[q + 2int]);
    lemma_boundary_from_suffix(a, b, t as nat);
}

/// Whole code with landing jumps followed by the same stays so, and no jump
/// crosses the seam.
pub proof fn lemma_append_jumps(a: Seq<u8>, b: Seq<u8>)
    requires
        is_whole(a),
        is_whole(b),
        jumps_land(a),
        jumps_land(b),
    ensures
        jumps_land(a + b),
        no_jump_crosses(a + b, a.len()),
{
    let c = a + b;
    assert forall|p: nat| #[trigger] is_boundary(c, p) && p < c.len() && is_jump(c[p as int]) implies 0
        <= jump_target(c, p as int) && is_boundary(c, jump_target(c, p as int) as nat) && (p < a.len()
        ==> jump_target(c, p as int) <= a.len()) && (p >= a.len() ==> jump_target(c, p as int)
        >= a.len()) by {
        if p < a.len() {
            lemma_old_jumps(a, b, p);
        } else {
            lemma_new_jumps(a, b, p);
        }
    }
}

/// A single instruction that does not jump, or jumps with a zero offset
/// forward, has landing jumps.
pub proof fn lemma_instruction_jumps(op: OpCode, operands: Seq<u8>)
    requires
        operands.len() == spec_operand_width(op),
        op != OpCode::OpLoop,
        spec_operand_width(op) == 2 ==> operands == seq![0u8, 0u8],
    ensures
        jumps_land(seq![opcode_byte(op)] + operands),
{
    let code = seq![opcode_byte(op)] + operands;
    lemma_opcode_byte_roundtrip(op);
    assert forall|p: nat| #[trigger] is_boundary(code, p) && p < code.len() && is_jump(code[p as int]) implies 0
        <= jump_target(code, p as int) && is_boundary(code, jump_target(code, p as int) as nat) by {
        if p > 0 {
            assert(boundary_from(code, 1 + spec_operand_width(op), p));
        }
        assert(p == 0);
        assert(code[1] == 0u8 && code[2] == 0u8);
        assert(jump_target(code, 0) == 3);
        assert(boundary_from(code, 3, 3));
    }
}

/// Patching a forward jump so that it leads to the end of whole code keeps
/// the jumps landing.
pub proof fn lemma_patch_jumps(code: Seq<u8>, operand_index: int, x: u8, y: u8)
    requires
        is_whole(code),
        jumps_land(code),
        1 <= operand_index,
        operand_index + 2 <= code.len(),
        is_boundary(code, (operand_index - 1) as nat),
        instruction_size(code[operand_index - 1]) == 3,
        opcode_of_byte(code[operand_index - 1]) != OpCode::OpLoop,
        operand_index + 2 + decode_u16(code.update(operand_index, x).update(operand_index + 1, y), operand_index) == code.len(),
    ensures
        jumps_land(code.update(operand_index, x).update(operand_index + 1, y)),
{
    let j = (operand_index - 1) as nat;
    let c = code.update(operand_index, x).update(operand_index + 1, y);
    crate::walk::lemma_patch(code, 0, j, x, y);
    lemma_end_boundary(code, 0);
    assert forall|p: nat| #[trigger] is_boundary(c, p) && p < c.len() && is_jump(c[p as int]) implies 0
        <= jump_target(c, p as int) && is_boundary(c, jump_target(c, p as int) as nat) by {
        // the boundaries of the patched code are those of the code
        if !is_boundary(code, p) {
            lemma_unpatch_boundary(code, j, x, y, 0, p);
        }
        assert(is_boundary(code, p));
        if p == j {
            assert(is_boundary(code, code.len()));
        } else {
            if p < j {
                lemma_boundary_gap(code, 0, p, j);
            } else {
                lemma_boundary_gap(code, 0, j, p);
            }
            lemma_whole_after(code, 0, p);
            assert(whole_from(code, p + instruction_size(code[p as int])));
            assert(c[p as int] == code[p as int]);
            assert(c[p + 1int] == code[p + 1int]);
            assert(c[p + 2int] == code[p + 2int]);
            assert(jump_target(c, p as int) == jump_target(code, p as int));
        }
    }
}

/// A boundary of patched code is one of the code before the patch.
proof fn lemma_unpatch_boundary(code: Seq<u8>, j: nat, x: u8, y: u8, i: nat, p: nat)
    requires
        whole_from(code, i),
        boundary_from(code, i, j),
        j < code.len(),
        instruction_size(code[j as int]) == 3,
        boundary_from(code.update(j + 1int, x).update(j + 2int, y), i, p),
    ensures
        boundary_from(code, i, p),
    decreases if i <= p { p - i } else { 0 },
{
    let c = code.update(j + 1int, x).update(j + 2int, y);
    lemma_whole_after(code, i, j);
    assert(whole_from(code, j + 3));
    if i < p {
        if i < j {
            lemma_boundary_gap_le(code, i, j);
            assert(c[i as int] == code[i as int]);
            lemma_unpatch_boundary(code, j, x, y, i + instruction_size(code[i as int]), p);
        } else {
            assert(i == j);
            lemma_whole_after(code, i, j);
            assert(whole_from(code, j + 3));
            lemma_frame_boundary(code, c, j + 3, p);
            assert(c[i as int] == code[i as int]);
        }
    }
}

/// Walking from `i` to a later boundary `j` steps past `i` within `j`.
proof fn lemma_boundary_gap_le(code: Seq<u8>, i: nat, j: nat)
    requires
        boundary_from(code, i, j),
        i < j,
    ensures
        i < code.len(),
        code[i as int] < OPCODE_COUNT,
        boundary_from(code, i + instruction_size(code[i as int]), j),
{
}

/// Appending a loop back to a boundary of whole code keeps the jumps
/// landing.
pub proof fn lemma_loop_jumps(a: Seq<u8>, hi: u8, lo: u8, loop_start: nat)
    requires
        is_whole(a),
        jumps_land(a),
        is_boundary(a, loop_start),
        (a + seq![opcode_byte(OpCode::OpLoop), hi, lo]).len() - decode_u16(
            a + seq![opcode_byte(OpCode::OpLoop), hi, lo],
            a.len() + 1int,
        ) == loop_start,
    ensures
        jumps_land(a + seq![opcode_byte(OpCode::OpLoop), hi, lo]),
        no_jump_crosses(a + seq![opcode_byte(OpCode::OpLoop), hi, lo], a.len()) ==> loop_start >= a.len(),
{
    let b = seq![opcode_byte(OpCode::OpLoop), hi, lo];
    let c = a + b;
    lemma_opcode_byte_roundtrip(OpCode::OpLoop);
    crate::walk::lemma_instruction_whole(OpCode::OpLoop, seq![hi, lo]);
    assert(b =~= seq![opcode_byte(OpCode::OpLoop)] + seq![hi, lo]);
    lemma_boundary_within(a, 0, loop_start);
    lemma_extend_boundary(a, b, 0, loop_start);
    assert forall|p: nat| #[trigger] is_boundary(c, p) && p < c.len() && is_jump(c[p as int]) implies 0
        <= jump_target(c, p as int) && is_boundary(c, jump_target(c, p as int) as nat) by {
        if p < a.len() {
            lemma_old_jumps(a, b, p);
        } else {
            lemma_boundary_in_suffix(a, b, p);
            let q = (p - a.len()) as nat;
            if q > 0 {
                assert(boundary_from(b, 3, q));
            }
            assert(p == a.len());
            assert(jump_target(c, p as int) == loop_start);
        }
    }
    if no_jump_crosses(c, a.len()) {
        lemma_end_boundary(a, 0);
        lemma_extend_boundary(a, b, 0, a.len());
        assert(c[a.len() as int] == opcode_byte(OpCode::OpLoop));
        assert(is_boundary(c, a.len()));
    }
}

/// Cutting whole code with landing jumps at a boundary that no jump crosses
/// gives two pieces whose jumps land.
pub proof fn lemma_cut_jumps(c: Seq<u8>, s: nat)
    requires
        is_whole(c),
        jumps_land(c),
        is_boundary(c, s),
        s <= c.len(),
        no_jump_crosses(c, s),
    ensures
        jumps_land(c.subrange(0, s as int)),
        jumps_land(c.subrange(s as int, c.len() as int)),
{
    let pre = c.subrange(0, s as int);
    let post = c.subrange(s as int, c.len() as int);
    lemma_split(c, s);
    assert(c =~= pre + post);
    assert forall|p: nat| #[trigger] is_boundary(pre, p) && p < pre.len() && is_jump(pre[p as int]) implies 0
        <= jump_target(pre, p as int) && is_boundary(pre, jump_target(pre, p as int) as nat) by {
        lemma_extend_boundary(pre, post, 0, p);
        assert(is_boundary(c, p));
        lemma_whole_after(pre, 0, p);
        assert(whole_from(pre, p + 3));
        assert(pre[p as int] == c[p as int]);
        assert(pre[p + 1int] == c[p + 1int]);
        assert(pre[p + 2int] == c[p + 2int]);
        assert(jump_target(pre, p as int) == jump_target(c, p as int));
    }
    assert forall|q: nat| #[trigger] is_boundary(post, q) && q < post.len() && is_jump(post[q as int]) implies 0
        <= jump_target(post, q as int) && is_boundary(post, jump_target(post, q as int) as nat) by {
        lemma_boundary_from_suffix(pre, post, q);
        let p = s + q;
        assert(is_boundary(c, p));
        assert(c[p as int] == post[q as int]);
        lemma_whole_after(post, 0, q);
        assert(whole_from(post, q + 3));
        assert(c[p + 1int] == post[q + 1int]);
        assert(c[p + 2int] == post[q + 2int]);
        let t = jump_target(c, p as int);
        assert(t >= s);
        lemma_boundary_in_suffix(pre, post, t as nat);
    }
}

/// Rewriting global accesses from the instruction at `i` on keeps the
/// boundaries from `i`, the bytes of every jump, and adds no jump.
proof fn lemma_rewrite_shape(code: Seq<u8>, targets: Seq<usize>, slot: u8, i: nat)
    requires
        whole_from(code, i),
    ensures
        forall|p: nat|
            #[trigger] boundary_from(rewritten_from(code, targets, slot, i), i, p) == boundary_from(
                code,
                i,
                p,
            ),
        forall|p: nat|
            #[trigger] boundary_from(code, i, p) && p < code.len() && is_jump(code[p as int]) ==> {
                let r = rewritten_from(code, targets, slot, i);
                &&& r[p as int] == code[p as int]
                &&& r[p + 1int] == code[p + 1int]
                &&& r[p + 2int] == code[p + 2int]
            },
        forall|p: nat|
            #[trigger] boundary_from(code, i, p) && p < code.len() && is_jump(
                rewritten_from(code, targets, slot, i)[p as int],
            ) ==> is_jump(code[p as int]),
    decreases if i <= code.len() { code.len() - i } else { 0 },
{
    let r = rewritten_from(code, targets, slot, i);
    crate::codegen::lemma_rewrite_keeps_prefix(code, targets, slot, i);
    if i < code.len() {
        let op = opcode_of_byte(code[i as int]);
        let hit = i + 1 < code.len() && targets.contains(code[(i + 1) as int] as usize);
        lemma_opcode_byte_roundtrip(OpCode::OpGetLocal);
        lemma_opcode_byte_roundtrip(OpCode::OpSetLocal);
        assert(code[i as int] < OPCODE_COUNT);
        if op == OpCode::OpGetGlobal || op == OpCode::OpSetGlobal {
            let local = if op == OpCode::OpGetGlobal {
                opcode_byte(OpCode::OpGetLocal)
            } else {
                opcode_byte(OpCode::OpSetLocal)
            };
            let next = if hit {
                code.update(i as int, local).update((i + 1) as int, slot)
            } else {
                code
            };
            assert(instruction_size(code[i as int]) == 2);
            assert(whole_from(code, i + 2));
            lemma_frame(code, next, i + 2);
            lemma_rewrite_shape(next, targets, slot, i + 2);
            crate::codegen::lemma_rewrite_keeps_prefix(next, targets, slot, i + 2);
            assert(r == rewritten_from(next, targets, slot, i + 2));
            assert(r[i as int] == next[i as int]);
            assert(next[i as int] == local || next[i as int] == code[i as int]);
            assert(r[i as int] < OPCODE_COUNT);
            assert(instruction_size(r[i as int]) == 2);
            assert(!is_jump(r[i as int]));
            assert forall|p: nat| #[trigger] boundary_from(r, i, p) == boundary_from(code, i, p) by {
                lemma_frame_boundary(code, next, i + 2, p);
                if i < p {
                    assert(boundary_from(r, i, p) == boundary_from(r, i + 2, p));
                    assert(boundary_from(code, i, p) == boundary_from(code, i + 2, p));
                    assert(boundary_from(rewritten_from(next, targets, slot, i + 2), i + 2, p)
                        == boundary_from(next, i + 2, p));
                }
            }
            assert forall|p: nat|
                #[trigger] boundary_from(code, i, p) && p < code.len() && is_jump(code[p as int]) implies {
                &&& r[p as int] == code[p as int]
                &&& r[p + 1int] == code[p + 1int]
                &&& r[p + 2int] == code[p + 2int]
            } by {
                assert(p != i);
                assert(boundary_from(code, i + 2, p));
                lemma_frame_boundary(code, next, i + 2, p);
                assert(boundary_from(next, i + 2, p));
                lemma_whole_after(code, i, p);
                assert(whole_from(code, p + 3));
                assert(next[p as int] == code[p as int]);
                assert(next[p + 1int] == code[p + 1int]);
                assert(next[p + 2int] == code[p + 2int]);
            }
            assert forall|p: nat|
                #[trigger] boundary_from(code, i, p) && p < code.len() && is_jump(r[p as int]) implies is_jump(code[p as int]) by {
                if p != i {
                    assert(boundary_from(code, i + 2, p));
                    lemma_frame_boundary(code, next, i + 2, p);
                    assert(boundary_from(next, i + 2, p));
                    assert(next[p as int] == code[p as int]);
                }
            }
        } else {
            let j = i + instruction_size(code[i as int]);
            lemma_rewrite_shape(code, targets, slot, j);
            assert(r == rewritten_from(code, targets, slot, j));
            crate::codegen::lemma_rewrite_keeps_prefix(code, targets, slot, j);
            assert(r[i as int] == code[i as int]);
            assert forall|p: nat| #[trigger] boundary_from(r, i, p) == boundary_from(code, i, p) by {
                if i < p {
                    assert(boundary_from(r, i, p) == boundary_from(r, j, p));
                    assert(boundary_from(code, i, p) == boundary_from(code, j, p));
                }
            }
            assert forall|p: nat|
                #[trigger] boundary_from(code, i, p) && p < code.len() && is_jump(code[p as int]) implies {
                &&& r[p as int] == code[p as int]
                &&& r[p + 1int] == code[p + 1int]
                &&& r[p + 2int] == code[p + 2int]
            } by {
                if p == i {
                    assert(instruction_size(code[i as int]) == 3);
                    assert(whole_from(code, i + 3));
                } else {
                    assert(boundary_from(code, j, p));
                    lemma_whole_after(code, i, p);
                    assert(whole_from(code, p + 3));
                }
            }
            assert forall|p: nat|
                #[trigger] boundary_from(code, i, p) && p < code.len() && is_jump(r[p as int]) implies is_jump(code[p as int]) by {
                if p != i {
                    assert(boundary_from(code, j, p));
                }
            }
        }
    }
}

/// Rewriting global accesses into local ones keeps the jumps landing.
pub proof fn lemma_rewrite_jumps(code: Seq<u8>, targets: Seq<usize>, slot: u8)
    requires
        is_whole(code),
        jumps_land(code),
    ensures
        jumps_land(rewritten_from(code, targets, slot, 0)),
{
    let r = rewritten_from(code, targets, slot, 0);
    lemma_rewrite_shape(code, targets, slot, 0);
    crate::codegen::lemma_rewrite_keeps_prefix(code, targets, slot, 0);
    assert forall|p: nat| #[trigger] is_boundary(r, p) && p < r.len() && is_jump(r[p as int]) implies 0
        <= jump_target(r, p as int) && is_boundary(r, jump_target(r, p as int) as nat) by {
        assert(boundary_from(r, 0, p) == boundary_from(code, 0, p));
        assert(is_boundary(code, p));
        assert(is_jump(code[p as int]));
        assert(jump_target(r, p as int) == jump_target(code, p as int));
        let t = jump_target(code, p as int);
        assert(boundary_from(r, 0, t as nat) == boundary_from(code, 0, t as nat));
    }
}

/// Every jump that starts an instruction at or after `s` leads to a
/// position at or after `s`.
pub open spec fn jumps_above(code: Seq<u8>, s: nat) -> bool {
    forall|p: nat|
        #[trigger] is_boundary(code, p) && s <= p < code.len() && is_jump(code[p as int])
            ==> jump_target(code, p as int) >= s
}

/// The 16-bit encoding of a value reads back as no more than the value.
pub proof fn lemma_decode_at_most(v: nat)
    ensures
        crate::codegen::high_byte(v) as nat * 256 + crate::codegen::low_byte(v) as nat <= v,
{
    let q = v / 256;
    assert(v == q * 256 + v % 256) by (nonlinear_arith)
        requires
            q == v / 256,
    ;
    assert((q % 256) <= q) by (nonlinear_arith);
    assert((q % 256) * 256 <= q * 256) by (nonlinear_arith)
        requires
            (q % 256) <= q,
    ;
}

/// Jumps above `s` in code stay above `s` in code that extends it exactly
/// with jumps above the old end.
pub proof fn lemma_above_compose(c1: Seq<u8>, c2: Seq<u8>, s: nat)
    requires
        is_whole(c1),
        jumps_above(c1, s),
        s <= c1.len() <= c2.len(),
        c2.subrange(0, c1.len() as int) == c1,
        jumps_above(c2, c1.len()),
    ensures
        jumps_above(c2, s),
{
    assert(c2 =~= c1 + c2.subrange(c1.len() as int, c2.len() as int));
    assert forall|p: nat| #[trigger] is_boundary(c2, p) && s <= p < c2.len() && is_jump(c2[p as int]) implies jump_target(c2, p as int) >= s by {
        if p < c1.len() {
            lemma_boundary_in_prefix(c1, c2.subrange(c1.len() as int, c2.len() as int), 0, p);
            assert(is_boundary(c1, p));
            lemma_whole_after(c1, 0, p);
            assert(whole_from(c1, p + 3));
            assert(c2[p as int] == c1[p as int]);
            assert(c2[p + 1int] == c1[p + 1int]);
            assert(c2[p + 2int] == c1[p + 2int]);
        }
    }
}

/// The jumps of whole code with landing jumps, appended to whole code, lead
/// no lower than where they were appended.
pub proof fn lemma_append_above(a: Seq<u8>, b: Seq<u8>)
    requires
        is_whole(a),
        is_whole(b),
        jumps_land(b),
    ensures
        jumps_above(a + b, a.len()),
{
    assert forall|p: nat| #[trigger] is_boundary(a + b, p) && a.len() <= p < (a + b).len() && is_jump((a + b)[p as int]) implies jump_target(a + b, p as int) >= a.len() by {
        lemma_new_jumps(a, b, p);
    }
}

/// Whole code that starts with whole code `c0` with landing jumps, unchanged,
/// and whose later jumps stay above the end of `c0`, has no jump crossing
/// that end.
pub proof fn lemma_cut_ready(c0: Seq<u8>, c1: Seq<u8>)
    requires
        is_whole(c0),
        jumps_land(c0),
        c0.len() <= c1.len(),
        forall|k: int| 0 <= k < c0.len() ==> c1[k] == c0[k],
        jumps_above(c1, c0.len()),
    ensures
        no_jump_crosses(c1, c0.len()),
{
    let rest = c1.subrange(c0.len() as int, c1.len() as int);
    assert(c1 =~= c0 + rest);
    assert forall|p: nat| #[trigger] is_boundary(c1, p) && p < c1.len() && is_jump(c1[p as int]) implies (p
        < c0.len() ==> jump_target(c1, p as int) <= c0.len()) && (p >= c0.len() ==> jump_target(c1, p as int)
        >= c0.len()) by {
        if p < c0.len() {
            lemma_old_jumps(c0, rest, p);
        }
    }
}

/// Jumps above `s0` stay above it in the code up to a boundary.
pub proof fn lemma_above_prefix(c: Seq<u8>, s0: nat, start: nat)
    requires
        is_whole(c),
        is_boundary(c, start),
        start <= c.len(),
        jumps_above(c, s0),
    ensures
        jumps_above(c.subrange(0, start as int), s0),
{
    let pre = c.subrange(0, start as int);
    let post = c.subrange(start as int, c.len() as int);
    lemma_split(c, start);
    assert(c =~= pre + post);
    assert forall|p: nat| #[trigger] is_boundary(pre, p) && s0 <= p < pre.len() && is_jump(pre[p as int]) implies jump_target(pre, p as int) >= s0 by {
        lemma_extend_boundary(pre, post, 0, p);
        assert(is_boundary(c, p));
        lemma_whole_after(pre, 0, p);
        assert(whole_from(pre, p + 3));
        assert(pre[p as int] == c[p as int]);
        assert(pre[p + 1int] == c[p + 1int]);
        assert(pre[p + 2int] == c[p + 2int]);
    }
}

/// Appending whole code with landing jumps keeps jumps above `s` above it.
pub proof fn lemma_above_append(a: Seq<u8>, b: Seq<u8>, s: nat)
    requires
        is_whole(a),
        is_whole(b),
        jumps_land(b),
        jumps_above(a, s),
        s <= a.len(),
    ensures
        jumps_above(a + b, s),
{
    lemma_append_above(a, b);
    assert((a + b).subrange(0, a.len() as int) =~= a);
    lemma_above_compose(a, a + b, s);
}

/// Patching a forward jump to lead to the end of whole code keeps jumps
/// above `s` above it.
pub proof fn lemma_above_patch(code: Seq<u8>, operand_index: int, x: u8, y: u8, s: nat)
    requires
        is_whole(code),
        1 <= operand_index,
        operand_index + 2 <= code.len(),
        is_boundary(code, (operand_index - 1) as nat),
        instruction_size(code[operand_index - 1]) == 3,
        opcode_of_byte(code[operand_index - 1]) != OpCode::OpLoop,
        operand_index + 2 + decode_u16(code.update(operand_index, x).update(operand_index + 1, y), operand_index) == code.len(),
        jumps_above(code, s),
        s <= code.len(),
    ensures
        jumps_above(code.update(operand_index, x).update(operand_index + 1, y), s),
{
    let j = (operand_index - 1) as nat;
    let c = code.update(operand_index, x).update(operand_index + 1, y);
    crate::walk::lemma_patch(code, 0, j, x, y);
    assert forall|p: nat| #[trigger] is_boundary(c, p) && s <= p < c.len() && is_jump(c[p as int]) implies jump_target(c, p as int) >= s by {
        if !is_boundary(code, p) {
            lemma_unpatch_boundary(code, j, x, y, 0, p);
        }
        if p != j {
            if p < j {
                lemma_boundary_gap(code, 0, p, j);
            } else {
                lemma_boundary_gap(code, 0, j, p);
            }
            lemma_whole_after(code, 0, p);
            assert(whole_from(code, p + instruction_size(code[p as int])));
            assert(c[p as int] == code[p as int]);
            assert(c[p + 1int] == code[p + 1int]);
            assert(c[p + 2int] == code[p + 2int]);
        }
    }
}

/// Appending a loop back to a boundary at or above `s` keeps jumps above
/// `s` above it.
pub proof fn lemma_above_loop(a: Seq<u8>, hi: u8, lo: u8, loop_start: nat, s: nat)
    requires
        is_whole(a),
        s <= loop_start <= a.len(),
        jumps_above(a, s),
        (a + seq![opcode_byte(OpCode::OpLoop), hi, lo]).len() - decode_u16(
            a + seq![opcode_byte(OpCode::OpLoop), hi, lo],
            a.len() + 1int,
        ) == loop_start,
    ensures
        jumps_above(a + seq![opcode_byte(OpCode::OpLoop), hi, lo], s),
{
    let b = seq![opcode_byte(OpCode::OpLoop), hi, lo];
    let c = a + b;
    lemma_opcode_byte_roundtrip(OpCode::OpLoop);
    crate::walk::lemma_instruction_whole(OpCode::OpLoop, seq![hi, lo]);
    assert(b =~= seq![opcode_byte(OpCode::OpLoop)] + seq![hi, lo]);
    assert forall|p: nat| #[trigger] is_boundary(c, p) && s <= p < c.len() && is_jump(c[p as int]) implies jump_target(c, p as int) >= s by {
        if p < a.len() {
            lemma_boundary_in_prefix(a, b, 0, p);
            assert(is_boundary(a, p));
            lemma_whole_after(a, 0, p);
            assert(whole_from(a, p + 3));
            assert(c[p as int] == a[p as int]);
            assert(c[p + 1int] == a[p + 1int]);
            assert(c[p + 2int] == a[p + 2int]);
        } else {
            lemma_boundary_in_suffix(a, b, p);
            let q = (p - a.len()) as nat;
            if q > 0 {
                assert(boundary_from(b, 3, q));
            }
            assert(p == a.len());
        }
    }
}

} // verus!
