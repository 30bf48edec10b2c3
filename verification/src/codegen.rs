//! Emitting, patching and rewriting bytecode.
//!
//! Jump offsets are 16-bit big-endian operands. A forward jump's offset counts
//! the bytes from the end of its operand to its target; a loop's offset counts
//! the bytes from the end of its operand back to the loop start.

use crate::bytecode::{opcode_byte, opcode_of_byte, spec_operand_width, OpCode, OPCODE_COUNT};
use vstd::prelude::*;

verus! {

/// Where a variable lives: a slot of the current frame, a captured variable of
/// the enclosing closure, or a global looked up by name.
#[derive(Debug, Clone, Copy, PartialEq, Eq, Structural)]
pub enum VariableTarget {
    /// Local variable at the given slot index.
    Local(usize),
    /// Upvalue (captured variable) at the given index.
    Upvalue(usize),
    /// Global variable (name stored in constants).
    Global,
}

/// The high byte of the 16-bit encoding of `value` (bits above 16 are dropped).
pub open spec fn high_byte(value: nat) -> u8 {
    ((value / 256) % 256) as u8
}

/// The low byte of the 16-bit encoding of `value`.
pub open spec fn low_byte(value: nat) -> u8 {
    (value % 256) as u8
}

/// The big-endian 16-bit operand stored at `at` and `at + 1`.
pub open spec fn decode_u16(code: Seq<u8>, at: int) -> nat {
    code[at] as nat * 256 + code[at + 1] as nat
}

/// The operand byte that the compiler stores for an index (its low 8 bits).
pub open spec fn operand_byte(index: nat) -> u8 {
    (index % 256) as u8
}

/// Encoding a value below 65536 and decoding it gives the value back.
pub proof fn lemma_u16_roundtrip(value: nat)
    requires
        value < 65536,
    ensures
        high_byte(value) as nat * 256 + low_byte(value) as nat == value,
{
}

/// Emits a jump instruction with a placeholder operand and returns the index
/// where the operand must later be patched.
pub fn emit_jump(code: &mut Vec<u8>, instruction: OpCode) -> (operand_index: usize)
    ensures
        final(code)@ == old(code)@ + seq![opcode_byte(instruction), 0u8, 0u8],
        operand_index == old(code)@.len() + 1,
{
    code.push(instruction.to_byte());
    let operand_index = code.len();
    code.push(0);
    code.push(0);
    operand_index
}

/// Emits a loop instruction that jumps backward to `loop_start`.
pub fn emit_loop(code: &mut Vec<u8>, loop_start: usize)
    requires
        loop_start <= old(code)@.len(),
    ensures
        ({
            let offset = (old(code)@.len() + 3 - loop_start) as nat;
            final(code)@ == old(code)@ + seq![
                opcode_byte(OpCode::OpLoop),
                high_byte(offset),
                low_byte(offset),
            ]
        }),
        // Reading the operand back and stepping back from its end lands on `loop_start`.
        final(code)@.len() - loop_start < 65536 ==> final(code)@.len() - decode_u16(
            final(code)@,
            (old(code)@.len() + 1) as int,
        ) == loop_start,
{
    code.push(OpCode::OpLoop.to_byte());
    let operand_index = code.len();
    code.push(0);
    code.push(0);
    let offset = code.len() - loop_start;
    code.set(operand_index, ((offset / 256) % 256) as u8);
    code.set(operand_index + 1, (offset % 256) as u8);
    proof {
        if offset < 65536 {
            lemma_u16_roundtrip(offset as nat);
        }
        assert(code@ =~= old(code)@ + seq![
            opcode_byte(OpCode::OpLoop),
            high_byte(offset as nat),
            low_byte(offset as nat),
        ]);
    }
}

/// Patches a previously emitted forward jump so that it lands on the end of
/// the code emitted so far.
pub fn patch_jump(code: &mut Vec<u8>, operand_index: usize)
    requires
        operand_index + 2 <= old(code)@.len(),
    ensures
        ({
            let jump = (old(code)@.len() - (operand_index + 2)) as nat;
            final(code)@ == old(code)@.update(operand_index as int, high_byte(jump)).update(
                operand_index + 1,
                low_byte(jump),
            )
        }),
        // The patched jump, taken from the end of its operand, reaches the end of the code.
        old(code)@.len() - (operand_index + 2) < 65536 ==> operand_index + 2 + decode_u16(
            final(code)@,
            operand_index as int,
        ) == final(code)@.len(),
{
    let jump = code.len() - (operand_index + 2);
    code.set(operand_index, ((jump / 256) % 256) as u8);
    code.set(operand_index + 1, (jump % 256) as u8);
    proof {
        if jump < 65536 {
            lemma_u16_roundtrip(jump as nat);
        }
    }
}

/// Reads the big-endian 16-bit operand at `ip`.
pub fn read_u16(code: &Vec<u8>, ip: usize) -> (value: usize)
    requires
        ip + 1 < code@.len(),
    ensures
        value == decode_u16(code@, ip as int),
        value < 65536,
{
    let n = code.len();
    assert(ip + 1 < n);
    let high = code[ip] as usize;
    let low = code[ip + 1] as usize;
    assert(high < 256 && low < 256);
    high * 256 + low
}

/// Emits the instruction that pushes the value of a variable.
pub fn emit_get_variable(code: &mut Vec<u8>, name_idx: usize, target: VariableTarget)
    ensures
        final(code)@ == old(code)@ + match target {
            VariableTarget::Local(slot) => seq![
                opcode_byte(OpCode::OpGetLocal),
                operand_byte(slot as nat),
            ],
            VariableTarget::Upvalue(index) => seq![
                opcode_byte(OpCode::OpGetUpvalue),
                operand_byte(index as nat),
            ],
            VariableTarget::Global => seq![
                opcode_byte(OpCode::OpGetGlobal),
                operand_byte(name_idx as nat),
            ],
        },
{
    let (op, operand) = match target {
        VariableTarget::Local(slot) => (OpCode::OpGetLocal, slot),
        VariableTarget::Upvalue(index) => (OpCode::OpGetUpvalue, index),
        VariableTarget::Global => (OpCode::OpGetGlobal, name_idx),
    };
    code.push(op.to_byte());
    code.push((operand % 256) as u8);
}

/// Emits the instruction that stores the top of the stack into a variable,
/// leaving the value on the stack.
pub fn emit_set_variable(code: &mut Vec<u8>, name_idx: usize, target: VariableTarget)
    ensures
        final(code)@ == old(code)@ + match target {
            VariableTarget::Local(slot) => seq![
                opcode_byte(OpCode::OpSetLocal),
                operand_byte(slot as nat),
            ],
            VariableTarget::Upvalue(index) => seq![
                opcode_byte(OpCode::OpSetUpvalue),
                operand_byte(index as nat),
            ],
            VariableTarget::Global => seq![
                opcode_byte(OpCode::OpSetGlobal),
                operand_byte(name_idx as nat),
            ],
        },
{
    let (op, operand) = match target {
        VariableTarget::Local(slot) => (OpCode::OpSetLocal, slot),
        VariableTarget::Upvalue(index) => (OpCode::OpSetUpvalue, index),
        VariableTarget::Global => (OpCode::OpSetGlobal, name_idx),
    };
    code.push(op.to_byte());
    code.push((operand % 256) as u8);
}

/// Emits the instructions that define a variable from the top of the stack:
/// locals and upvalues are stored and the value popped; globals are defined
/// by name (which pops the value).
pub fn emit_define_variable(code: &mut Vec<u8>, name_idx: usize, target: VariableTarget)
    ensures
        final(code)@ == old(code)@ + match target {
            VariableTarget::Local(slot) => seq![
                opcode_byte(OpCode::OpSetLocal),
                operand_byte(slot as nat),
                opcode_byte(OpCode::OpPop),
            ],
            VariableTarget::Upvalue(index) => seq![
                opcode_byte(OpCode::OpSetUpvalue),
                operand_byte(index as nat),
                opcode_byte(OpCode::OpPop),
            ],
            VariableTarget::Global => seq![
                opcode_byte(OpCode::OpDefineGlobal),
                operand_byte(name_idx as nat),
            ],
        },
{
    match target {
        VariableTarget::Local(slot) => {
            code.push(OpCode::OpSetLocal.to_byte());
            code.push((slot % 256) as u8);
            code.push(OpCode::OpPop.to_byte());
        },
        VariableTarget::Upvalue(index) => {
            code.push(OpCode::OpSetUpvalue.to_byte());
            code.push((index % 256) as u8);
            code.push(OpCode::OpPop.to_byte());
        },
        VariableTarget::Global => {
            code.push(OpCode::OpDefineGlobal.to_byte());
            code.push((name_idx % 256) as u8);
        },
    }
}

/// Walking the instructions of `code` from `i`, every instruction starts
/// with a byte that encodes an opcode.
pub open spec fn well_formed_from(code: Seq<u8>, i: nat) -> bool
    decreases if i <= code.len() { code.len() - i } else { 0 },
{
    if i >= code.len() {
        true
    } else if code[i as int] >= OPCODE_COUNT {
        false
    } else {
        well_formed_from(code, i + 1 + spec_operand_width(opcode_of_byte(code[i as int])))
    }
}

/// The code after rewriting, from the instruction at `i` on, every global read
/// or write whose name index is among `targets` into a read or write of the
/// local `slot`.
pub open spec fn rewritten_from(code: Seq<u8>, targets: Seq<usize>, slot: u8, i: nat) -> Seq<u8>
    decreases if i <= code.len() { code.len() - i } else { 0 },
{
    if i >= code.len() {
        code
    } else {
        let op = opcode_of_byte(code[i as int]);
        let hit = i + 1 < code.len() && targets.contains(code[(i + 1) as int] as usize);
        if op == OpCode::OpGetGlobal {
            let next = if hit {
                code.update(i as int, opcode_byte(OpCode::OpGetLocal)).update((i + 1) as int, slot)
            } else {
                code
            };
            rewritten_from(next, targets, slot, i + 2)
        } else if op == OpCode::OpSetGlobal {
            let next = if hit {
                code.update(i as int, opcode_byte(OpCode::OpSetLocal)).update((i + 1) as int, slot)
            } else {
                code
            };
            rewritten_from(next, targets, slot, i + 2)
        } else {
            rewritten_from(code, targets, slot, i + 1 + spec_operand_width(op))
        }
    }
}

/// Rewriting at or after the instruction at `i` keeps the bytes before `i`,
/// and the remaining walk only looks at bytes from `i` on.
proof fn lemma_rewrite_frame(code: Seq<u8>, other: Seq<u8>, targets: Seq<usize>, slot: u8, i: nat)
    requires
        code.len() == other.len(),
        forall|k: int| i <= k < code.len() ==> code[k] == other[k],
    ensures
        well_formed_from(code, i) == well_formed_from(other, i),
        rewritten_from(code, targets, slot, i).len() == code.len(),
        forall|k: int|
            i <= k < code.len() ==> rewritten_from(code, targets, slot, i)[k] == rewritten_from(
                other,
                targets,
                slot,
                i,
            )[k],
        forall|k: int|
            0 <= k < i && k < code.len() ==> rewritten_from(code, targets, slot, i)[k] == code[k],
    decreases if i <= code.len() { code.len() - i } else { 0 },
{
    if i < code.len() {
        let op = opcode_of_byte(code[i as int]);
        let hit = i + 1 < code.len() && targets.contains(code[(i + 1) as int] as usize);
        if op == OpCode::OpGetGlobal || op == OpCode::OpSetGlobal {
            let local = if op == OpCode::OpGetGlobal {
                opcode_byte(OpCode::OpGetLocal)
            } else {
                opcode_byte(OpCode::OpSetLocal)
            };
            let next = if hit {
                code.update(i as int, local).update((i + 1) as int, slot)
            } else {
                code
            };
            let onext = if hit {
                other.update(i as int, local).update((i + 1) as int, slot)
            } else {
                other
            };
            assert(rewritten_from(code, targets, slot, i) == rewritten_from(next, targets, slot, i + 2));
            assert(next.len() == code.len());
            assert(rewritten_from(other, targets, slot, i) == rewritten_from(onext, targets, slot, i + 2));
            lemma_rewrite_frame(next, onext, targets, slot, i + 2);
            lemma_rewrite_frame(next, code, targets, slot, i + 2);
            lemma_rewrite_frame(onext, other, targets, slot, i + 2);
            assert forall|k: int| i <= k < code.len() implies rewritten_from(code, targets, slot, i)[k]
                == rewritten_from(other, targets, slot, i)[k] by {
                if k < i + 2 {
                    assert(rewritten_from(next, targets, slot, i + 2)[k] == next[k]);
                    assert(rewritten_from(onext, targets, slot, i + 2)[k] == onext[k]);
                }
            }
            assert forall|k: int| 0 <= k < i && k < code.len() implies rewritten_from(code, targets, slot, i)[k]
                == code[k] by {
                assert(rewritten_from(next, targets, slot, i + 2)[k] == next[k]);
            }
        } else {
            let j = i + 1 + spec_operand_width(op);
            assert(rewritten_from(code, targets, slot, i) == rewritten_from(code, targets, slot, j));
            assert(rewritten_from(other, targets, slot, i) == rewritten_from(other, targets, slot, j));
            lemma_rewrite_frame(code, other, targets, slot, j);
            lemma_rewrite_frame(other, code, targets, slot, j);
            assert forall|k: int| i <= k < code.len() implies rewritten_from(code, targets, slot, i)[k]
                == rewritten_from(other, targets, slot, i)[k] by {
                if k < j {
                    assert(rewritten_from(code, targets, slot, j)[k] == code[k]);
                    assert(rewritten_from(other, targets, slot, j)[k] == other[k]);
                }
            }
            assert forall|k: int| 0 <= k < i && k < code.len() implies rewritten_from(code, targets, slot, i)[k]
                == code[k] by {
                assert(rewritten_from(code, targets, slot, j)[k] == code[k]);
            }
        }
    }
}

/// Rewriting from the instruction at `i` on keeps the length of the code
/// and the bytes before `i`.
pub proof fn lemma_rewrite_keeps_prefix(code: Seq<u8>, targets: Seq<usize>, slot: u8, i: nat)
    ensures
        rewritten_from(code, targets, slot, i).len() == code.len(),
        forall|k: int|
            0 <= k < i && k < code.len() ==> rewritten_from(code, targets, slot, i)[k] == code[k],
{
    lemma_rewrite_frame(code, code, targets, slot, i);
}

/// Whether `idx` is among `targets`.
fn contains_index(targets: &[usize], idx: usize) -> (found: bool)
    ensures
        found == targets@.contains(idx),
{
    let mut i: usize = 0;
    while i < targets.len()
        invariant
            i <= targets@.len(),
            forall|j: int| 0 <= j < i ==> targets@[j] != idx,
        decreases targets@.len() - i,
    {
        if targets[i] == idx {
            assert(targets@[i as int] == idx);
            return true;
        }
        i += 1;
    }
    false
}

/// Rewrites the global reads and writes of the names at `target_indices` into
/// reads and writes of the local `local_slot` (used to turn a comprehension's
/// loop variable into a local inside functions).
pub fn rewrite_globals_to_local(code: &mut Vec<u8>, target_indices: &[usize], local_slot: usize)
    requires
        target_indices@.len() > 0 ==> well_formed_from(old(code)@, 0),
    ensures
        target_indices@.len() == 0 ==> final(code)@ == old(code)@,
        target_indices@.len() > 0 ==> final(code)@ == rewritten_from(
            old(code)@,
            target_indices@,
            operand_byte(local_slot as nat),
            0,
        ),
        final(code)@.len() == old(code)@.len(),
{
    if target_indices.len() == 0 {
        return ;
    }
    let ghost targets = target_indices@;
    let ghost slot = operand_byte(local_slot as nat);
    let slot_byte = (local_slot % 256) as u8;
    let ghost original = code@;
    let mut i: usize = 0;
    proof {
        lemma_rewrite_frame(code@, code@, targets, slot, 0);
    }
    while i < code.len()
        invariant
            targets == target_indices@,
            targets.len() > 0,
            slot == slot_byte,
            original == old(code)@,
            slot == operand_byte(local_slot as nat),
            code@.len() == original.len(),
            well_formed_from(code@, i as nat),
            rewritten_from(code@, targets, slot, i as nat) == rewritten_from(
                original,
                targets,
                slot,
                0,
            ),
        decreases if i <= code@.len() { code@.len() - i } else { 0 },
    {
        let opcode = OpCode::from(code[i]);
        if opcode == OpCode::OpGetGlobal || opcode == OpCode::OpSetGlobal {
            let ghost before = code@;
            if i + 1 < code.len() {
                let idx = code[i + 1] as usize;
                if contains_index(target_indices, idx) {
                    if opcode == OpCode::OpGetGlobal {
                        code.set(i, OpCode::OpGetLocal.to_byte());
                    } else {
                        code.set(i, OpCode::OpSetLocal.to_byte());
                    }
                    code.set(i + 1, slot_byte);
                }
            }
            proof {
                lemma_rewrite_frame(code@, before, targets, slot, (i + 2) as nat);
            }
            if 2 >= code.len() - i {
                assert(rewritten_from(code@, targets, slot, (i + 2) as nat) == code@);
                return ;
            }
            i = i + 2;
        } else {
            let width = opcode.operand_width();
            if width >= code.len() - i {
                assert(rewritten_from(code@, targets, slot, (i + 1 + width) as nat) == code@);
                return ;
            }
            i = i + 1 + width;
        }
    }
}

} // verus!
