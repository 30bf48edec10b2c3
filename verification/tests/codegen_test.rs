use oxython::bytecode::OpCode;
use oxython::codegen::{
    emit_define_variable, emit_get_variable, emit_jump, emit_loop, emit_set_variable,
    patch_jump, read_u16, rewrite_globals_to_local, VariableTarget,
};

fn b(op: OpCode) -> u8 {
    op as u8
}

#[test]
fn emit_jump_leaves_placeholder_operand() {
    let mut code = vec![1, 2];
    let operand = emit_jump(&mut code, OpCode::OpJumpIfFalse);
    assert_eq!(operand, 3);
    assert_eq!(code, vec![1, 2, b(OpCode::OpJumpIfFalse), 0, 0]);
}

#[test]
fn patch_jump_targets_end_of_code() {
    let mut code = Vec::new();
    let operand = emit_jump(&mut code, OpCode::OpJump);
    code.extend_from_slice(&[9, 9, 9]);
    patch_jump(&mut code, operand);
    assert_eq!(code, vec![b(OpCode::OpJump), 0, 3, 9, 9, 9]);
    assert_eq!(operand + 2 + read_u16(&code, operand), code.len());
}

#[test]
fn patch_jump_encodes_big_endian() {
    let mut code = Vec::new();
    let operand = emit_jump(&mut code, OpCode::OpJump);
    code.extend(std::iter::repeat(0u8).take(300));
    patch_jump(&mut code, operand);
    assert_eq!(code[1], 1);
    assert_eq!(code[2], 44);
    assert_eq!(read_u16(&code, 1), 300);
}

#[test]
fn emit_loop_jumps_back_to_start() {
    let mut code = vec![0u8; 10];
    emit_loop(&mut code, 2);
    assert_eq!(code.len(), 13);
    assert_eq!(&code[10..], &[b(OpCode::OpLoop), 0, 11]);
    assert_eq!(code.len() - read_u16(&code, 11), 2);
}

#[test]
fn read_u16_reads_big_endian() {
    let code = vec![0x12, 0x34];
    assert_eq!(read_u16(&code, 0), 0x1234);
}

#[test]
fn emit_variable_access_by_target() {
    let mut code = Vec::new();
    emit_get_variable(&mut code, 7, VariableTarget::Local(3));
    emit_get_variable(&mut code, 7, VariableTarget::Upvalue(2));
    emit_get_variable(&mut code, 7, VariableTarget::Global);
    assert_eq!(
        code,
        vec![
            b(OpCode::OpGetLocal), 3,
            b(OpCode::OpGetUpvalue), 2,
            b(OpCode::OpGetGlobal), 7
        ]
    );
    let mut code = Vec::new();
    emit_set_variable(&mut code, 5, VariableTarget::Local(1));
    emit_set_variable(&mut code, 5, VariableTarget::Upvalue(0));
    emit_set_variable(&mut code, 5, VariableTarget::Global);
    assert_eq!(
        code,
        vec![
            b(OpCode::OpSetLocal), 1,
            b(OpCode::OpSetUpvalue), 0,
            b(OpCode::OpSetGlobal), 5
        ]
    );
}

#[test]
fn emit_define_pops_for_locals_only() {
    let mut code = Vec::new();
    emit_define_variable(&mut code, 4, VariableTarget::Local(2));
    emit_define_variable(&mut code, 4, VariableTarget::Upvalue(1));
    emit_define_variable(&mut code, 4, VariableTarget::Global);
    assert_eq!(
        code,
        vec![
            b(OpCode::OpSetLocal), 2, b(OpCode::OpPop),
            b(OpCode::OpSetUpvalue), 1, b(OpCode::OpPop),
            b(OpCode::OpDefineGlobal), 4
        ]
    );
}

#[test]
fn operands_keep_low_byte_of_large_indices() {
    let mut code = Vec::new();
    emit_get_variable(&mut code, 0, VariableTarget::Local(300));
    assert_eq!(code, vec![b(OpCode::OpGetLocal), 44]);
}

#[test]
fn rewrite_turns_targeted_globals_into_locals() {
    let mut code = vec![
        b(OpCode::OpGetGlobal), 2,
        b(OpCode::OpConstant), 1,
        b(OpCode::OpSetGlobal), 2,
        b(OpCode::OpGetGlobal), 3,
        b(OpCode::OpAdd),
        b(OpCode::OpJump), 0, 0,
    ];
    rewrite_globals_to_local(&mut code, &[2], 4);
    assert_eq!(
        code,
        vec![
            b(OpCode::OpGetLocal), 4,
            b(OpCode::OpConstant), 1,
            b(OpCode::OpSetLocal), 4,
            b(OpCode::OpGetGlobal), 3,
            b(OpCode::OpAdd),
            b(OpCode::OpJump), 0, 0,
        ]
    );
}

#[test]
fn rewrite_skips_operand_bytes() {
    // The constant's operand equals the byte of OpGetGlobal but is not an instruction.
    let mut code = vec![b(OpCode::OpConstant), b(OpCode::OpGetGlobal), b(OpCode::OpGetGlobal), 9];
    rewrite_globals_to_local(&mut code, &[9], 1);
    assert_eq!(code, vec![b(OpCode::OpConstant), b(OpCode::OpGetGlobal), b(OpCode::OpGetLocal), 1]);
}

#[test]
fn rewrite_with_no_targets_changes_nothing() {
    let mut code = vec![200, 5];
    rewrite_globals_to_local(&mut code, &[], 1);
    assert_eq!(code, vec![200, 5]);
}

