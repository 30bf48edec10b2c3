use oxython::bytecode::{OpCode, OPCODE_COUNT};

#[test]
fn test_opcode_from_u8() {
    assert_eq!(OpCode::from(0), OpCode::OpConstant);
    assert_eq!(OpCode::from(1), OpCode::OpAdd);
    assert_eq!(OpCode::from(2), OpCode::OpDivide);
    assert_eq!(OpCode::from(3), OpCode::OpSubtract);
    assert_eq!(OpCode::from(4), OpCode::OpDefineGlobal);
    assert_eq!(OpCode::from(5), OpCode::OpGetGlobal);
    assert_eq!(OpCode::from(6), OpCode::OpSetGlobal);
    assert_eq!(OpCode::from(7), OpCode::OpPrintSpaced);
    assert_eq!(OpCode::from(8), OpCode::OpPrint);
    assert_eq!(OpCode::from(9), OpCode::OpReturn);
    assert_eq!(OpCode::from(10), OpCode::OpPop);
    assert_eq!(OpCode::from(11), OpCode::OpPrintln);
    assert_eq!(OpCode::from(12), OpCode::OpIndex);
    assert_eq!(OpCode::from(13), OpCode::OpLen);
    assert_eq!(OpCode::from(14), OpCode::OpAppend);
    assert_eq!(OpCode::from(15), OpCode::OpRound);
    assert_eq!(OpCode::from(16), OpCode::OpIterNext);
    assert_eq!(OpCode::from(17), OpCode::OpLoop);
    assert_eq!(OpCode::from(18), OpCode::OpJumpIfFalse);
    assert_eq!(OpCode::from(19), OpCode::OpJump);
    assert_eq!(OpCode::from(20), OpCode::OpSetIndex);
    assert_eq!(OpCode::from(21), OpCode::OpDup);
    assert_eq!(OpCode::from(22), OpCode::OpContains);
    assert_eq!(OpCode::from(23), OpCode::OpSwap);
    assert_eq!(OpCode::from(24), OpCode::OpMultiply);
    assert_eq!(OpCode::from(25), OpCode::OpRange);
    assert_eq!(OpCode::from(26), OpCode::OpLess);
    assert_eq!(OpCode::from(27), OpCode::OpSlice);
    assert_eq!(OpCode::from(35), OpCode::OpCall);
    assert_eq!(OpCode::from(36), OpCode::OpGetLocal);
    assert_eq!(OpCode::from(37), OpCode::OpSetLocal);
    assert_eq!(OpCode::from(38), OpCode::OpMakeFunction);
}

#[test]
fn opcode_bytes_roundtrip_for_every_opcode() {
    for byte in 0..OPCODE_COUNT {
        let op = OpCode::from(byte);
        assert_eq!(op.to_byte(), byte);
        assert_eq!(op as u8, byte);
        assert_eq!(OpCode::try_from_byte(byte), Some(op));
    }
}

#[test]
fn opcode_try_from_byte_rejects_unknown_bytes() {
    assert_eq!(OpCode::try_from_byte(45), None);
    assert_eq!(OpCode::try_from_byte(255), None);
    assert_eq!(OpCode::try_from_byte(44), Some(OpCode::OpInherit));
}

#[test]
fn opcode_later_bytes_decode_in_declaration_order() {
    assert_eq!(OpCode::from(28), OpCode::OpModulo);
    assert_eq!(OpCode::from(29), OpCode::OpEqual);
    assert_eq!(OpCode::from(31), OpCode::OpZip);
    assert_eq!(OpCode::from(39), OpCode::OpGetUpvalue);
    assert_eq!(OpCode::from(40), OpCode::OpSetUpvalue);
    assert_eq!(OpCode::from(41), OpCode::OpMakeClass);
    assert_eq!(OpCode::from(44), OpCode::OpInherit);
}

#[test]
fn opcode_operand_widths() {
    assert_eq!(OpCode::OpConstant.operand_width(), 1);
    assert_eq!(OpCode::OpGetUpvalue.operand_width(), 1);
    assert_eq!(OpCode::OpMakeFunction.operand_width(), 1);
    assert_eq!(OpCode::OpJump.operand_width(), 2);
    assert_eq!(OpCode::OpIterNext.operand_width(), 2);
    assert_eq!(OpCode::OpZip.operand_width(), 3);
    assert_eq!(OpCode::OpAdd.operand_width(), 0);
    assert_eq!(OpCode::OpGetAttr.operand_width(), 0);
}
