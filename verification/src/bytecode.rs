//! The instruction set of the virtual machine and its byte encoding.
//!
//! Every instruction is one opcode byte, possibly followed by operand bytes.
//! An opcode's byte is its position in the declaration of [`OpCode`].

use vstd::prelude::*;

verus! {

/// The number of distinct opcodes; every byte below this value encodes one.
pub const OPCODE_COUNT: u8 = 45;

/// Represents the instructions that our Virtual Machine will execute.
#[derive(Debug, Clone, Copy, PartialEq, Eq, Structural)]
pub enum OpCode {
    /// Pushes a constant from the chunk's constant pool onto the stack.
    OpConstant,
    /// Pops two values from the stack, adds them, and pushes the result.
    OpAdd,
    /// Pops two values and divides the first by the second.
    OpDivide,
    /// Pops two values, subtracts the second from the first, and pushes the result.
    OpSubtract,
    /// Defines a new global variable.
    OpDefineGlobal,
    /// Pushes the value of a global variable onto the stack.
    OpGetGlobal,
    /// Sets the value of an existing global variable.
    OpSetGlobal,
    /// Pops a value, prints it with a trailing space.
    OpPrintSpaced,
    /// Pops a value and prints it without a trailing space.
    OpPrint,
    /// Signals the end of execution.
    OpReturn,
    /// Pops the top value from the stack.
    OpPop,
    /// Prints a newline character.
    OpPrintln,
    /// Indexes into a list.
    OpIndex,
    /// Computes the length of a list or string.
    OpLen,
    /// Appends a value to a list.
    OpAppend,
    /// Rounds a floating point number to a given precision.
    OpRound,
    /// Advances an iterator over a collection.
    OpIterNext,
    /// Jumps backwards by a given offset.
    OpLoop,
    /// Jumps forward if the top of the stack is falsy.
    OpJumpIfFalse,
    /// Unconditionally jumps forward by an offset.
    OpJump,
    /// Sets a value at an index/key in a collection.
    OpSetIndex,
    /// Duplicates the top stack value.
    OpDup,
    /// Tests membership of a value in a collection.
    OpContains,
    /// Swaps the top two stack values.
    OpSwap,
    /// Pops two values and multiplies them.
    OpMultiply,
    /// Builds a list representing a numeric range.
    OpRange,
    /// Compares two numeric values and pushes a boolean indicating if left < right.
    OpLess,
    /// Extracts a slice from a list or string.
    OpSlice,
    /// Calculates the modulo of two integers.
    OpModulo,
    /// Compares two values for equality.
    OpEqual,
    /// Converts a value into a list.
    OpToList,
    /// Zips multiple iterables together.
    OpZip,
    /// Converts a string to lowercase.
    OpStrLower,
    /// Returns whether a string is alphanumeric.
    OpStrIsAlnum,
    /// Joins an iterable of strings using the separator string.
    OpStrJoin,
    /// Calls a function with a given number of positional arguments.
    OpCall,
    /// Pushes the value of a local variable onto the stack.
    OpGetLocal,
    /// Updates the value of an existing local variable.
    OpSetLocal,
    /// Creates a function object from a constant prototype.
    OpMakeFunction,
    /// Reads a captured variable from an enclosing scope.
    OpGetUpvalue,
    /// Updates a captured variable from an enclosing scope.
    OpSetUpvalue,
    /// Creates a class object with methods.
    OpMakeClass,
    /// Gets an attribute from an object (instance or class).
    OpGetAttr,
    /// Sets an attribute on an instance.
    OpSetAttr,
    /// Sets the parent class for a class (used for inheritance).
    OpInherit,
}

/// The byte that encodes `op` in a chunk of code.
pub open spec fn opcode_byte(op: OpCode) -> u8 {
    match op {
        OpCode::OpConstant => 0u8,
        OpCode::OpAdd => 1u8,
        OpCode::OpDivide => 2u8,
        OpCode::OpSubtract => 3u8,
        OpCode::OpDefineGlobal => 4u8,
        OpCode::OpGetGlobal => 5u8,
        OpCode::OpSetGlobal => 6u8,
        OpCode::OpPrintSpaced => 7u8,
        OpCode::OpPrint => 8u8,
        OpCode::OpReturn => 9u8,
        OpCode::OpPop => 10u8,
        OpCode::OpPrintln => 11u8,
        OpCode::OpIndex => 12u8,
        OpCode::OpLen => 13u8,
        OpCode::OpAppend => 14u8,
        OpCode::OpRound => 15u8,
        OpCode::OpIterNext => 16u8,
        OpCode::OpLoop => 17u8,
        OpCode::OpJumpIfFalse => 18u8,
        OpCode::OpJump => 19u8,
        OpCode::OpSetIndex => 20u8,
        OpCode::OpDup => 21u8,
        OpCode::OpContains => 22u8,
        OpCode::OpSwap => 23u8,
        OpCode::OpMultiply => 24u8,
        OpCode::OpRange => 25u8,
        OpCode::OpLess => 26u8,
        OpCode::OpSlice => 27u8,
        OpCode::OpModulo => 28u8,
        OpCode::OpEqual => 29u8,
        OpCode::OpToList => 30u8,
        OpCode::OpZip => 31u8,
        OpCode::OpStrLower => 32u8,
        OpCode::OpStrIsAlnum => 33u8,
        OpCode::OpStrJoin => 34u8,
        OpCode::OpCall => 35u8,
        OpCode::OpGetLocal => 36u8,
        OpCode::OpSetLocal => 37u8,
        OpCode::OpGetUpvalue => 39u8,
        OpCode::OpSetUpvalue => 40u8,
        OpCode::OpMakeFunction => 38u8,
        OpCode::OpMakeClass => 41u8,
        OpCode::OpGetAttr => 42u8,
        OpCode::OpSetAttr => 43u8,
        OpCode::OpInherit => 44u8,
    }
}

/// The opcode that a byte below [`OPCODE_COUNT`] encodes.
pub open spec fn opcode_of_byte(byte: u8) -> OpCode
    recommends
        byte < OPCODE_COUNT,
{
    if byte == 0 { OpCode::OpConstant }
    else if byte == 1 { OpCode::OpAdd }
    else if byte == 2 { OpCode::OpDivide }
    else if byte == 3 { OpCode::OpSubtract }
    else if byte == 4 { OpCode::OpDefineGlobal }
    else if byte == 5 { OpCode::OpGetGlobal }
    else if byte == 6 { OpCode::OpSetGlobal }
    else if byte == 7 { OpCode::OpPrintSpaced }
    else if byte == 8 { OpCode::OpPrint }
    else if byte == 9 { OpCode::OpReturn }
    else if byte == 10 { OpCode::OpPop }
    else if byte == 11 { OpCode::OpPrintln }
    else if byte == 12 { OpCode::OpIndex }
    else if byte == 13 { OpCode::OpLen }
    else if byte == 14 { OpCode::OpAppend }
    else if byte == 15 { OpCode::OpRound }
    else if byte == 16 { OpCode::OpIterNext }
    else if byte == 17 { OpCode::OpLoop }
    else if byte == 18 { OpCode::OpJumpIfFalse }
    else if byte == 19 { OpCode::OpJump }
    else if byte == 20 { OpCode::OpSetIndex }
    else if byte == 21 { OpCode::OpDup }
    else if byte == 22 { OpCode::OpContains }
    else if byte == 23 { OpCode::OpSwap }
    else if byte == 24 { OpCode::OpMultiply }
    else if byte == 25 { OpCode::OpRange }
    else if byte == 26 { OpCode::OpLess }
    else if byte == 27 { OpCode::OpSlice }
    else if byte == 28 { OpCode::OpModulo }
    else if byte == 29 { OpCode::OpEqual }
    else if byte == 30 { OpCode::OpToList }
    else if byte == 31 { OpCode::OpZip }
    else if byte == 32 { OpCode::OpStrLower }
    else if byte == 33 { OpCode::OpStrIsAlnum }
    else if byte == 34 { OpCode::OpStrJoin }
    else if byte == 35 { OpCode::OpCall }
    else if byte == 36 { OpCode::OpGetLocal }
    else if byte == 37 { OpCode::OpSetLocal }
    else if byte == 38 { OpCode::OpMakeFunction }
    else if byte == 39 { OpCode::OpGetUpvalue }
    else if byte == 40 { OpCode::OpSetUpvalue }
    else if byte == 41 { OpCode::OpMakeClass }
    else if byte == 42 { OpCode::OpGetAttr }
    else if byte == 43 { OpCode::OpSetAttr }
    else { OpCode::OpInherit }
}

/// The number of operand bytes that follow `op` in the instruction stream,
/// as the compiler's bytecode rewriting walks it.
pub open spec fn spec_operand_width(op: OpCode) -> nat {
    match op {
        OpCode::OpConstant | OpCode::OpDefineGlobal | OpCode::OpGetGlobal | OpCode::OpSetGlobal
        | OpCode::OpCall | OpCode::OpGetLocal | OpCode::OpSetLocal | OpCode::OpGetUpvalue
        | OpCode::OpSetUpvalue | OpCode::OpMakeFunction => 1,
        OpCode::OpIterNext | OpCode::OpLoop | OpCode::OpJumpIfFalse | OpCode::OpJump => 2,
        OpCode::OpZip => 3,
        _ => 0,
    }
}

impl OpCode {
    /// Decodes an opcode byte. Only bytes below [`OPCODE_COUNT`] encode an opcode.
    pub fn from(byte: u8) -> (op: OpCode)
        requires
            byte < OPCODE_COUNT,
        ensures
            op == opcode_of_byte(byte),
            opcode_byte(op) == byte,
    {
        match byte {
            0 => OpCode::OpConstant,
            1 => OpCode::OpAdd,
            2 => OpCode::OpDivide,
            3 => OpCode::OpSubtract,
            4 => OpCode::OpDefineGlobal,
            5 => OpCode::OpGetGlobal,
            6 => OpCode::OpSetGlobal,
            7 => OpCode::OpPrintSpaced,
            8 => OpCode::OpPrint,
            9 => OpCode::OpReturn,
            10 => OpCode::OpPop,
            11 => OpCode::OpPrintln,
            12 => OpCode::OpIndex,
            13 => OpCode::OpLen,
            14 => OpCode::OpAppend,
            15 => OpCode::OpRound,
            16 => OpCode::OpIterNext,
            17 => OpCode::OpLoop,
            18 => OpCode::OpJumpIfFalse,
            19 => OpCode::OpJump,
            20 => OpCode::OpSetIndex,
            21 => OpCode::OpDup,
            22 => OpCode::OpContains,
            23 => OpCode::OpSwap,
            24 => OpCode::OpMultiply,
            25 => OpCode::OpRange,
            26 => OpCode::OpLess,
            27 => OpCode::OpSlice,
            28 => OpCode::OpModulo,
            29 => OpCode::OpEqual,
            30 => OpCode::OpToList,
            31 => OpCode::OpZip,
            32 => OpCode::OpStrLower,
            33 => OpCode::OpStrIsAlnum,
            34 => OpCode::OpStrJoin,
            35 => OpCode::OpCall,
            36 => OpCode::OpGetLocal,
            37 => OpCode::OpSetLocal,
            38 => OpCode::OpMakeFunction,
            39 => OpCode::OpGetUpvalue,
            40 => OpCode::OpSetUpvalue,
            41 => OpCode::OpMakeClass,
            42 => OpCode::OpGetAttr,
            43 => OpCode::OpSetAttr,
            _ => OpCode::OpInherit,
        }
    }

    /// Decodes a byte, or gives `None` for a byte that encodes no opcode.
    pub fn try_from_byte(byte: u8) -> (op: Option<OpCode>)
        ensures
            byte < OPCODE_COUNT ==> op == Some(opcode_of_byte(byte)),
            byte >= OPCODE_COUNT ==> op.is_none(),
    {
        if byte < OPCODE_COUNT {
            Some(OpCode::from(byte))
        } else {
            None
        }
    }

    /// The byte that encodes this opcode.
    pub fn to_byte(self) -> (byte: u8)
        ensures
            byte == opcode_byte(self),
            byte < OPCODE_COUNT,
    {
        match self {
            OpCode::OpConstant => 0,
            OpCode::OpAdd => 1,
            OpCode::OpDivide => 2,
            OpCode::OpSubtract => 3,
            OpCode::OpDefineGlobal => 4,
            OpCode::OpGetGlobal => 5,
            OpCode::OpSetGlobal => 6,
            OpCode::OpPrintSpaced => 7,
            OpCode::OpPrint => 8,
            OpCode::OpReturn => 9,
            OpCode::OpPop => 10,
            OpCode::OpPrintln => 11,
            OpCode::OpIndex => 12,
            OpCode::OpLen => 13,
            OpCode::OpAppend => 14,
            OpCode::OpRound => 15,
            OpCode::OpIterNext => 16,
            OpCode::OpLoop => 17,
            OpCode::OpJumpIfFalse => 18,
            OpCode::OpJump => 19,
            OpCode::OpSetIndex => 20,
            OpCode::OpDup => 21,
            OpCode::OpContains => 22,
            OpCode::OpSwap => 23,
            OpCode::OpMultiply => 24,
            OpCode::OpRange => 25,
            OpCode::OpLess => 26,
            OpCode::OpSlice => 27,
            OpCode::OpModulo => 28,
            OpCode::OpEqual => 29,
            OpCode::OpToList => 30,
            OpCode::OpZip => 31,
            OpCode::OpStrLower => 32,
            OpCode::OpStrIsAlnum => 33,
            OpCode::OpStrJoin => 34,
            OpCode::OpCall => 35,
            OpCode::OpGetLocal => 36,
            OpCode::OpSetLocal => 37,
            OpCode::OpGetUpvalue => 39,
            OpCode::OpSetUpvalue => 40,
            OpCode::OpMakeFunction => 38,
            OpCode::OpMakeClass => 41,
            OpCode::OpGetAttr => 42,
            OpCode::OpSetAttr => 43,
            OpCode::OpInherit => 44,
        }
    }

    /// The number of operand bytes that follow this opcode.
    pub fn operand_width(self) -> (width: usize)
        ensures
            width == spec_operand_width(self),
            width <= 3,
    {
        match self {
            OpCode::OpConstant | OpCode::OpDefineGlobal | OpCode::OpGetGlobal
            | OpCode::OpSetGlobal | OpCode::OpCall | OpCode::OpGetLocal | OpCode::OpSetLocal
            | OpCode::OpGetUpvalue | OpCode::OpSetUpvalue | OpCode::OpMakeFunction => 1,
            OpCode::OpIterNext | OpCode::OpLoop | OpCode::OpJumpIfFalse | OpCode::OpJump => 2,
            OpCode::OpZip => 3,
            _ => 0,
        }
    }
}

/// Decoding the byte of an opcode gives that opcode back.
pub proof fn lemma_opcode_byte_roundtrip(op: OpCode)
    ensures
        opcode_byte(op) < OPCODE_COUNT,
        opcode_of_byte(opcode_byte(op)) == op,
{
}

/// Every byte below [`OPCODE_COUNT`] is the byte of the opcode it decodes to.
pub proof fn lemma_byte_opcode_roundtrip(byte: u8)
    requires
        byte < OPCODE_COUNT,
    ensures
        opcode_byte(opcode_of_byte(byte)) == byte,
{
}

/// Distinct opcodes are encoded by distinct bytes.
pub proof fn lemma_opcode_byte_injective(a: OpCode, b: OpCode)
    requires
        opcode_byte(a) == opcode_byte(b),
    ensures
        a == b,
{
    lemma_opcode_byte_roundtrip(a);
    lemma_opcode_byte_roundtrip(b);
}

} // verus!
