//! The instruction set of the virtual machine and its byte encoding.

use vstd::prelude::*;
use vstd::std_specs::convert::FromSpecImpl;
use vstd::std_specs::convert::TryFromSpecImpl;
use vstd::string::*;
use crate::text::{append_decimal, decimal};

verus! {

/// One instruction of a chunk; each is stored as one byte, followed by its operands.
#[derive(Copy, Clone, Debug, PartialEq, Eq, Structural)]
pub enum OpCode {
    OpReturn,
    OpConstant,
    OpConstantLong,
    OpNegate,
    OpAdd,
    OpSub,
    OpMul,
    OpDiv,
    OpNil,
    OpTrue,
    OpFalse,
    OpNot,
    OpEqual,
    OpGreater,
    OpLess,
    OpPrint,
    OpPop,
    OpDefineGlobal,
    OpGetGlobal,
    OpSetGlobal,
    OpDefineGlobalLong,
    OpGetGlobalLong,
    OpSetGlobalLong,
}

/// The byte that encodes an instruction.
pub open spec fn opcode_byte(op: OpCode) -> u8 {
    match op {
        OpCode::OpReturn => 0,
        OpCode::OpConstant => 1,
        OpCode::OpConstantLong => 2,
        OpCode::OpNegate => 3,
        OpCode::OpAdd => 4,
        OpCode::OpSub => 5,
        OpCode::OpMul => 6,
        OpCode::OpDiv => 7,
        OpCode::OpNil => 8,
        OpCode::OpTrue => 9,
        OpCode::OpFalse => 10,
        OpCode::OpNot => 11,
        OpCode::OpEqual => 12,
        OpCode::OpGreater => 13,
        OpCode::OpLess => 14,
        OpCode::OpPrint => 15,
        OpCode::OpPop => 16,
        OpCode::OpDefineGlobal => 17,
        OpCode::OpGetGlobal => 18,
        OpCode::OpSetGlobal => 19,
        OpCode::OpDefineGlobalLong => 20,
        OpCode::OpGetGlobalLong => 21,
        OpCode::OpSetGlobalLong => 22,
    }
}

/// The instruction that a byte encodes, if it encodes one.
pub open spec fn opcode_of_byte(b: u8) -> Option<OpCode> {
    if b == 0 { Some(OpCode::OpReturn) }
    else if b == 1 { Some(OpCode::OpConstant) }
    else if b == 2 { Some(OpCode::OpConstantLong) }
    else if b == 3 { Some(OpCode::OpNegate) }
    else if b == 4 { Some(OpCode::OpAdd) }
    else if b == 5 { Some(OpCode::OpSub) }
    else if b == 6 { Some(OpCode::OpMul) }
    else if b == 7 { Some(OpCode::OpDiv) }
    else if b == 8 { Some(OpCode::OpNil) }
    else if b == 9 { Some(OpCode::OpTrue) }
    else if b == 10 { Some(OpCode::OpFalse) }
    else if b == 11 { Some(OpCode::OpNot) }
    else if b == 12 { Some(OpCode::OpEqual) }
    else if b == 13 { Some(OpCode::OpGreater) }
    else if b == 14 { Some(OpCode::OpLess) }
    else if b == 15 { Some(OpCode::OpPrint) }
    else if b == 16 { Some(OpCode::OpPop) }
    else if b == 17 { Some(OpCode::OpDefineGlobal) }
    else if b == 18 { Some(OpCode::OpGetGlobal) }
    else if b == 19 { Some(OpCode::OpSetGlobal) }
    else if b == 20 { Some(OpCode::OpDefineGlobalLong) }
    else if b == 21 { Some(OpCode::OpGetGlobalLong) }
    else if b == 22 { Some(OpCode::OpSetGlobalLong) }
    else { None }
}

/// The message of a byte that encodes no instruction.
pub open spec fn unknown_opcode_message(b: u8) -> Seq<char> {
    "Unknown opcode: "@ + decimal(b as nat)
}

/// Every instruction's byte decodes back to the instruction, and a byte that
/// decodes encodes what it decodes to.
pub proof fn opcode_round_trip(op: OpCode, b: u8)
    ensures
        opcode_of_byte(opcode_byte(op)) == Some(op),
        opcode_of_byte(b) == Some(op) ==> opcode_byte(op) == b,
        opcode_of_byte(b) is None <==> b > 22,
{
}

/// The name under which the disassembler shows an instruction.
pub open spec fn opcode_name_spec(op: OpCode) -> &'static str {
    match op {
        OpCode::OpReturn => "OP_RETURN",
        OpCode::OpConstant => "OP_CONSTANT",
        OpCode::OpConstantLong => "OP_CONSTANT_LONG",
        OpCode::OpNegate => "OP_NEGATE",
        OpCode::OpAdd => "OP_ADD",
        OpCode::OpSub => "OP_SUBTRACT",
        OpCode::OpMul => "OP_MULTI",
        OpCode::OpDiv => "OP_DIV",
        OpCode::OpNil => "OP_NIL",
        OpCode::OpTrue => "OP_TRUE",
        OpCode::OpFalse => "OP_FALSE",
        OpCode::OpNot => "OP_NOT",
        OpCode::OpEqual => "OP_EQUAL",
        OpCode::OpGreater => "OP_GREATER",
        OpCode::OpLess => "OP_LESS",
        OpCode::OpPrint => "OP_PRINT",
        OpCode::OpPop => "OP_POP",
        OpCode::OpDefineGlobal => "OP_DEFINE_GLOBAL",
        OpCode::OpGetGlobal => "OP_GET_GLOBAL",
        OpCode::OpSetGlobal => "OP_SET_GLOBAL",
        OpCode::OpDefineGlobalLong => "OP_DEFINE_GLOBAL_LONG",
        OpCode::OpGetGlobalLong => "OP_GET_GLOBAL_LONG",
        OpCode::OpSetGlobalLong => "OP_SET_GLOBAL_LONG",
    }
}

impl OpCode {
    /// The name under which the disassembler shows the instruction.
    pub fn name(self) -> (s: &'static str)
        ensures
            s == opcode_name_spec(self),
    {
        match self {
            OpCode::OpReturn => "OP_RETURN",
            OpCode::OpConstant => "OP_CONSTANT",
            OpCode::OpConstantLong => "OP_CONSTANT_LONG",
            OpCode::OpNegate => "OP_NEGATE",
            OpCode::OpAdd => "OP_ADD",
            OpCode::OpSub => "OP_SUBTRACT",
            OpCode::OpMul => "OP_MULTI",
            OpCode::OpDiv => "OP_DIV",
            OpCode::OpNil => "OP_NIL",
            OpCode::OpTrue => "OP_TRUE",
            OpCode::OpFalse => "OP_FALSE",
            OpCode::OpNot => "OP_NOT",
            OpCode::OpEqual => "OP_EQUAL",
            OpCode::OpGreater => "OP_GREATER",
            OpCode::OpLess => "OP_LESS",
            OpCode::OpPrint => "OP_PRINT",
            OpCode::OpPop => "OP_POP",
            OpCode::OpDefineGlobal => "OP_DEFINE_GLOBAL",
            OpCode::OpGetGlobal => "OP_GET_GLOBAL",
            OpCode::OpSetGlobal => "OP_SET_GLOBAL",
            OpCode::OpDefineGlobalLong => "OP_DEFINE_GLOBAL_LONG",
            OpCode::OpGetGlobalLong => "OP_GET_GLOBAL_LONG",
            OpCode::OpSetGlobalLong => "OP_SET_GLOBAL_LONG",
        }
    }
}

impl From<OpCode> for u8 {
    fn from(op: OpCode) -> (b: u8) {
        match op {
            OpCode::OpReturn => 0,
            OpCode::OpConstant => 1,
            OpCode::OpConstantLong => 2,
            OpCode::OpNegate => 3,
            OpCode::OpAdd => 4,
            OpCode::OpSub => 5,
            OpCode::OpMul => 6,
            OpCode::OpDiv => 7,
            OpCode::OpNil => 8,
            OpCode::OpTrue => 9,
            OpCode::OpFalse => 10,
            OpCode::OpNot => 11,
            OpCode::OpEqual => 12,
            OpCode::OpGreater => 13,
            OpCode::OpLess => 14,
            OpCode::OpPrint => 15,
            OpCode::OpPop => 16,
            OpCode::OpDefineGlobal => 17,
            OpCode::OpGetGlobal => 18,
            OpCode::OpSetGlobal => 19,
            OpCode::OpDefineGlobalLong => 20,
            OpCode::OpGetGlobalLong => 21,
            OpCode::OpSetGlobalLong => 22,
        }
    }
}

impl FromSpecImpl<OpCode> for u8 {
    open spec fn obeys_from_spec() -> bool {
        true
    }

    open spec fn from_spec(op: OpCode) -> u8 {
        opcode_byte(op)
    }
}

impl TryFrom<u8> for OpCode {
    type Error = String;

    fn try_from(value: u8) -> (r: Result<OpCode, String>)
        ensures
            opcode_of_byte(value) is Some ==> r == Ok::<OpCode, String>(opcode_of_byte(value)->0),
            opcode_of_byte(value) is None ==> (r matches Err(msg) && msg@ == unknown_opcode_message(value)),
    {
        match value {
            0 => Ok(OpCode::OpReturn),
            1 => Ok(OpCode::OpConstant),
            2 => Ok(OpCode::OpConstantLong),
            3 => Ok(OpCode::OpNegate),
            4 => Ok(OpCode::OpAdd),
            5 => Ok(OpCode::OpSub),
            6 => Ok(OpCode::OpMul),
            7 => Ok(OpCode::OpDiv),
            8 => Ok(OpCode::OpNil),
            9 => Ok(OpCode::OpTrue),
            10 => Ok(OpCode::OpFalse),
            11 => Ok(OpCode::OpNot),
            12 => Ok(OpCode::OpEqual),
            13 => Ok(OpCode::OpGreater),
            14 => Ok(OpCode::OpLess),
            15 => Ok(OpCode::OpPrint),
            16 => Ok(OpCode::OpPop),
            17 => Ok(OpCode::OpDefineGlobal),
            18 => Ok(OpCode::OpGetGlobal),
            19 => Ok(OpCode::OpSetGlobal),
            20 => Ok(OpCode::OpDefineGlobalLong),
            21 => Ok(OpCode::OpGetGlobalLong),
            22 => Ok(OpCode::OpSetGlobalLong),
            _ => {
                let mut msg = String::from_str("Unknown opcode: ");
                proof {
                    reveal_strlit("Unknown opcode: ");
                }
                append_decimal(&mut msg, value as u64);
                Err(msg)
            },
        }
    }
}

/// The error of a failed conversion is a `String` built at run time, which no spec
/// value can name; the conversion is therefore specified by the `ensures` of
/// `try_from` itself rather than by `try_from_spec`.
impl TryFromSpecImpl<u8> for OpCode {
    open spec fn obeys_try_from_spec() -> bool {
        false
    }

    open spec fn try_from_spec(b: u8) -> Result<OpCode, String> {
        arbitrary()
    }
}

} // verus!
