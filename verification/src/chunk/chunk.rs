//! A chunk of bytecode: the instruction bytes, the constant pool and the line
//! table.

use vstd::prelude::*;
use crate::chunk::bytecode::{OpCode, opcode_byte, opcode_of_byte, opcode_round_trip};
use crate::chunk::line::{
    Lines,
    can_count,
    lemma_can_count_step,
    lemma_with_line_times,
    lines_wf,
    total_count,
    with_line,
    with_line_times,
};
use crate::chunk::value::{Value, ValueArray, vec_capacity};

verus! {

/// The three operand bytes that encode a constant index: low, middle and high
/// byte. Indices from 2^24 on keep only their low 24 bits.
pub open spec fn long_operand(idx: usize) -> Seq<u8> {
    seq![(idx & 0xff) as u8, ((idx & 0xff00) >> 8) as u8, ((idx & 0xff0000) >> 16) as u8]
}

/// The index that three operand bytes encode.
pub open spec fn decode_long_operand(low: u8, medium: u8, high: u8) -> usize {
    (((high as usize) << 16) + ((medium as usize) << 8) + low as usize) as usize
}

/// The bytes that load the constant at `idx`: the one-byte form below 255
/// constants, the three-byte form after.
pub open spec fn constant_instruction(count_before: nat, idx: usize) -> Seq<u8> {
    if count_before >= 255 {
        seq![opcode_byte(OpCode::OpConstantLong)] + long_operand(idx)
    } else {
        seq![opcode_byte(OpCode::OpConstant), idx as u8]
    }
}

/// The bytes of a global-variable instruction for the name constant `idx`:
/// the short form with a one-byte operand up to 255, the long form after.
pub open spec fn global_instruction(short_op: OpCode, long_op: OpCode, idx: usize) -> Seq<u8> {
    if idx <= 255 {
        seq![opcode_byte(short_op), idx as u8]
    } else {
        seq![opcode_byte(long_op)] + long_operand(idx)
    }
}

/// Decoding the three operand bytes gives back the index, modulo 2^24.
pub proof fn long_operand_round_trip(idx: usize)
    ensures
        decode_long_operand(long_operand(idx)[0], long_operand(idx)[1], long_operand(idx)[2])
            == idx % 0x100_0000,
{
    let low = (idx & 0xff) as u8;
    let medium = ((idx & 0xff00) >> 8) as u8;
    let high = ((idx & 0xff0000) >> 16) as u8;
    assert((((high as usize) << 16) + ((medium as usize) << 8) + low as usize) as usize == idx
        & 0xff_ffff) by (bit_vector)
        requires
            low == (idx & 0xff) as u8,
            medium == ((idx & 0xff00) >> 8) as u8,
            high == ((idx & 0xff0000) >> 16) as u8,
    ;
    assert(idx & 0xff_ffff == idx % 0x100_0000) by (bit_vector);
}

/// The number of operand bytes that follow an instruction.
pub open spec fn operand_len(op: OpCode) -> int {
    match op {
        OpCode::OpConstant | OpCode::OpDefineGlobal | OpCode::OpGetGlobal | OpCode::OpSetGlobal => 1,
        OpCode::OpConstantLong | OpCode::OpDefineGlobalLong | OpCode::OpGetGlobalLong
        | OpCode::OpSetGlobalLong => 3,
        _ => 0,
    }
}

/// The instruction at `i` is complete, and names an existing constant if it
/// has an operand.
pub open spec fn instruction_ok(code: Seq<u8>, nconsts: nat, i: int) -> bool {
    &&& 0 <= i < code.len()
    &&& opcode_of_byte(code[i]) is Some
    &&& i + 1 + operand_len(opcode_of_byte(code[i])->0) <= code.len()
    &&& operand_len(opcode_of_byte(code[i])->0) == 1 ==> code[i + 1] < nconsts
    &&& operand_len(opcode_of_byte(code[i])->0) == 3 ==> decode_long_operand(
        code[i + 1],
        code[i + 2],
        code[i + 3],
    ) < nconsts
}

/// From offset `i` on, `code` is a sequence of complete instructions whose
/// operands name existing constants; it ends exactly at the end of `code`.
pub open spec fn decodes_from(code: Seq<u8>, nconsts: nat, i: int) -> bool
    decreases code.len() - i,
{
    if i < 0 || i > code.len() {
        false
    } else if i == code.len() {
        true
    } else {
        instruction_ok(code, nconsts, i) && decodes_from(
            code,
            nconsts,
            i + 1 + operand_len(opcode_of_byte(code[i])->0),
        )
    }
}

/// The whole of `code` decodes into instructions.
pub open spec fn decodes(code: Seq<u8>, nconsts: nat) -> bool {
    decodes_from(code, nconsts, 0)
}

proof fn lemma_decodes_shift(a: Seq<u8>, b: Seq<u8>, n: nat, j: int)
    requires
        0 <= j <= b.len(),
        decodes_from(b, n, j),
    ensures
        decodes_from(a + b, n, a.len() + j),
    decreases b.len() - j,
{
    let ab = a + b;
    if j < b.len() {
        let op = opcode_of_byte(b[j])->0;
        assert(ab[a.len() + j] == b[j]);
        if operand_len(op) >= 1 {
            assert(ab[a.len() + j + 1] == b[j + 1]);
        }
        if operand_len(op) == 3 {
            assert(ab[a.len() + j + 2] == b[j + 2]);
            assert(ab[a.len() + j + 3] == b[j + 3]);
        }
        lemma_decodes_shift(a, b, n, j + 1 + operand_len(op));
    }
}

proof fn lemma_decodes_append_from(a: Seq<u8>, b: Seq<u8>, n: nat, i: int)
    requires
        0 <= i <= a.len(),
        decodes_from(a, n, i),
        decodes(b, n),
    ensures
        decodes_from(a + b, n, i),
    decreases a.len() - i,
{
    let ab = a + b;
    if i == a.len() {
        lemma_decodes_shift(a, b, n, 0);
    } else {
        let op = opcode_of_byte(a[i])->0;
        assert(ab[i] == a[i]);
        if operand_len(op) >= 1 {
            assert(ab[i + 1] == a[i + 1]);
        }
        if operand_len(op) == 3 {
            assert(ab[i + 2] == a[i + 2]);
            assert(ab[i + 3] == a[i + 3]);
        }
        lemma_decodes_append_from(a, b, n, i + 1 + operand_len(op));
    }
}

/// The operand that decoding the instruction at `i` of `code` reads: the byte
/// after an opcode with a one-byte operand, the three bytes after one with a
/// long operand; none for other opcodes or bytes that encode none.
pub open spec fn operand_at(code: Seq<u8>, i: int) -> Option<int> {
    match opcode_of_byte(code[i]) {
        None => None,
        Some(op) => if operand_len(op) == 1 {
            Some(code[i + 1] as int)
        } else if operand_len(op) == 3 {
            Some(decode_long_operand(code[i + 1], code[i + 2], code[i + 3]) as int)
        } else {
            None
        },
    }
}

/// A global-variable instruction names its constant: for every index that
/// three bytes can hold, the instruction is complete and decoding it gives
/// the index back; an index that fits in a byte takes the two-byte form.
pub proof fn global_instruction_names_its_constant(short_op: OpCode, long_op: OpCode, idx: usize)
    requires
        operand_len(short_op) == 1,
        operand_len(long_op) == 3,
        idx < 0x100_0000,
    ensures
        ({
            let code = global_instruction(short_op, long_op, idx);
            &&& code.len() > 0
            &&& opcode_of_byte(code[0]) is Some
            &&& code.len() == 1 + operand_len(opcode_of_byte(code[0])->0)
            &&& operand_at(code, 0) == Some(idx as int)
            &&& idx <= 255 ==> code.len() == 2
        }),
{
    opcode_round_trip(short_op, 0);
    opcode_round_trip(long_op, 0);
    long_operand_round_trip(idx);
    assert(idx % 0x100_0000 == idx);
}

/// The instruction that loads constant `n`, written after `n` constants,
/// names it: for every index that three bytes can hold, the instruction is
/// complete and decoding it gives `n` back; below 255 constants it takes the
/// two-byte form.
pub proof fn constant_instruction_names_its_constant(n: nat)
    requires
        n < 0x100_0000,
    ensures
        ({
            let code = constant_instruction(n, n as usize);
            &&& code.len() > 0
            &&& opcode_of_byte(code[0]) is Some
            &&& code.len() == 1 + operand_len(opcode_of_byte(code[0])->0)
            &&& operand_at(code, 0) == Some(n as int)
            &&& n < 255 ==> code.len() == 2
        }),
{
    opcode_round_trip(OpCode::OpConstant, 0);
    opcode_round_trip(OpCode::OpConstantLong, 0);
    long_operand_round_trip(n as usize);
    assert((n as usize) % 0x100_0000 == n);
}

/// Appending decodable code to decodable code gives decodable code.
pub proof fn lemma_decodes_append(a: Seq<u8>, b: Seq<u8>, n: nat)
    requires
        decodes(a, n),
        decodes(b, n),
    ensures
        decodes(a + b, n),
{
    lemma_decodes_append_from(a, b, n, 0);
}

proof fn lemma_decodes_more_constants_from(code: Seq<u8>, n: nat, m: nat, i: int)
    requires
        n <= m,
        decodes_from(code, n, i),
    ensures
        decodes_from(code, m, i),
    decreases code.len() - i,
{
    if 0 <= i < code.len() {
        lemma_decodes_more_constants_from(
            code,
            n,
            m,
            i + 1 + operand_len(opcode_of_byte(code[i])->0),
        );
    }
}

/// Code that decodes against some constants decodes against more.
pub proof fn lemma_decodes_more_constants(code: Seq<u8>, n: nat, m: nat)
    requires
        n <= m,
        decodes(code, n),
    ensures
        decodes(code, m),
{
    lemma_decodes_more_constants_from(code, n, m, 0);
}

/// The number of bytes of an instruction, its operand included.
pub fn instruction_len(op: OpCode) -> (n: usize)
    ensures
        n == 1 + operand_len(op),
{
    match op {
        OpCode::OpConstant | OpCode::OpDefineGlobal | OpCode::OpGetGlobal | OpCode::OpSetGlobal => 2,
        OpCode::OpConstantLong | OpCode::OpDefineGlobalLong | OpCode::OpGetGlobalLong
        | OpCode::OpSetGlobalLong => 4,
        _ => 1,
    }
}

/// An instruction without operand decodes.
pub proof fn lemma_simple_instruction_decodes(op: OpCode, n: nat)
    requires
        operand_len(op) == 0,
    ensures
        decodes(seq![opcode_byte(op)], n),
{
    opcode_round_trip(op, 0);
    let code = seq![opcode_byte(op)];
    assert(decodes_from(code, n, 1));
}

/// The instruction that loads a new constant decodes once the constant is
/// added.
pub proof fn lemma_constant_instruction_decodes(count: nat)
    requires
        count <= usize::MAX,
    ensures
        decodes(constant_instruction(count, count as usize), count + 1),
{
    let code = constant_instruction(count, count as usize);
    if count >= 255 {
        opcode_round_trip(OpCode::OpConstantLong, 0);
        long_operand_round_trip(count as usize);
        assert(decodes_from(code, count + 1, 4));
    } else {
        opcode_round_trip(OpCode::OpConstant, 0);
        assert(decodes_from(code, count + 1, 2));
    }
}

/// A global-variable instruction decodes if it names an existing constant.
pub proof fn lemma_global_instruction_decodes(short_op: OpCode, long_op: OpCode, idx: usize, n: nat)
    requires
        operand_len(short_op) == 1,
        operand_len(long_op) == 3,
        idx < n,
    ensures
        decodes(global_instruction(short_op, long_op, idx), n),
{
    let code = global_instruction(short_op, long_op, idx);
    if idx <= 255 {
        opcode_round_trip(short_op, 0);
        assert(decodes_from(code, n, 2));
    } else {
        opcode_round_trip(long_op, 0);
        long_operand_round_trip(idx);
        assert(decodes_from(code, n, 4));
    }
}

/// Appending a decodable instruction, with its line recorded, keeps a chunk's
/// parts consistent.
pub proof fn lemma_append_keeps_ok(
    code: Seq<u8>,
    n: nat,
    lines: Seq<(u32, u32)>,
    instr: Seq<u8>,
    m: nat,
    line: u32,
)
    requires
        lines_wf(lines),
        total_count(lines) == code.len(),
        decodes(code, n),
        decodes(instr, m),
        n <= m,
        can_count(lines, line, instr.len()),
    ensures
        lines_wf(with_line_times(lines, line, instr.len())),
        total_count(with_line_times(lines, line, instr.len())) == (code + instr).len(),
        decodes(code + instr, m),
{
    lemma_with_line_times(lines, line, instr.len());
    lemma_decodes_more_constants(code, n, m);
    lemma_decodes_append(code, instr, m);
}

/// A chunk: instruction bytes, constants, and for each byte its source line.
#[derive(Debug, Clone)]
pub struct Chunk {
    pub code: Vec<u8>,
    capacity: u32,
    value_array: ValueArray,
    lines: Lines,
}

impl Chunk {
    /// The instruction bytes of the chunk.
    pub closed spec fn bytes(&self) -> Seq<u8> {
        self.code@
    }

    /// The constants of the chunk.
    pub closed spec fn constants(&self) -> Seq<Value> {
        self.value_array@
    }

    /// The line table of the chunk.
    pub closed spec fn line_table(&self) -> Seq<(u32, u32)> {
        self.lines@
    }

    /// The parts agree: the line table counts every byte once, and the bytes
    /// decode into instructions whose operands name existing constants.
    pub open spec fn ok(&self) -> bool {
        &&& total_count(self.line_table()) == self.bytes().len()
        &&& lines_wf(self.line_table())
        &&& decodes(self.bytes(), self.constants().len())
        &&& self.constants().len() <= usize::MAX
    }

    /// An empty chunk.
    pub fn new() -> (c: Self)
        ensures
            c.bytes() == Seq::<u8>::empty(),
            c.constants() == Seq::<Value>::empty(),
            c.line_table() == Seq::<(u32, u32)>::empty(),
            c.ok(),
    {
        proof {
            assert(decodes(Seq::<u8>::empty(), 0));
            assert(total_count(Seq::<(u32, u32)>::empty()) == 0);
        }
        Chunk { code: Vec::new(), capacity: 0, value_array: ValueArray::new(), lines: Lines::new() }
    }

    fn update_capacity(&mut self)
        ensures
            final(self).code == old(self).code,
            final(self).value_array == old(self).value_array,
            final(self).lines == old(self).lines,
    {
        self.capacity = vec_capacity(&self.code) as u32;
    }

    /// Appends one byte, written for source line `line`.
    pub fn write_chunk(&mut self, byte: u8, line: u32)
        requires
            can_count(old(self).line_table(), line, 1),
        ensures
            final(self).bytes() == old(self).bytes().push(byte),
            final(self).constants() == old(self).constants(),
            final(self).line_table() == with_line(old(self).line_table(), line),
    {
        self.code.push(byte);
        self.lines.add_line(line);
        self.update_capacity();
    }

    /// Adds `value` to the constants and appends the instruction that loads
    /// it; returns the offset of the instruction's last byte.
    pub fn write_constant(&mut self, value: Value, line: u32) -> (last: usize)
        requires
            can_count(
                old(self).line_table(),
                line,
                constant_instruction(
                    old(self).constants().len(),
                    old(self).constants().len() as usize,
                ).len(),
            ),
        ensures
            final(self).bytes() == old(self).bytes() + constant_instruction(
                old(self).constants().len(),
                old(self).constants().len() as usize,
            ),
            final(self).constants() == old(self).constants().push(value),
            final(self).line_table() == with_line_times(
                old(self).line_table(),
                line,
                constant_instruction(
                    old(self).constants().len(),
                    old(self).constants().len() as usize,
                ).len(),
            ),
            last == final(self).bytes().len() - 1,
            final(self).constants().len() <= usize::MAX,
    {
        let ghost lines0 = self.lines@;
        if self.value_array.count() >= 255 {
            self.code.push(u8::from(OpCode::OpConstantLong));
            self.value_array.write_value(value);
            let idx = self.value_array.count() - 1;
            let low: u8 = (idx & 0xff) as u8;
            let medium: u8 = ((idx & 0xff00) >> 8) as u8;
            let high: u8 = ((idx & 0xff0000) >> 16) as u8;
            proof {
                lemma_can_count_step(lines0, line, 3);
                lemma_can_count_step(with_line(lines0, line), line, 2);
                lemma_can_count_step(with_line(with_line(lines0, line), line), line, 1);
            }
            self.write_chunk(low, line);
            self.write_chunk(medium, line);
            self.write_chunk(high, line);
        } else {
            self.code.push(u8::from(OpCode::OpConstant));
            self.value_array.write_value(value);
            let idx: u8 = self.value_array.count() as u8 - 1;
            proof {
                lemma_can_count_step(lines0, line, 1);
            }
            self.write_chunk(idx, line);
        }
        proof {
            reveal_with_fuel(with_line_times, 5);
        }
        self.lines.add_line(line);
        self.update_capacity();
        proof {
            assert(self.code@ =~= old(self).bytes() + constant_instruction(
                old(self).constants().len(),
                old(self).constants().len() as usize,
            ));
        }
        self.code.len() - 1
    }

    /// Adds `value` to the constants only; returns its index.
    pub fn add_constant(&mut self, value: Value) -> (idx: usize)
        ensures
            final(self).bytes() == old(self).bytes(),
            final(self).constants() == old(self).constants().push(value),
            final(self).line_table() == old(self).line_table(),
            idx == old(self).constants().len(),
            final(self).constants().len() <= usize::MAX,
    {
        self.value_array.write_value(value);
        self.value_array.count() - 1
    }

    /// Appends the instruction `short_op` or `long_op` for the name constant
    /// `idx`, whichever form the index needs.
    pub fn write_global_op(&mut self, short_op: OpCode, long_op: OpCode, idx: usize, line: u32)
        requires
            can_count(
                old(self).line_table(),
                line,
                global_instruction(short_op, long_op, idx).len(),
            ),
        ensures
            final(self).bytes() == old(self).bytes() + global_instruction(short_op, long_op, idx),
            final(self).constants() == old(self).constants(),
            final(self).line_table() == with_line_times(
                old(self).line_table(),
                line,
                global_instruction(short_op, long_op, idx).len(),
            ),
    {
        let ghost lines0 = self.lines@;
        proof {
            reveal_with_fuel(with_line_times, 5);
        }
        if idx <= 255 {
            proof {
                lemma_can_count_step(lines0, line, 1);
            }
            self.write_chunk(u8::from(short_op), line);
            self.write_chunk(idx as u8, line);
        } else {
            proof {
                lemma_can_count_step(lines0, line, 3);
                lemma_can_count_step(with_line(lines0, line), line, 2);
                lemma_can_count_step(with_line(with_line(lines0, line), line), line, 1);
            }
            self.write_chunk(u8::from(long_op), line);
            let low: u8 = (idx & 0xFF) as u8;
            let medium: u8 = ((idx >> 8) & 0xFF) as u8;
            let high: u8 = ((idx >> 16) & 0xFF) as u8;
            assert(medium == ((idx & 0xff00) >> 8) as u8 && high == ((idx & 0xff0000) >> 16) as u8)
                by (bit_vector)
                requires
                    medium == ((idx >> 8) & 0xFF) as u8,
                    high == ((idx >> 16) & 0xFF) as u8,
            ;
            self.write_chunk(low, line);
            self.write_chunk(medium, line);
            self.write_chunk(high, line);
        }
        proof {
            assert(self.code@ =~= old(self).bytes() + global_instruction(short_op, long_op, idx));
        }
    }

    /// The instruction at `offset` and its operand, if the byte there encodes
    /// an instruction whose operand bytes are all present.
    pub fn decode_instruction(&self, offset: usize) -> (r: Option<(OpCode, Option<usize>)>)
        ensures
            r is Some <==> (offset < self.bytes().len() && opcode_of_byte(self.bytes()[offset as int])
                is Some && offset + 1 + operand_len(opcode_of_byte(self.bytes()[offset as int])->0)
                <= self.bytes().len()),
            r matches Some((op, operand)) ==> {
                &&& op == opcode_of_byte(self.bytes()[offset as int])->0
                &&& operand_len(op) == 0 ==> operand is None
                &&& operand_len(op) == 1 ==> operand == Some(self.bytes()[offset + 1] as usize)
                &&& operand_len(op) == 3 ==> operand == Some(
                    decode_long_operand(
                        self.bytes()[offset + 1],
                        self.bytes()[offset + 2],
                        self.bytes()[offset + 3],
                    ),
                )
            },
    {
        let code = self.code.as_slice();
        if offset >= code.len() {
            return None;
        }
        let op = match OpCode::try_from(code[offset]) {
            Ok(op) => op,
            Err(_) => {
                return None;
            },
        };
        let rest = code.len() - offset - 1;
        match op {
            OpCode::OpConstant | OpCode::OpDefineGlobal | OpCode::OpGetGlobal
            | OpCode::OpSetGlobal => {
                if rest < 1 {
                    None
                } else {
                    Some((op, Some(code[offset + 1] as usize)))
                }
            },
            OpCode::OpConstantLong | OpCode::OpDefineGlobalLong | OpCode::OpGetGlobalLong
            | OpCode::OpSetGlobalLong => {
                if rest < 3 {
                    None
                } else {
                    let low = code[offset + 1];
                    let medium = code[offset + 2];
                    let high = code[offset + 3];
                    assert(((high as usize) << 16) <= 0xff0000 && ((medium as usize) << 8) <= 0xff00)
                        by (bit_vector);
                    Some((op, Some(((high as usize) << 16) + ((medium as usize) << 8) + low as usize)))
                }
            },
            _ => Some((op, None)),
        }
    }

    /// The instruction bytes.
    pub fn code_bytes(&self) -> (c: &[u8])
        ensures
            c@ == self.bytes(),
    {
        self.code.as_slice()
    }

    /// The constants.
    pub fn value_array(&self) -> (a: &ValueArray)
        ensures
            a@ == self.constants(),
    {
        &self.value_array
    }

    /// The line table.
    pub fn lines(&self) -> (l: &Lines)
        ensures
            l@ == self.line_table(),
    {
        &self.lines
    }
}

} // verus!
