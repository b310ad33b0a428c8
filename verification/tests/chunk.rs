use rlox::chunk::chunk::Chunk;
use rlox::chunk::line::Lines;
use rlox::chunk::obj::{Object, StringTable};
use rlox::chunk::value::{Value, ValueArray};
use rlox::chunk::OpCode;

fn num(x: f64) -> Value {
    Value::Double(x.to_bits())
}

#[test]
fn opcode_bytes_round_trip() {
    for b in 0u8..=22 {
        let op = OpCode::try_from(b).unwrap();
        assert_eq!(u8::from(op), b);
    }
    assert_eq!(u8::from(OpCode::OpReturn), 0);
    assert_eq!(u8::from(OpCode::OpAdd), 4);
    assert_eq!(u8::from(OpCode::OpSetGlobalLong), 22);
    assert_eq!(OpCode::try_from(15), Ok(OpCode::OpPrint));
}

#[test]
fn unknown_opcodes_are_refused() {
    assert_eq!(OpCode::try_from(23), Err(String::from("Unknown opcode: 23")));
    assert_eq!(OpCode::try_from(255), Err(String::from("Unknown opcode: 255")));
}

#[test]
fn opcode_names() {
    assert_eq!(OpCode::OpSub.name(), "OP_SUBTRACT");
    assert_eq!(OpCode::OpConstantLong.name(), "OP_CONSTANT_LONG");
    assert_eq!(OpCode::OpMul.name(), "OP_MULTI");
}

#[test]
fn lines_count_bytes_per_line() {
    let mut lines = Lines::new();
    lines.add_line(1);
    lines.add_line(1);
    lines.add_line(2);
    assert_eq!(lines.get_line(0), Ok(1));
    assert_eq!(lines.get_line(1), Ok(1));
    assert_eq!(lines.get_line(2), Ok(2));
    assert_eq!(
        lines.get_line(3),
        Err(String::from("Line index 3 out of bounds! Not found the bytecode"))
    );
}

#[test]
fn ascending_lines_read_back_byte_by_byte() {
    let recorded: [u32; 8] = [1, 1, 2, 2, 2, 5, 7, 7];
    let mut lines = Lines::new();
    for l in recorded {
        lines.add_line(l);
    }
    for (i, l) in recorded.iter().enumerate() {
        assert_eq!(lines.get_line(i as u32), Ok(*l));
    }
    assert!(lines.get_line(8).is_err());
    assert!(lines.get_line(100).is_err());
}

#[test]
fn lines_reuse_the_entry_of_a_line_seen_before() {
    let mut lines = Lines::new();
    lines.add_line(3);
    lines.add_line(1);
    lines.add_line(3);
    // entries: (3, 2), (1, 1)
    assert_eq!(lines.get_line(0), Ok(3));
    assert_eq!(lines.get_line(1), Ok(3));
    assert_eq!(lines.get_line(2), Ok(1));
    assert!(lines.get_line(3).is_err());
}

#[test]
fn empty_lines_have_no_line() {
    let lines = Lines::new();
    assert_eq!(
        lines.get_line(0),
        Err(String::from("Line index 0 out of bounds! Not found the bytecode"))
    );
}

#[test]
fn write_chunk_appends_bytes() {
    let mut c = Chunk::new();
    c.write_chunk(u8::from(OpCode::OpNil), 1);
    c.write_chunk(u8::from(OpCode::OpReturn), 2);
    assert_eq!(c.code, vec![8, 0]);
    assert_eq!(c.lines().get_line(0), Ok(1));
    assert_eq!(c.lines().get_line(1), Ok(2));
    assert!(c.lines().get_line(2).is_err());
}

#[test]
fn short_and_long_constants() {
    let mut c = Chunk::new();
    let last = c.write_constant(num(1.5), 1);
    assert_eq!(last, 1);
    assert_eq!(c.code, vec![1, 0]);
    for i in 1..255 {
        c.write_constant(num(i as f64), 1);
    }
    assert_eq!(c.value_array().count(), 255);
    assert_eq!(&c.code[c.code.len() - 2..], &[1, 254]);
    let last = c.write_constant(num(-1.0), 1);
    assert_eq!(last, c.code.len() - 1);
    assert_eq!(&c.code[c.code.len() - 4..], &[2, 255, 0, 0]);
    for _ in 0..300 {
        c.write_constant(Value::Nil, 1);
    }
    // constant 555 = 0x22b
    assert_eq!(&c.code[c.code.len() - 4..], &[2, 0x2b, 0x02, 0]);
    assert_eq!(c.decode_instruction(c.code.len() - 4), Some((OpCode::OpConstantLong, Some(555))));
    assert_eq!(c.lines().get_line((c.code.len() - 1) as u32), Ok(1));
}

#[test]
fn add_constant_writes_no_code() {
    let mut c = Chunk::new();
    assert_eq!(c.add_constant(Value::Nil), 0);
    assert_eq!(c.add_constant(Value::Boolean(true)), 1);
    assert!(c.code.is_empty());
    assert_eq!(c.value_array().values().len(), 2);
}

#[test]
fn global_ops_pick_their_form() {
    let mut c = Chunk::new();
    c.write_global_op(OpCode::OpGetGlobal, OpCode::OpGetGlobalLong, 255, 4);
    assert_eq!(c.code, vec![18, 255]);
    c.write_global_op(OpCode::OpSetGlobal, OpCode::OpSetGlobalLong, 0x01_0203, 4);
    assert_eq!(c.code, vec![18, 255, 22, 0x03, 0x02, 0x01]);
    assert_eq!(c.decode_instruction(0), Some((OpCode::OpGetGlobal, Some(255))));
    assert_eq!(c.decode_instruction(2), Some((OpCode::OpSetGlobalLong, Some(0x01_0203))));
    assert_eq!(c.lines().get_line(5), Ok(4));
    assert!(c.lines().get_line(6).is_err());
}

#[test]
fn decode_refuses_incomplete_or_unknown() {
    let mut c = Chunk::new();
    c.write_chunk(u8::from(OpCode::OpConstant), 1);
    assert_eq!(c.decode_instruction(0), None);
    assert_eq!(c.decode_instruction(1), None);
    c.write_chunk(0, 1);
    assert_eq!(c.decode_instruction(0), Some((OpCode::OpConstant, Some(0))));
    assert_eq!(c.decode_instruction(1), Some((OpCode::OpReturn, None)));
    c.write_chunk(99, 1);
    assert_eq!(c.decode_instruction(2), None);
}

#[test]
fn value_array_grows() {
    let mut a = ValueArray::new();
    assert_eq!(a.count(), 0);
    a.write_value(Value::Nil);
    a.write_value(num(2.0));
    assert_eq!(a.count(), 2);
    assert!(a.capacity() >= 2);
    assert_eq!(a.values()[1], num(2.0));
}

#[test]
fn object_string() {
    let o = Object::String(String::from("hello"));
    assert_eq!(o.string(), "hello");
}

#[test]
fn interning_shares_objects() {
    let mut t = StringTable::new();
    let a = t.intern(b"name");
    let b = t.intern(b"other");
    let c = t.intern(b"name");
    assert_eq!(t.len(), 2);
    assert!(std::rc::Rc::ptr_eq(&a, &c));
    assert!(!std::rc::Rc::ptr_eq(&a, &b));
    assert_eq!(c.string(), "name");
}
