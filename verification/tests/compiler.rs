use rlox::chunk::chunk::Chunk;
use rlox::chunk::obj::StringTable;
use rlox::chunk::value::Value;
use rlox::chunk::OpCode;
use rlox::compiler::compiler::{compile, CompileError, ErrorLocation, Parser};
use rlox::compiler::scanner::Scanner;

fn number(text: &[u8]) -> u64 {
    std::str::from_utf8(text).unwrap().parse::<f64>().unwrap().to_bits()
}

fn compile_ok(source: &str) -> Chunk {
    let mut table = StringTable::new();
    let (chunk, errors) = compile(source, &mut table, number);
    assert!(errors.is_empty(), "errors for {:?}", source);
    chunk.unwrap()
}

fn compile_err(source: &str) -> Vec<(i32, String, String)> {
    let mut table = StringTable::new();
    let (chunk, errors) = compile(source, &mut table, number);
    assert!(chunk.is_none());
    errors.iter().map(describe).collect()
}

fn describe(e: &CompileError) -> (i32, String, String) {
    let at = match e.location {
        ErrorLocation::AtEnd => String::from("end"),
        ErrorLocation::Unlocated => String::new(),
        ErrorLocation::Lexeme(l) => String::from_utf8(l.to_vec()).unwrap(),
    };
    (e.line, at, String::from_utf8(e.message.to_vec()).unwrap())
}

fn op(o: OpCode) -> u8 {
    u8::from(o)
}

fn num(x: f64) -> Value {
    Value::Double(x.to_bits())
}

#[test]
fn compiles_addition() {
    let c = compile_ok("1 + 2;\0");
    assert_eq!(
        c.code,
        vec![op(OpCode::OpConstant), 0, op(OpCode::OpConstant), 1, op(OpCode::OpAdd), op(OpCode::OpPop), op(OpCode::OpReturn)]
    );
    assert_eq!(c.value_array().values()[0], num(1.0));
    assert_eq!(c.value_array().values()[1], num(2.0));
}

#[test]
fn precedence_and_associativity() {
    // 1 - 2 - 3 * 4  ==>  (1 - 2) - (3 * 4)
    let c = compile_ok("1 - 2 - 3 * 4;\0");
    assert_eq!(
        c.code,
        vec![1, 0, 1, 1, op(OpCode::OpSub), 1, 2, 1, 3, op(OpCode::OpMul), op(OpCode::OpSub), op(OpCode::OpPop), 0]
    );
    // -1 + 2  ==>  (-1) + 2
    let c = compile_ok("-1 + 2;\0");
    assert_eq!(c.code, vec![1, 0, op(OpCode::OpNegate), 1, 1, op(OpCode::OpAdd), op(OpCode::OpPop), 0]);
    // -(1 + 2)
    let c = compile_ok("-(1 + 2);\0");
    assert_eq!(c.code, vec![1, 0, 1, 1, op(OpCode::OpAdd), op(OpCode::OpNegate), op(OpCode::OpPop), 0]);
}

#[test]
fn comparisons_compile_to_their_instructions() {
    let cases: Vec<(&str, Vec<u8>)> = vec![
        ("1 == 2;\0", vec![op(OpCode::OpEqual)]),
        ("1 != 2;\0", vec![op(OpCode::OpEqual), op(OpCode::OpNot)]),
        ("1 > 2;\0", vec![op(OpCode::OpGreater)]),
        ("1 >= 2;\0", vec![op(OpCode::OpLess), op(OpCode::OpNot)]),
        ("1 < 2;\0", vec![op(OpCode::OpLess)]),
        ("1 <= 2;\0", vec![op(OpCode::OpGreater), op(OpCode::OpNot)]),
        ("1 / 2;\0", vec![op(OpCode::OpDiv)]),
    ];
    for (src, ops) in cases {
        let c = compile_ok(src);
        let mut expected = vec![1, 0, 1, 1];
        expected.extend(ops);
        expected.push(op(OpCode::OpPop));
        expected.push(op(OpCode::OpReturn));
        assert_eq!(c.code, expected, "{:?}", src);
    }
}

#[test]
fn literals_and_not() {
    let c = compile_ok("!true;\0");
    assert_eq!(c.code, vec![op(OpCode::OpTrue), op(OpCode::OpNot), op(OpCode::OpPop), 0]);
    let c = compile_ok("print nil == false;\0");
    assert_eq!(c.code, vec![op(OpCode::OpNil), op(OpCode::OpFalse), op(OpCode::OpEqual), op(OpCode::OpPrint), 0]);
}

#[test]
fn strings_become_interned_objects() {
    let mut table = StringTable::new();
    let (c, errors) = compile("\"hi\" == \"hi\";\0", &mut table, number);
    assert!(errors.is_empty());
    let c = c.unwrap();
    assert_eq!(c.code, vec![1, 0, 1, 1, op(OpCode::OpEqual), op(OpCode::OpPop), 0]);
    assert_eq!(table.len(), 1);
    match (&c.value_array().values()[0], &c.value_array().values()[1]) {
        (Value::Obj(a), Value::Obj(b)) => {
            assert_eq!(a.string(), "hi");
            assert!(std::rc::Rc::ptr_eq(a, b));
        }
        _ => panic!("expected string constants"),
    }
}

#[test]
fn global_variables() {
    let c = compile_ok("var a = 1;\0");
    assert_eq!(c.code, vec![1, 1, op(OpCode::OpDefineGlobal), 0, 0]);
    let c = compile_ok("var b;\0");
    assert_eq!(c.code, vec![op(OpCode::OpNil), op(OpCode::OpDefineGlobal), 0, 0]);
    let c = compile_ok("a = 3;\0");
    assert_eq!(c.code, vec![1, 1, op(OpCode::OpSetGlobal), 0, op(OpCode::OpPop), 0]);
    let c = compile_ok("print a;\0");
    assert_eq!(c.code, vec![op(OpCode::OpGetGlobal), 0, op(OpCode::OpPrint), 0]);
    match &c.value_array().values()[0] {
        Value::Obj(o) => assert_eq!(o.string(), "a"),
        _ => panic!("expected the name"),
    }
}

#[test]
fn reports_a_missing_operand() {
    let errors = compile_err("1 +;\0");
    assert_eq!(errors, vec![(1, String::from(";"), String::from("unsupported expression."))]);
}

#[test]
fn reports_a_missing_semicolon_at_end() {
    let errors = compile_err("print 1\0");
    assert_eq!(errors, vec![(1, String::from("end"), String::from("Expect ';' after value."))]);
}

#[test]
fn reports_an_invalid_assignment_target() {
    let errors = compile_err("1 = 2;\0");
    assert_eq!(errors, vec![(1, String::from("="), String::from("Invalid assignment target."))]);
}

#[test]
fn reports_scanner_errors_without_location() {
    let errors = compile_err("print 1;\n@\0");
    assert_eq!(errors, vec![(2, String::new(), String::from("Unexpected character."))]);
}

#[test]
fn recovers_at_the_next_statement() {
    let errors = compile_err("1 +;\nvar = 2;\nprint (1;\0");
    assert_eq!(
        errors,
        vec![
            (1, String::from(";"), String::from("unsupported expression.")),
            (2, String::from("="), String::from("Expect variable name.")),
            (3, String::from(";"), String::from("Expect ')' after expression.")),
        ]
    );
}

#[test]
fn empty_source_compiles_to_return() {
    let c = compile_ok("\0");
    assert_eq!(c.code, vec![op(OpCode::OpReturn)]);
    let c = compile_ok("  // only a comment\n\0");
    assert_eq!(c.code, vec![op(OpCode::OpReturn)]);
}

#[test]
fn many_constants_use_the_long_form() {
    let mut src = String::new();
    for i in 0..300 {
        src.push_str(&format!("{};\n", i));
    }
    src.push('\0');
    let c = compile_ok(&src);
    assert_eq!(c.value_array().count(), 300);
    let n = c.code.len();
    // the last statement loads constant 299 = 0x12b
    assert_eq!(&c.code[n - 6..], &[op(OpCode::OpConstantLong), 0x2b, 0x01, 0, op(OpCode::OpPop), 0]);
    // the last statement stands on line 300; `OpReturn` on line 301, at the end
    assert_eq!(c.lines().get_line((n - 2) as u32), Ok(300));
    assert_eq!(c.lines().get_line((n - 1) as u32), Ok(301));
}

#[test]
fn parser_new_and_end_compiler() {
    let mut p = Parser::new(Scanner::new("\0"), StringTable::new(), number);
    p.end_compiler();
    assert_eq!(p.chunk.code, vec![op(OpCode::OpReturn)]);
    assert!(!p.had_error);
}

#[test]
fn each_byte_gets_the_line_of_its_token() {
    // three bytes on line 1, then four on line 3
    let c = compile_ok("print 1;\nprint\n2;\0");
    let lines: Vec<u32> = (0..c.code.len()).map(|i| c.lines().get_line(i as u32).unwrap()).collect();
    assert_eq!(lines, vec![1, 1, 1, 3, 3, 3, 3]);
    assert_eq!(c.lines().get_line(7), Err(String::from("Line index 7 out of bounds! Not found the bytecode")));
    // an operator's instruction takes the line of its operand's last token
    let c = compile_ok("-\n1;\0");
    assert_eq!(c.code, vec![op(OpCode::OpConstant), 0, op(OpCode::OpNegate), op(OpCode::OpPop), op(OpCode::OpReturn)]);
    let lines: Vec<u32> = (0..c.code.len()).map(|i| c.lines().get_line(i as u32).unwrap()).collect();
    assert_eq!(lines, vec![2, 2, 2, 2, 2]);
}

#[test]
fn reports_each_diagnostic_at_its_token() {
    assert_eq!(compile_err("var 1;\0"), vec![(1, String::from("1"), String::from("Expect variable name."))]);
    assert_eq!(
        compile_err("var a = 1\0"),
        vec![(1, String::from("end"), String::from("Expect ';' after variable declaration."))]
    );
    assert_eq!(compile_err("(1;\0"), vec![(1, String::from(";"), String::from("Expect ')' after expression."))]);
    assert_eq!(compile_err("1 2;\0"), vec![(1, String::from("2"), String::from("Expect ';' after expression."))]);
}

#[test]
fn an_error_token_read_first_is_the_first_error() {
    // the operand of `+` is an error token: the scanner's error comes first
    assert_eq!(compile_err("1 + @;\0"), vec![(1, String::new(), String::from("Unexpected character."))]);
}

#[test]
fn the_table_gains_only_names_and_strings_of_the_source() {
    let mut table = StringTable::new();
    let (c, errors) = compile("1 + 2;\0", &mut table, number);
    assert!(c.is_some() && errors.is_empty());
    assert_eq!(table.len(), 0);
    let (c, _) = compile("var greeting = \"hi\";\0", &mut table, number);
    assert!(c.is_some());
    assert_eq!(table.len(), 2);
}

#[test]
fn names_and_strings_share_table_entries() {
    let mut table = StringTable::new();
    let (c, errors) = compile("var b = \"a\"; var a = \"b\"; print a;\0", &mut table, number);
    assert!(c.is_some() && errors.is_empty());
    assert_eq!(table.len(), 2);
    let obj = table.intern(b"b");
    assert_eq!(obj.string(), "b");
    assert_eq!(table.len(), 2);
}

#[test]
fn errors_are_silenced_while_panicking() {
    let mut p = Parser::new(Scanner::new("1;\0"), StringTable::new(), number);
    p.error_at_current(b"first");
    assert!(p.panic_mode && p.had_error);
    assert_eq!(p.errors.iter().map(describe).collect::<Vec<_>>(), vec![(0, String::from("end"), String::from("first"))]);
    p.error(b"second");
    assert_eq!(p.errors.len(), 1);
    p.synchronize();
    assert!(!p.panic_mode);
    assert_eq!(p.errors.len(), 1);
}
