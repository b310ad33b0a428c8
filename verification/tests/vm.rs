use rlox::chunk::chunk::Chunk;
use rlox::chunk::obj::StringTable;
use rlox::chunk::value::Value;
use rlox::chunk::OpCode;
use rlox::compiler::compiler::compile;
use rlox::vm::vm::{ArithOp, Fault, InterpretResult, RuntimeError, StepResult, VM};

fn num(x: f64) -> Value {
    Value::Double(x.to_bits())
}

fn number(text: &[u8]) -> u64 {
    std::str::from_utf8(text).unwrap().parse::<f64>().unwrap().to_bits()
}

fn arith(op: ArithOp, a: u64, b: u64) -> u64 {
    let (a, b) = (f64::from_bits(a), f64::from_bits(b));
    let r = match op {
        ArithOp::Add => a + b,
        ArithOp::Sub => a - b,
        ArithOp::Mul => a * b,
        ArithOp::Div => a / b,
    };
    r.to_bits()
}

/// Runs the loaded chunk to its end, collecting the reported runtime errors.
fn run(vm: &mut VM) -> (InterpretResult, Vec<(RuntimeError, Option<u32>)>) {
    let mut reports = Vec::new();
    loop {
        match vm.step() {
            StepResult::Continue | StepResult::Constant(_) => {}
            StepResult::Return => return (InterpretResult::InterpretOk, reports),
            StepResult::Arithmetic(op, a, b) => vm.complete_arithmetic(arith(op, a, b)),
            StepResult::Warning(e, line) => reports.push((e, line)),
            StepResult::Fail(e, line) => {
                reports.push((e, line));
                return (InterpretResult::InterpretRuntimeError, reports);
            }
            StepResult::Fault(f) => panic!("fault {:?}", f),
        }
    }
}

fn interpret(source: &str) -> (VM, InterpretResult, Vec<(RuntimeError, Option<u32>)>) {
    let mut table = StringTable::new();
    let (chunk, errors) = compile(source, &mut table, number);
    let mut vm = VM::new();
    match chunk {
        Some(c) => {
            vm.load_chunk(c);
            let (r, reports) = run(&mut vm);
            (vm, r, reports)
        }
        None => {
            assert!(!errors.is_empty());
            (vm, InterpretResult::InterpretCompileError, Vec::new())
        }
    }
}

#[test]
fn steps_through_constants_and_arithmetic() {
    let mut c = Chunk::new();
    c.write_constant(num(1.5), 1);
    c.write_constant(num(2.0), 1);
    c.write_chunk(u8::from(OpCode::OpAdd), 1);
    c.write_chunk(u8::from(OpCode::OpReturn), 1);
    let mut vm = VM::new();
    vm.load_chunk(c);
    assert_eq!(vm.step(), StepResult::Constant(1.5f64.to_bits()));
    assert_eq!(vm.ip(), 2);
    assert_eq!(vm.step(), StepResult::Constant(2.0f64.to_bits()));
    assert_eq!(vm.step(), StepResult::Arithmetic(ArithOp::Add, 1.5f64.to_bits(), 2.0f64.to_bits()));
    assert_eq!(vm.stack().len(), 1);
    vm.complete_arithmetic(3.5f64.to_bits());
    assert_eq!(vm.stack()[0], num(3.5));
    assert_eq!(vm.step(), StepResult::Return);
    assert_eq!(vm.ip(), 6);
}

#[test]
fn evaluates_an_expression() {
    let (vm, r, reports) = interpret("-(1 + 2) * 3 == -9;\0");
    assert_eq!(r, InterpretResult::InterpretOk);
    assert!(reports.is_empty());
    // OpPop does nothing in this machine, so the result stays on the stack.
    assert_eq!(vm.stack().len(), 1);
    assert_eq!(vm.stack()[0], Value::Boolean(true));
}

#[test]
fn comparisons_and_not() {
    let cases: Vec<(&str, bool)> = vec![
        ("1 < 2;\0", true),
        ("2 <= 1;\0", false),
        ("3 > 2;\0", true),
        ("3 >= 4;\0", false),
        ("1 != 1;\0", false),
        ("nil == nil;\0", true),
        ("!nil;\0", true),
        ("!0;\0", true),
        ("!1;\0", false),
        ("true == 1;\0", false),
        ("0 / 0 == 0 / 0;\0", false),
    ];
    for (src, expected) in cases {
        let (vm, r, _) = interpret(src);
        assert_eq!(r, InterpretResult::InterpretOk, "{:?}", src);
        assert_eq!(vm.stack()[vm.stack().len() - 1], Value::Boolean(expected), "{:?}", src);
    }
}

#[test]
fn negating_a_non_number_reports_and_continues() {
    let (vm, r, reports) = interpret("-nil;\0");
    assert_eq!(r, InterpretResult::InterpretOk);
    assert_eq!(reports, vec![(RuntimeError::OperandMustBeNumber, Some(1))]);
    assert_eq!(vm.stack()[0], Value::Nil);
    assert_eq!(RuntimeError::OperandMustBeNumber.message(), "Operand must be a number.");
}

#[test]
fn adding_non_numbers_fails() {
    let (_, r, reports) = interpret("1;\ntrue + 1;\0");
    assert_eq!(r, InterpretResult::InterpretRuntimeError);
    assert_eq!(reports, vec![(RuntimeError::OperandsMustBeNumbers, Some(2))]);
    assert_eq!(RuntimeError::OperandsMustBeNumbers.message(), "Operands must be a number.");
}

#[test]
fn compile_errors_stop_before_running() {
    let (_, r, _) = interpret("1 +;\0");
    assert_eq!(r, InterpretResult::InterpretCompileError);
}

#[test]
fn faults_leave_the_state_alone() {
    let mut c = Chunk::new();
    c.write_chunk(u8::from(OpCode::OpNot), 1);
    let mut vm = VM::new();
    vm.load_chunk(c);
    assert_eq!(vm.step(), StepResult::Fault(Fault::StackUnderflow));
    assert_eq!(vm.ip(), 0);
    let mut c = Chunk::new();
    c.write_chunk(u8::from(OpCode::OpConstant), 1);
    vm.load_chunk(c);
    assert_eq!(vm.step(), StepResult::Fault(Fault::CodeOutOfRange));
    let mut c = Chunk::new();
    c.write_constant(Value::Nil, 1);
    vm.load_chunk(c);
    assert_eq!(vm.step(), StepResult::Fault(Fault::InvalidConstant));
    let mut c = Chunk::new();
    c.write_chunk(u8::from(OpCode::OpConstant), 1);
    c.write_chunk(7, 1);
    vm.load_chunk(c);
    assert_eq!(vm.step(), StepResult::Fault(Fault::ConstantOutOfRange));
    let vm2 = VM::new();
    assert_eq!(vm2.stack().len(), 0);
}

#[test]
fn unknown_bytes_end_the_run() {
    let mut c = Chunk::new();
    c.write_chunk(200, 1);
    let mut vm = VM::new();
    vm.load_chunk(c);
    assert_eq!(vm.step(), StepResult::Return);
    assert_eq!(vm.ip(), 1);
}

#[test]
fn unhandled_instructions_only_advance() {
    let mut c = Chunk::new();
    c.write_chunk(u8::from(OpCode::OpTrue), 1);
    c.write_chunk(u8::from(OpCode::OpPop), 1);
    c.write_chunk(u8::from(OpCode::OpPrint), 1);
    let mut vm = VM::new();
    vm.load_chunk(c);
    assert_eq!(vm.step(), StepResult::Continue);
    assert_eq!(vm.step(), StepResult::Continue);
    assert_eq!(vm.step(), StepResult::Continue);
    assert_eq!(vm.ip(), 3);
    assert_eq!(vm.stack().len(), 1);
    assert_eq!(vm.step(), StepResult::Fault(Fault::CodeOutOfRange));
}

#[test]
fn loads_a_long_constant() {
    let mut c = Chunk::new();
    for i in 0..300 {
        c.write_constant(num(i as f64), 1);
    }
    let mut vm = VM::new();
    vm.load_chunk(c);
    let mut last = StepResult::Continue;
    for _ in 0..300 {
        last = vm.step();
    }
    assert_eq!(last, StepResult::Constant(299.0f64.to_bits()));
    assert_eq!(vm.stack().len(), 300);
    assert_eq!(vm.stack()[299], num(299.0));
}

#[test]
fn loading_keeps_the_stack() {
    let (mut vm, _, _) = interpret("1;\0");
    let mut table = StringTable::new();
    let (c, _) = compile("2;\0", &mut table, number);
    vm.load_chunk(c.unwrap());
    assert_eq!(vm.ip(), 0);
    assert_eq!(vm.stack().len(), 1);
    vm.step();
    assert_eq!(vm.stack().len(), 2);
    assert_eq!(vm.chunk().code.len(), 4);
}
