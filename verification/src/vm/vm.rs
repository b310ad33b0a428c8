//! The virtual machine: executes a chunk one instruction at a time.
//!
//! Each call of `VM::step` decodes the instruction at `ip` and performs it on
//! the value stack. Number arithmetic is the one effect the step hands back to
//! its caller (`StepResult::Arithmetic`), which computes the double and stores
//! it with `VM::complete_arithmetic`.

use vstd::prelude::*;
use crate::chunk::bytecode::{OpCode, opcode_byte, opcode_of_byte};
use crate::chunk::bytecode::opcode_round_trip;
use crate::chunk::chunk::{Chunk, constant_instruction, decode_long_operand, long_operand_round_trip};
use crate::compiler::grammar::operator_code;
use crate::compiler::token::TokenType;
use crate::chunk::line::{line_entry_for, lemma_small_table_sums_fit, total_count};
use crate::chunk::value::{
    Value,
    double_eq,
    double_lt,
    doubles_are_ordered,
    is_nan_bits,
    double_neg,
    double_negate,
    truthy,
    value_less,
    values_equal,
};

verus! {

/// The stack capacity the machine reserves at the start.
pub const STACK_MAX: usize = 1024;

/// How an interpretation ends.
#[derive(Debug, Clone, Copy, PartialEq, Eq, Structural)]
pub enum InterpretResult {
    InterpretOk,
    InterpretCompileError,
    InterpretRuntimeError,
}

/// A numeric binary operation.
#[derive(Debug, Clone, Copy, PartialEq, Eq, Structural)]
pub enum ArithOp {
    Add,
    Sub,
    Mul,
    Div,
}

/// The runtime errors that the machine reports.
#[derive(Debug, Clone, Copy, PartialEq, Eq, Structural)]
pub enum RuntimeError {
    /// A unary operator met an operand that is no number.
    OperandMustBeNumber,
    /// A binary numeric operator met an operand that is no number.
    OperandsMustBeNumbers,
}

impl RuntimeError {
    /// The message of the error.
    pub open spec fn text(self) -> &'static str {
        match self {
            RuntimeError::OperandMustBeNumber => "Operand must be a number.",
            RuntimeError::OperandsMustBeNumbers => "Operands must be a number.",
        }
    }

    /// The message printed for the error.
    pub fn message(&self) -> (m: &'static str)
        ensures
            m == self.text(),
    {
        match self {
            RuntimeError::OperandMustBeNumber => "Operand must be a number.",
            RuntimeError::OperandsMustBeNumbers => "Operands must be a number.",
        }
    }
}

/// A state the machine cannot execute from: the instruction would read past
/// the code, past the constants, a constant that is no number, or an empty
/// stack.
#[derive(Debug, Clone, Copy, PartialEq, Eq, Structural)]
pub enum Fault {
    CodeOutOfRange,
    ConstantOutOfRange,
    InvalidConstant,
    StackUnderflow,
}

/// What one step did.
#[derive(Debug, Clone, Copy, PartialEq, Eq, Structural)]
pub enum StepResult {
    /// An instruction without anything to report.
    Continue,
    /// A number constant (its bits) was pushed.
    Constant(u64),
    /// `OpReturn`, or a byte that encodes no instruction: the run ends well.
    Return,
    /// Both operands are numbers: the right one was popped, the left one is on
    /// top; the caller computes the result and stores it.
    Arithmetic(ArithOp, u64, u64),
    /// A runtime error that execution continues past; the line of the
    /// instruction, if the line table has one.
    Warning(RuntimeError, Option<u32>),
    /// A runtime error that ends the run.
    Fail(RuntimeError, Option<u32>),
    /// The state admits no step; nothing changed.
    Fault(Fault),
}

/// The line reported for an error in the instruction at `offset`.
pub open spec fn error_line(lines: Seq<(u32, u32)>, offset: int) -> Option<u32> {
    match line_entry_for(lines, offset as u32) {
        Some(k) => Some(lines[k].0),
        None => None,
    }
}

/// The number that a value holds, if it holds one.
pub open spec fn number_of(v: Value) -> Option<u64> {
    match v {
        Value::Double(d) => Some(d),
        _ => None,
    }
}

/// The constant-loading step: push constant `idx`, which must be a number.
pub open spec fn load_constant(consts: Seq<Value>, idx: int, next: int, stack: Seq<Value>) -> (
    StepResult,
    int,
    Seq<Value>,
) {
    if idx >= consts.len() {
        (StepResult::Fault(Fault::ConstantOutOfRange), -1, stack)
    } else {
        match consts[idx] {
            Value::Double(d) => (StepResult::Constant(d), next, stack.push(Value::Double(d))),
            _ => (StepResult::Fault(Fault::InvalidConstant), -1, stack),
        }
    }
}

/// One step of the machine on code `code`, constants `consts` and line table
/// `lines`, from instruction pointer `ip` and stack `stack`: what the step
/// reports, the next instruction pointer (-1 for a fault, where the pointer
/// stays), and the next stack.
pub open spec fn step_spec(
    code: Seq<u8>,
    consts: Seq<Value>,
    lines: Seq<(u32, u32)>,
    ip: int,
    stack: Seq<Value>,
) -> (StepResult, int, Seq<Value>) {
    let n = stack.len();
    let next = ip + 1;
    if ip < 0 || ip >= code.len() {
        (StepResult::Fault(Fault::CodeOutOfRange), -1, stack)
    } else {
        match opcode_of_byte(code[ip]) {
            None => (StepResult::Return, next, stack),
            Some(op) => match op {
                OpCode::OpReturn => (StepResult::Return, next, stack),
                OpCode::OpConstant => if next >= code.len() {
                    (StepResult::Fault(Fault::CodeOutOfRange), -1, stack)
                } else {
                    load_constant(consts, code[next] as int, ip + 2, stack)
                },
                OpCode::OpConstantLong => if ip + 3 >= code.len() {
                    (StepResult::Fault(Fault::CodeOutOfRange), -1, stack)
                } else {
                    load_constant(
                        consts,
                        decode_long_operand(code[ip + 1], code[ip + 2], code[ip + 3]) as int,
                        ip + 4,
                        stack,
                    )
                },
                OpCode::OpNegate => if n < 1 {
                    (StepResult::Fault(Fault::StackUnderflow), -1, stack)
                } else {
                    match stack[n - 1] {
                        Value::Double(d) => (
                            StepResult::Continue,
                            next,
                            stack.update(n - 1, Value::Double(double_neg(d))),
                        ),
                        _ => (
                            StepResult::Warning(
                                RuntimeError::OperandMustBeNumber,
                                error_line(lines, ip),
                            ),
                            next,
                            stack,
                        ),
                    }
                },
                OpCode::OpAdd | OpCode::OpSub | OpCode::OpMul | OpCode::OpDiv => if n < 2 {
                    (StepResult::Fault(Fault::StackUnderflow), -1, stack)
                } else {
                    let arith = match op {
                        OpCode::OpAdd => ArithOp::Add,
                        OpCode::OpSub => ArithOp::Sub,
                        OpCode::OpMul => ArithOp::Mul,
                        _ => ArithOp::Div,
                    };
                    match (number_of(stack[n - 2]), number_of(stack[n - 1])) {
                        (Some(a), Some(b)) => (
                            StepResult::Arithmetic(arith, a, b),
                            next,
                            stack.drop_last(),
                        ),
                        _ => (
                            StepResult::Fail(
                                RuntimeError::OperandsMustBeNumbers,
                                error_line(lines, ip),
                            ),
                            next,
                            stack.drop_last(),
                        ),
                    }
                },
                OpCode::OpNil => (StepResult::Continue, next, stack.push(Value::Nil)),
                OpCode::OpTrue => (StepResult::Continue, next, stack.push(Value::Boolean(true))),
                OpCode::OpFalse => (StepResult::Continue, next, stack.push(Value::Boolean(false))),
                OpCode::OpNot => if n < 1 {
                    (StepResult::Fault(Fault::StackUnderflow), -1, stack)
                } else {
                    (
                        StepResult::Continue,
                        next,
                        stack.update(n - 1, Value::Boolean(!truthy(stack[n - 1]))),
                    )
                },
                OpCode::OpEqual | OpCode::OpGreater | OpCode::OpLess => if n < 2 {
                    (StepResult::Fault(Fault::StackUnderflow), -1, stack)
                } else {
                    let a = stack[n - 2];
                    let b = stack[n - 1];
                    let r = match op {
                        OpCode::OpEqual => values_equal(a, b),
                        OpCode::OpGreater => value_less(b, a),
                        _ => value_less(a, b),
                    };
                    (StepResult::Continue, next, stack.drop_last().update(n - 2, Value::Boolean(r)))
                },
                _ => (StepResult::Continue, next, stack),
            },
        }
    }
}

/// The machine loads back what `Chunk::write_constant` wrote: where the code
/// holds the instruction written for the `n`-th constant, and that constant is
/// the number `d`, a step pushes `d` and moves past the instruction.
pub proof fn loads_written_constant(
    code: Seq<u8>,
    consts: Seq<Value>,
    lines: Seq<(u32, u32)>,
    ip: int,
    stack: Seq<Value>,
    n: nat,
    d: u64,
)
    requires
        0 <= ip,
        n < 0x100_0000,
        ip + constant_instruction(n, n as usize).len() <= code.len(),
        code.subrange(ip, ip + constant_instruction(n, n as usize).len()) == constant_instruction(
            n,
            n as usize,
        ),
        n < consts.len(),
        consts[n as int] == Value::Double(d),
    ensures
        step_spec(code, consts, lines, ip, stack) == (
            StepResult::Constant(d),
            ip + constant_instruction(n, n as usize).len(),
            stack.push(Value::Double(d)),
        ),
{
    let instr = constant_instruction(n, n as usize);
    assert(code[ip] == instr[0]);
    assert(code[ip + 1] == instr[1]);
    if n >= 255 {
        assert(code[ip + 2] == instr[2]);
        assert(code[ip + 3] == instr[3]);
        opcode_round_trip(OpCode::OpConstantLong, 0);
        long_operand_round_trip(n as usize);
    } else {
        opcode_round_trip(OpCode::OpConstant, 0);
    }
}

/// Each arithmetic instruction hands out its own operation on the two numbers
/// on top of the stack, the left one below the right one: `OpAdd` an
/// addition, `OpSub` a subtraction, `OpMul` a multiplication and `OpDiv` a
/// division. The right operand is popped and the machine moves on.
pub proof fn arithmetic_instructions_hand_out_their_operation(
    code: Seq<u8>,
    consts: Seq<Value>,
    lines: Seq<(u32, u32)>,
    ip: int,
    stack: Seq<Value>,
    a: u64,
    b: u64,
)
    requires
        0 <= ip < code.len(),
        stack.len() >= 2,
        stack[stack.len() - 2] == Value::Double(a),
        stack[stack.len() - 1] == Value::Double(b),
    ensures
        code[ip] == opcode_byte(OpCode::OpAdd) ==> step_spec(code, consts, lines, ip, stack) == (
            StepResult::Arithmetic(ArithOp::Add, a, b),
            ip + 1,
            stack.drop_last(),
        ),
        code[ip] == opcode_byte(OpCode::OpSub) ==> step_spec(code, consts, lines, ip, stack) == (
            StepResult::Arithmetic(ArithOp::Sub, a, b),
            ip + 1,
            stack.drop_last(),
        ),
        code[ip] == opcode_byte(OpCode::OpMul) ==> step_spec(code, consts, lines, ip, stack) == (
            StepResult::Arithmetic(ArithOp::Mul, a, b),
            ip + 1,
            stack.drop_last(),
        ),
        code[ip] == opcode_byte(OpCode::OpDiv) ==> step_spec(code, consts, lines, ip, stack) == (
            StepResult::Arithmetic(ArithOp::Div, a, b),
            ip + 1,
            stack.drop_last(),
        ),
{
    opcode_round_trip(OpCode::OpAdd, 0);
    opcode_round_trip(OpCode::OpSub, 0);
    opcode_round_trip(OpCode::OpMul, 0);
    opcode_round_trip(OpCode::OpDiv, 0);
}

/// The instructions on the values on top of the stack, each moving on by one
/// byte. `OpNot` replaces the top by whether it is false: a boolean by its
/// opposite, `nil` by true, a number by whether it is a zero. `OpNegate`
/// replaces a number on top by its negation. `OpEqual`, `OpLess` and
/// `OpGreater` replace two numbers on top by whether the left one equals, is
/// below, or is above the right one; `nil` equals `nil`, and values of
/// different kinds are never equal.
pub proof fn instructions_on_top_values(
    code: Seq<u8>,
    consts: Seq<Value>,
    lines: Seq<(u32, u32)>,
    ip: int,
    stack: Seq<Value>,
)
    requires
        0 <= ip < code.len(),
        stack.len() >= 2,
    ensures
        code[ip] == opcode_byte(OpCode::OpNot) ==> {
            &&& step_spec(code, consts, lines, ip, stack).0 == StepResult::Continue
            &&& step_spec(code, consts, lines, ip, stack).1 == ip + 1
            &&& step_spec(code, consts, lines, ip, stack).2.len() == stack.len()
            &&& step_spec(code, consts, lines, ip, stack).2.drop_last() == stack.drop_last()
            &&& stack.last() matches Value::Boolean(x) ==> step_spec(
                code,
                consts,
                lines,
                ip,
                stack,
            ).2.last() == Value::Boolean(!x)
            &&& stack.last() matches Value::Nil ==> step_spec(code, consts, lines, ip, stack).2.last()
                == Value::Boolean(true)
            &&& stack.last() matches Value::Double(d) ==> step_spec(
                code,
                consts,
                lines,
                ip,
                stack,
            ).2.last() == Value::Boolean(d == 0 || d == 0x8000_0000_0000_0000u64)
        },
        code[ip] == opcode_byte(OpCode::OpNegate) ==> (stack.last() matches Value::Double(d)
            ==> step_spec(code, consts, lines, ip, stack) == (
            StepResult::Continue,
            ip + 1,
            stack.drop_last().push(Value::Double(double_neg(d))),
        )),
        stack[stack.len() - 2] matches Value::Double(a) ==> (stack.last() matches Value::Double(b)
            ==> {
            &&& code[ip] == opcode_byte(OpCode::OpEqual) ==> step_spec(
                code,
                consts,
                lines,
                ip,
                stack,
            ) == (
                StepResult::Continue,
                ip + 1,
                stack.drop_last().drop_last().push(Value::Boolean(double_eq(a, b))),
            )
            &&& code[ip] == opcode_byte(OpCode::OpLess) ==> step_spec(
                code,
                consts,
                lines,
                ip,
                stack,
            ) == (
                StepResult::Continue,
                ip + 1,
                stack.drop_last().drop_last().push(Value::Boolean(double_lt(a, b))),
            )
            &&& code[ip] == opcode_byte(OpCode::OpGreater) ==> step_spec(
                code,
                consts,
                lines,
                ip,
                stack,
            ) == (
                StepResult::Continue,
                ip + 1,
                stack.drop_last().drop_last().push(Value::Boolean(double_lt(b, a))),
            )
        }),
        code[ip] == opcode_byte(OpCode::OpEqual) ==> {
            &&& stack[stack.len() - 2] matches Value::Nil ==> (stack.last() matches Value::Nil
                ==> step_spec(code, consts, lines, ip, stack).2.last() == Value::Boolean(true))
            &&& stack[stack.len() - 2] matches Value::Nil ==> (stack.last() matches Value::Double(_)
                ==> step_spec(code, consts, lines, ip, stack).2.last() == Value::Boolean(false))
            &&& stack[stack.len() - 2] matches Value::Boolean(_) ==> (stack.last() matches Value::Nil
                ==> step_spec(code, consts, lines, ip, stack).2.last() == Value::Boolean(false))
        },
{
    opcode_round_trip(OpCode::OpNot, 0);
    opcode_round_trip(OpCode::OpNegate, 0);
    opcode_round_trip(OpCode::OpEqual, 0);
    opcode_round_trip(OpCode::OpLess, 0);
    opcode_round_trip(OpCode::OpGreater, 0);
    let n = stack.len();
    if let Value::Double(d) = stack.last() {
        assert((d & 0x7fff_ffff_ffff_ffffu64 == 0) <==> (d == 0 || d == 0x8000_0000_0000_0000u64))
            by (bit_vector);
    }
    assert forall|v: Value| #[trigger] stack.drop_last().drop_last().push(v) =~= stack.drop_last().update(
        n - 2,
        v,
    ) by {}
    assert forall|v: Value| #[trigger] stack.drop_last().push(v) =~= stack.update(n - 1, v) by {}
}

/// Where running `code` from `ip` on `stack` stands after at most `fuel`
/// steps: its instruction pointer and stack. It stops at the end of the code
/// and at a step that reports anything.
pub open spec fn run_code(
    code: Seq<u8>,
    consts: Seq<Value>,
    lines: Seq<(u32, u32)>,
    ip: int,
    stack: Seq<Value>,
    fuel: nat,
) -> (int, Seq<Value>)
    decreases fuel,
{
    if fuel == 0 || ip < 0 || ip >= code.len() {
        (ip, stack)
    } else {
        let (r, next, after) = step_spec(code, consts, lines, ip, stack);
        if r is Continue {
            run_code(code, consts, lines, next, after, (fuel - 1) as nat)
        } else {
            (ip, stack)
        }
    }
}

/// The code of each comparison operator, run on two numbers on top of the
/// stack, replaces them by one boolean that answers the comparison: `==` and
/// `!=` by IEEE equality, `<` and `>` by the order of the numbers, and, where
/// neither is NaN, `<=` and `>=` by order or equality. The code of `+`, `-`,
/// `*` and `/` hands out the matching arithmetic.
pub proof fn operators_compute_their_meaning(
    consts: Seq<Value>,
    lines: Seq<(u32, u32)>,
    stack: Seq<Value>,
    a: u64,
    b: u64,
)
    requires
        stack.len() >= 2,
        stack[stack.len() - 2] == Value::Double(a),
        stack[stack.len() - 1] == Value::Double(b),
    ensures
        ({
            let rest = stack.drop_last().drop_last();
            let answer = |t: TokenType| run_code(operator_code(t), consts, lines, 0, stack, 2);
            &&& answer(TokenType::EqualEqual) == (1int, rest.push(Value::Boolean(double_eq(a, b))))
            &&& answer(TokenType::BangEqual) == (2int, rest.push(Value::Boolean(!double_eq(a, b))))
            &&& answer(TokenType::Less) == (1int, rest.push(Value::Boolean(double_lt(a, b))))
            &&& answer(TokenType::Greater) == (1int, rest.push(Value::Boolean(double_lt(b, a))))
            &&& answer(TokenType::LessEqual).0 == 2
            &&& answer(TokenType::GreaterEqual).0 == 2
            &&& !is_nan_bits(a) && !is_nan_bits(b) ==> {
                &&& answer(TokenType::LessEqual).1 == rest.push(
                    Value::Boolean(double_lt(a, b) || double_eq(a, b)),
                )
                &&& answer(TokenType::GreaterEqual).1 == rest.push(
                    Value::Boolean(double_lt(b, a) || double_eq(a, b)),
                )
            }
        }),
        step_spec(operator_code(TokenType::Plus), consts, lines, 0, stack).0
            == StepResult::Arithmetic(ArithOp::Add, a, b),
        step_spec(operator_code(TokenType::Minus), consts, lines, 0, stack).0
            == StepResult::Arithmetic(ArithOp::Sub, a, b),
        step_spec(operator_code(TokenType::Star), consts, lines, 0, stack).0
            == StepResult::Arithmetic(ArithOp::Mul, a, b),
        step_spec(operator_code(TokenType::Slash), consts, lines, 0, stack).0
            == StepResult::Arithmetic(ArithOp::Div, a, b),
{
    let rest = stack.drop_last().drop_last();
    doubles_are_ordered(a, b);
    let eqc = operator_code(TokenType::EqualEqual);
    let nec = operator_code(TokenType::BangEqual);
    let ltc = operator_code(TokenType::Less);
    let gtc = operator_code(TokenType::Greater);
    let lec = operator_code(TokenType::LessEqual);
    let gec = operator_code(TokenType::GreaterEqual);
    instructions_on_top_values(eqc, consts, lines, 0, stack);
    instructions_on_top_values(nec, consts, lines, 0, stack);
    instructions_on_top_values(ltc, consts, lines, 0, stack);
    instructions_on_top_values(gtc, consts, lines, 0, stack);
    instructions_on_top_values(lec, consts, lines, 0, stack);
    instructions_on_top_values(gec, consts, lines, 0, stack);
    lemma_run_one(eqc, consts, lines, stack, rest.push(Value::Boolean(double_eq(a, b))));
    lemma_run_one(ltc, consts, lines, stack, rest.push(Value::Boolean(double_lt(a, b))));
    lemma_run_one(gtc, consts, lines, stack, rest.push(Value::Boolean(double_lt(b, a))));
    lemma_run_then_not(nec, consts, lines, stack, rest, double_eq(a, b));
    lemma_run_then_not(lec, consts, lines, stack, rest, double_lt(b, a));
    lemma_run_then_not(gec, consts, lines, stack, rest, double_lt(a, b));
    arithmetic_instructions_hand_out_their_operation(
        operator_code(TokenType::Plus),
        consts,
        lines,
        0,
        stack,
        a,
        b,
    );
    arithmetic_instructions_hand_out_their_operation(
        operator_code(TokenType::Minus),
        consts,
        lines,
        0,
        stack,
        a,
        b,
    );
    arithmetic_instructions_hand_out_their_operation(
        operator_code(TokenType::Star),
        consts,
        lines,
        0,
        stack,
        a,
        b,
    );
    arithmetic_instructions_hand_out_their_operation(
        operator_code(TokenType::Slash),
        consts,
        lines,
        0,
        stack,
        a,
        b,
    );
}

/// Code of one instruction that continues runs to its end.
proof fn lemma_run_one(
    code: Seq<u8>,
    consts: Seq<Value>,
    lines: Seq<(u32, u32)>,
    stack: Seq<Value>,
    after: Seq<Value>,
)
    requires
        code.len() == 1,
        step_spec(code, consts, lines, 0, stack) == (StepResult::Continue, 1int, after),
    ensures
        run_code(code, consts, lines, 0, stack, 2) == (1int, after),
{
    assert(run_code(code, consts, lines, 1, after, 1) == (1int, after));
}

/// Code of one instruction that leaves a boolean on top, then `OpNot`, runs
/// to its end with the opposite boolean on top.
proof fn lemma_run_then_not(
    code: Seq<u8>,
    consts: Seq<Value>,
    lines: Seq<(u32, u32)>,
    stack: Seq<Value>,
    rest: Seq<Value>,
    x: bool,
)
    requires
        code.len() == 2,
        code[1] == opcode_byte(OpCode::OpNot),
        step_spec(code, consts, lines, 0, stack) == (
            StepResult::Continue,
            1int,
            rest.push(Value::Boolean(x)),
        ),
    ensures
        run_code(code, consts, lines, 0, stack, 2) == (2int, rest.push(Value::Boolean(!x))),
{
    opcode_round_trip(OpCode::OpNot, 0);
    let mid = rest.push(Value::Boolean(x));
    assert(mid.update(mid.len() - 1, Value::Boolean(!x)) =~= rest.push(Value::Boolean(!x)));
    assert(step_spec(code, consts, lines, 1, mid) == (
        StepResult::Continue,
        2int,
        rest.push(Value::Boolean(!x)),
    ));
    assert(run_code(code, consts, lines, 2, rest.push(Value::Boolean(!x)), 0) == (
        2int,
        rest.push(Value::Boolean(!x)),
    ));
    assert(run_code(code, consts, lines, 1, mid, 1) == (2int, rest.push(Value::Boolean(!x))));
}

/// The virtual machine.
pub struct VM {
    chunk: Chunk,
    ip: usize,
    stack: Vec<Value>,
    stack_top: usize,
}

impl VM {
    /// The code being run.
    pub closed spec fn code(&self) -> Seq<u8> {
        self.chunk.bytes()
    }

    /// The constants of the code being run.
    pub closed spec fn constants(&self) -> Seq<Value> {
        self.chunk.constants()
    }

    /// The line table of the code being run.
    pub closed spec fn line_table(&self) -> Seq<(u32, u32)> {
        self.chunk.line_table()
    }

    /// The offset of the next instruction.
    pub closed spec fn ip_spec(&self) -> int {
        self.ip as int
    }

    /// The value stack, bottom first.
    pub closed spec fn stack_spec(&self) -> Seq<Value> {
        self.stack@
    }

    /// The stack pointer matches the stack, and the line table's running
    /// count fits in `u32`.
    pub closed spec fn wf(&self) -> bool {
        &&& self.stack_top == self.stack@.len()
        &&& total_count(self.chunk.line_table()) <= u32::MAX
    }

    /// A machine with an empty chunk and an empty stack.
    pub fn new() -> (vm: VM)
        ensures
            vm.wf(),
            vm.code() == Seq::<u8>::empty(),
            vm.constants() == Seq::<Value>::empty(),
            vm.ip_spec() == 0,
            vm.stack_spec() == Seq::<Value>::empty(),
    {
        VM { chunk: Chunk::new(), ip: 0, stack: Vec::with_capacity(STACK_MAX), stack_top: 0 }
    }

    /// Makes `chunk` the code to run, from its first byte; the stack is kept.
    pub fn load_chunk(&mut self, chunk: Chunk)
        requires
            old(self).wf(),
            total_count(chunk.line_table()) <= u32::MAX,
        ensures
            final(self).wf(),
            final(self).code() == chunk.bytes(),
            final(self).constants() == chunk.constants(),
            final(self).line_table() == chunk.line_table(),
            final(self).ip_spec() == 0,
            final(self).stack_spec() == old(self).stack_spec(),
    {
        self.chunk = chunk;
        self.ip = 0;
    }

    /// The chunk being run.
    pub fn chunk(&self) -> (c: &Chunk)
        ensures
            c.bytes() == self.code(),
            c.constants() == self.constants(),
            c.line_table() == self.line_table(),
    {
        &self.chunk
    }

    /// The offset of the next instruction.
    pub fn ip(&self) -> (ip: usize)
        ensures
            ip == self.ip_spec(),
    {
        self.ip
    }

    /// The value stack, bottom first.
    pub fn stack(&self) -> (s: &[Value])
        ensures
            s@ == self.stack_spec(),
    {
        self.stack.as_slice()
    }

    fn push(&mut self, value: Value)
        requires
            old(self).wf(),
        ensures
            final(self).wf(),
            final(self).stack@ == old(self).stack@.push(value),
            final(self).ip == old(self).ip,
            final(self).chunk == old(self).chunk,
    {
        self.stack.push(value);
        self.stack_top = self.stack.len();
    }

    fn pop(&mut self) -> (v: Value)
        requires
            old(self).wf(),
            old(self).stack@.len() > 0,
        ensures
            final(self).wf(),
            final(self).stack@ == old(self).stack@.drop_last(),
            v == old(self).stack@.last(),
            final(self).ip == old(self).ip,
            final(self).chunk == old(self).chunk,
    {
        self.stack_top -= 1;
        match self.stack.pop() {
            Some(ret) => ret,
            None => Value::Nil,  // unreachable: the stack is not empty
        }
    }

    fn set_top(&mut self, value: Value)
        requires
            old(self).wf(),
            old(self).stack@.len() > 0,
        ensures
            final(self).wf(),
            final(self).stack@ == old(self).stack@.update(old(self).stack@.len() - 1, value),
            final(self).ip == old(self).ip,
            final(self).chunk == old(self).chunk,
    {
        let last = self.stack_top - 1;
        self.stack.set(last, value);
    }

    fn read_byte(&mut self) -> (b: u8)
        requires
            old(self).wf(),
            old(self).ip < old(self).chunk.bytes().len(),
        ensures
            final(self).wf(),
            b == old(self).chunk.bytes()[old(self).ip as int],
            final(self).ip == old(self).ip + 1,
            final(self).stack == old(self).stack,
            final(self).stack_top == old(self).stack_top,
            final(self).chunk == old(self).chunk,
    {
        let res = self.chunk.code_bytes()[self.ip];
        self.ip += 1;
        res
    }

    /// The line of the instruction at `offset`, for an error message.
    fn error_line_at(&self, offset: usize) -> (line: Option<u32>)
        requires
            self.wf(),
        ensures
            line == error_line(self.chunk.line_table(), offset as int),
    {
        proof {
            lemma_small_table_sums_fit(self.chunk.line_table(), offset as u32);
        }
        match self.chunk.lines().get_line(offset as u32) {
            Ok(l) => Some(l),
            Err(_) => None,
        }
    }

    /// Pushes constant `idx` if it exists and is a number.
    fn push_constant(&mut self, idx: usize) -> (r: StepResult)
        requires
            old(self).wf(),
        ensures
            final(self).wf(),
            final(self).chunk == old(self).chunk,
            final(self).ip == old(self).ip,
            r == load_constant(
                old(self).chunk.constants(),
                idx as int,
                0,
                old(self).stack@,
            ).0,
            final(self).stack@ == load_constant(
                old(self).chunk.constants(),
                idx as int,
                0,
                old(self).stack@,
            ).2,
    {
        let values = self.chunk.value_array().values();
        if idx >= values.len() {
            return StepResult::Fault(Fault::ConstantOutOfRange);
        }
        match &values[idx] {
            Value::Double(d) => {
                let d = *d;
                self.push(Value::Double(d));
                StepResult::Constant(d)
            },
            _ => StepResult::Fault(Fault::InvalidConstant),
        }
    }

    /// Executes the instruction at `ip`.
    pub fn step(&mut self) -> (r: StepResult)
        requires
            old(self).wf(),
        ensures
            final(self).wf(),
            final(self).code() == old(self).code(),
            final(self).constants() == old(self).constants(),
            final(self).line_table() == old(self).line_table(),
            ({
                let (res, next, stack) = step_spec(
                    old(self).code(),
                    old(self).constants(),
                    old(self).line_table(),
                    old(self).ip_spec(),
                    old(self).stack_spec(),
                );
                &&& r == res
                &&& final(self).stack_spec() == stack
                &&& next >= 0 ==> final(self).ip_spec() == next
                &&& next < 0 ==> final(self).ip_spec() == old(self).ip_spec()
            }),
    {
        let ghost code = self.chunk.bytes();
        if self.ip >= self.chunk.code_bytes().len() {
            return StepResult::Fault(Fault::CodeOutOfRange);
        }
        let start = self.ip;
        let n = self.stack_top;
        let byte = self.chunk.code_bytes()[start];
        let op = match OpCode::try_from(byte) {
            Ok(op) => op,
            Err(_) => OpCode::OpReturn,
        };
        match op {
            OpCode::OpReturn => {
                self.read_byte();
                StepResult::Return
            },
            OpCode::OpConstant => {
                if start + 1 >= self.chunk.code_bytes().len() {
                    return StepResult::Fault(Fault::CodeOutOfRange);
                }
                let idx = self.chunk.code_bytes()[start + 1] as usize;
                let r = self.push_constant(idx);
                if let StepResult::Fault(_) = r {
                    return r;
                }
                self.ip = start + 2;
                r
            },
            OpCode::OpConstantLong => {
                if self.chunk.code_bytes().len() - start <= 3 {
                    return StepResult::Fault(Fault::CodeOutOfRange);
                }
                let low = self.chunk.code_bytes()[start + 1];
                let medium = self.chunk.code_bytes()[start + 2];
                let high = self.chunk.code_bytes()[start + 3];
                assert(((high as usize) << 16) <= 0xff0000 && ((medium as usize) << 8) <= 0xff00)
                    by (bit_vector);
                let idx = ((high as usize) << 16) + ((medium as usize) << 8) + low as usize;
                let r = self.push_constant(idx);
                if let StepResult::Fault(_) = r {
                    return r;
                }
                self.ip = start + 4;
                r
            },
            OpCode::OpNegate => {
                if n < 1 {
                    return StepResult::Fault(Fault::StackUnderflow);
                }
                self.read_byte();
                let top = &self.stack[n - 1];
                if let Value::Double(value) = top {
                    let negated = double_negate(*value);
                    self.set_top(Value::Double(negated));
                    StepResult::Continue
                } else {
                    StepResult::Warning(RuntimeError::OperandMustBeNumber, self.error_line_at(start))
                }
            },
            OpCode::OpAdd | OpCode::OpSub | OpCode::OpMul | OpCode::OpDiv => {
                if n < 2 {
                    return StepResult::Fault(Fault::StackUnderflow);
                }
                self.read_byte();
                let arith = match op {
                    OpCode::OpAdd => ArithOp::Add,
                    OpCode::OpSub => ArithOp::Sub,
                    OpCode::OpMul => ArithOp::Mul,
                    _ => ArithOp::Div,
                };
                let b = self.pop();
                let a = &self.stack[n - 2];
                match (a, b) {
                    (Value::Double(va), Value::Double(vb)) => StepResult::Arithmetic(arith, *va, vb),
                    _ => StepResult::Fail(
                        RuntimeError::OperandsMustBeNumbers,
                        self.error_line_at(start),
                    ),
                }
            },
            OpCode::OpNil => {
                self.read_byte();
                self.push(Value::Nil);
                StepResult::Continue
            },
            OpCode::OpTrue => {
                self.read_byte();
                self.push(Value::Boolean(true));
                StepResult::Continue
            },
            OpCode::OpFalse => {
                self.read_byte();
                self.push(Value::Boolean(false));
                StepResult::Continue
            },
            OpCode::OpNot => {
                if n < 1 {
                    return StepResult::Fault(Fault::StackUnderflow);
                }
                self.read_byte();
                let t = self.stack[n - 1].is_truthy();
                self.set_top(Value::Boolean(!t));
                StepResult::Continue
            },
            OpCode::OpEqual | OpCode::OpGreater | OpCode::OpLess => {
                if n < 2 {
                    return StepResult::Fault(Fault::StackUnderflow);
                }
                self.read_byte();
                let b = self.pop();
                let a = &self.stack[n - 2];
                let r = match op {
                    OpCode::OpEqual => *a == b,
                    OpCode::OpGreater => a.greater_than(&b),
                    _ => a.less_than(&b),
                };
                self.set_top(Value::Boolean(r));
                StepResult::Continue
            },
            _ => {
                self.read_byte();
                StepResult::Continue
            },
        }
    }

    /// Stores the result of the arithmetic that the last step handed out in
    /// place of the left operand.
    pub fn complete_arithmetic(&mut self, result: u64)
        requires
            old(self).wf(),
            old(self).stack_spec().len() > 0,
        ensures
            final(self).wf(),
            final(self).code() == old(self).code(),
            final(self).constants() == old(self).constants(),
            final(self).line_table() == old(self).line_table(),
            final(self).ip_spec() == old(self).ip_spec(),
            final(self).stack_spec() == old(self).stack_spec().update(
                old(self).stack_spec().len() - 1,
                Value::Double(result),
            ),
    {
        self.set_top(Value::Double(result));
    }
}

} // verus!
