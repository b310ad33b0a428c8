//! The language the compiler accepts and the code it produces for each
//! construct, stated over the token stream of the source.
//!
//! Each rule takes the index of the token where the construct starts and the
//! number of constants written before it, and gives the fragment of code the
//! construct compiles to: the instruction bytes, the source line of each byte,
//! the constants it adds (number literals by their text, strings and names by
//! their bytes), and the index of the token after it; or, where the tokens
//! do not form the construct, the failure: which diagnostic is reported at
//! which token.

use vstd::prelude::*;
use crate::chunk::bytecode::{OpCode, opcode_byte};
use crate::chunk::chunk::{constant_instruction, global_instruction};
use crate::compiler::scanner::{
    eof_is_stable,
    lemma_next_token_facts,
    newlines,
    next_token,
    scan_error_message,
    terminated,
};
use vstd::string::*;
use crate::compiler::token::{TokenType, infix_power};

verus! {

// ---------------------------------------------------------------------------
// The token stream
// ---------------------------------------------------------------------------

/// The `k`-th token of `s`: its kind, and where its text starts and ends.
/// After the end of the text every further token is `Eof` again.
pub open spec fn token_at(s: Seq<u8>, k: int) -> (TokenType, int, int)
    decreases k,
{
    if k <= 0 {
        next_token(s, 0)
    } else {
        next_token(s, token_at(s, k - 1).2)
    }
}

/// The kind of the `k`-th token.
pub open spec fn kind_at(s: Seq<u8>, k: int) -> TokenType {
    token_at(s, k).0
}

/// The text of the `k`-th token.
pub open spec fn text_at(s: Seq<u8>, k: int) -> Seq<u8> {
    s.subrange(token_at(s, k).1, token_at(s, k).2)
}

/// The line on which the `k`-th token ends.
pub open spec fn line_at(s: Seq<u8>, k: int) -> u32 {
    (1 + newlines(s, token_at(s, k).2)) as u32
}

/// No token after the `a`-th up to the `b`-th is an error token.
pub open spec fn clean_between(s: Seq<u8>, a: int, b: int) -> bool {
    forall|i: int| a < i <= b ==> kind_at(s, i) != TokenType::Error
}

/// Every token of a terminated source lies in the text and leaves the rest
/// terminated; tokens other than `Eof` are not empty.
pub proof fn lemma_token_at_facts(s: Seq<u8>, k: int)
    requires
        terminated(s, 0),
        0 <= k,
    ensures
        0 <= token_at(s, k).1 <= token_at(s, k).2 < s.len(),
        terminated(s, token_at(s, k).2),
        kind_at(s, k) != TokenType::Eof ==> token_at(s, k).1 < token_at(s, k).2,
        kind_at(s, k) == TokenType::String ==> token_at(s, k).2 - token_at(s, k).1 >= 2,
        token_at(s, k + 1) == next_token(s, token_at(s, k).2),
        token_at(s, k).2 <= token_at(s, k + 1).1,
    decreases k,
{
    if k == 0 {
        lemma_next_token_facts(s, 0);
    } else {
        lemma_token_at_facts(s, k - 1);
        lemma_next_token_facts(s, token_at(s, k - 1).2);
    }
    lemma_next_token_facts(s, token_at(s, k).2);
}

/// Token starts never decrease along the stream.
pub proof fn lemma_token_starts_ordered(s: Seq<u8>, a: int, b: int)
    requires
        terminated(s, 0),
        0 <= a <= b,
    ensures
        token_at(s, a).1 <= token_at(s, b).1,
        a < b && kind_at(s, a) != TokenType::Eof ==> token_at(s, a).1 < token_at(s, b).1,
    decreases b - a,
{
    if a < b {
        lemma_token_starts_ordered(s, a, b - 1);
        lemma_token_at_facts(s, b - 1);
        if a < b - 1 {
            lemma_token_at_facts(s, a);
        }
    }
}

/// A stretch of tokens is free of error tokens exactly when both of its
/// parts are; one token is free of them when it is no error token.
pub proof fn lemma_clean_between_split(s: Seq<u8>, a: int, b: int, c: int)
    requires
        a <= b <= c,
    ensures
        clean_between(s, a, c) <==> clean_between(s, a, b) && clean_between(s, b, c),
        clean_between(s, a, a),
        clean_between(s, a, a + 1) <==> kind_at(s, a + 1) != TokenType::Error,
{
    if clean_between(s, a, b) && clean_between(s, b, c) {
        assert forall|i: int| a < i <= c implies kind_at(s, i) != TokenType::Error by {
            if i <= b {
                assert(a < i <= b);
            } else {
                assert(b < i <= c);
            }
        }
    }
    if !clean_between(s, a, a + 1) {
        let i = choose|i: int| a < i <= a + 1 && kind_at(s, i) == TokenType::Error;
        assert(i == a + 1);
    }
}

/// What is left of the text from the `k`-th token on.
pub open spec fn remaining(s: Seq<u8>, k: int) -> int {
    s.len() - token_at(s, k).1
}

/// Scanning the `k`-th token again and again at the end yields the same `Eof`.
pub proof fn lemma_eof_repeats(s: Seq<u8>, k: int)
    requires
        terminated(s, 0),
        0 <= k,
        kind_at(s, k) == TokenType::Eof,
    ensures
        token_at(s, k + 1) == token_at(s, k),
{
    lemma_token_at_facts(s, k);
    if k > 0 {
        lemma_token_at_facts(s, k - 1);
    }
    eof_is_stable(s, scan_pos(s, k - 1));
}

/// Where the scanner stands after the `k`-th token; before the first token
/// (`k` is -1) at the start of the text.
pub open spec fn scan_pos(s: Seq<u8>, k: int) -> int {
    if k < 0 {
        0
    } else {
        token_at(s, k).2
    }
}

// ---------------------------------------------------------------------------
// Fragments of code
// ---------------------------------------------------------------------------

/// A constant that the code adds: a number by the text of its literal, or a
/// string by the bytes between its quotes (names are strings too).
pub ghost enum ConstantText {
    Number(Seq<u8>),
    Text(Seq<u8>),
}

/// The code a construct compiles to, and the index of the token after it.
#[verifier::ext_equal]
pub ghost struct Fragment {
    pub next: int,
    pub code: Seq<u8>,
    pub lines: Seq<u32>,
    pub constants: Seq<ConstantText>,
}

/// The diagnostics of the compiler.
pub ghost enum Diagnostic {
    UnsupportedExpression,
    ExpectRightParen,
    InvalidAssignmentTarget,
    ExpectVariableName,
    ExpectSemicolonAfterVar,
    ExpectSemicolonAfterExpression,
    ExpectSemicolonAfterValue,
}

/// The message of a diagnostic.
pub open spec fn diagnostic_text(d: Diagnostic) -> &'static str {
    match d {
        Diagnostic::UnsupportedExpression => "unsupported expression.",
        Diagnostic::ExpectRightParen => "Expect ')' after expression.",
        Diagnostic::InvalidAssignmentTarget => "Invalid assignment target.",
        Diagnostic::ExpectVariableName => "Expect variable name.",
        Diagnostic::ExpectSemicolonAfterVar => "Expect ';' after variable declaration.",
        Diagnostic::ExpectSemicolonAfterExpression => "Expect ';' after expression.",
        Diagnostic::ExpectSemicolonAfterValue => "Expect ';' after value.",
    }
}

/// Where the tokens fail to form a construct: the diagnostic, the index of
/// the token it is reported at, and the index of the last token read when it
/// is found.
pub ghost struct Failure {
    pub at: int,
    pub read: int,
    pub diagnostic: Diagnostic,
}

/// The outcome of a construct that would end where it started, which no rule
/// gives (see the progress lemmas); it only keeps the recursion well-founded.
pub open spec fn no_progress(k: int) -> Failure {
    Failure { at: k, read: k + 1, diagnostic: Diagnostic::UnsupportedExpression }
}

/// Nothing written; the construct ends before token `next`.
pub open spec fn empty_at(next: int) -> Fragment {
    Fragment { next, code: Seq::empty(), lines: Seq::empty(), constants: Seq::empty() }
}

/// `line`, `n` times.
pub open spec fn repeat_line(n: nat, line: u32) -> Seq<u32> {
    Seq::new(n, |i: int| line)
}

/// `bytes` written on `line`.
pub open spec fn emit(next: int, bytes: Seq<u8>, line: u32) -> Fragment {
    Fragment { next, code: bytes, lines: repeat_line(bytes.len(), line), constants: Seq::empty() }
}

/// The instruction that loads a new constant, the `nc`-th, standing for `c`,
/// written on `line`.
pub open spec fn load_constant(next: int, nc: nat, c: ConstantText, line: u32) -> Fragment {
    Fragment { constants: seq![c], ..emit(next, constant_instruction(nc, nc as usize), line) }
}

/// A name added to the constants, with no code.
pub open spec fn name_fragment(next: int, name: Seq<u8>) -> Fragment {
    Fragment {
        next,
        code: Seq::empty(),
        lines: Seq::empty(),
        constants: seq![ConstantText::Text(name)],
    }
}

/// `a`, then `b`.
pub open spec fn then(a: Fragment, b: Fragment) -> Fragment {
    Fragment {
        next: b.next,
        code: a.code + b.code,
        lines: a.lines + b.lines,
        constants: a.constants + b.constants,
    }
}

/// The fragment with its end moved to token `next`.
pub open spec fn ending_at(f: Fragment, next: int) -> Fragment {
    Fragment { next, ..f }
}

/// `a` followed by the outcome `r`.
pub open spec fn then_res(a: Fragment, r: Result<Fragment, Failure>) -> Result<Fragment, Failure> {
    match r {
        Err(x) => Err(x),
        Ok(b) => Ok(then(a, b)),
    }
}

/// Joining fragments is associative.
pub proof fn lemma_then_assoc(a: Fragment, b: Fragment, c: Fragment)
    ensures
        then(then(a, b), c) == then(a, then(b, c)),
{
    assert(then(then(a, b), c) =~= then(a, then(b, c)));
}

/// An empty fragment adds nothing but its end.
pub proof fn lemma_then_empty(a: Fragment, n: int)
    ensures
        then(a, empty_at(n)) == ending_at(a, n),
        then(empty_at(n), a) == a,
{
    assert(then(a, empty_at(n)) =~= ending_at(a, n));
    assert(then(empty_at(n), a) =~= a);
}

// ---------------------------------------------------------------------------
// Expressions
// ---------------------------------------------------------------------------

/// An expression that starts with the `k`-th token, with operators that bind
/// at least as tightly as `min_bp`, after `nc` constants.
pub open spec fn expr_rule(s: Seq<u8>, k: int, min_bp: u8, nc: nat) -> Result<Fragment, Failure>
    decreases remaining(s, k), 2int,
    when terminated(s, 0) && 0 <= k
{
    match prefix_rule(s, k, min_bp, nc) {
        Err(x) => Err(x),
        Ok(p) => if p.next <= k || kind_at(s, k) == TokenType::Eof {
            Err(no_progress(k))
        } else {
            proof {
                lemma_token_starts_ordered(s, k, p.next);
                lemma_token_at_facts(s, k);
                lemma_token_at_facts(s, p.next);
            }
            match infix_rule(s, p.next, min_bp, nc + p.constants.len()) {
                Err(x) => Err(x),
                Ok(q) => if min_bp == 0 && kind_at(s, q.next) == TokenType::Equal {
                    Err(
                        Failure {
                            at: q.next,
                            read: q.next + 1,
                            diagnostic: Diagnostic::InvalidAssignmentTarget,
                        },
                    )
                } else {
                    Ok(then(p, q))
                },
            }
        },
    }
}

/// The operand of a prefix token, the `k`-th: a literal, a parenthesized
/// expression, a negation, or a variable read or (where the expression may be
/// an assignment) written.
pub open spec fn prefix_rule(s: Seq<u8>, k: int, min_bp: u8, nc: nat) -> Result<Fragment, Failure>
    decreases remaining(s, k), 1int,
    when terminated(s, 0) && 0 <= k
{
    let t = kind_at(s, k);
    proof {
        lemma_token_starts_ordered(s, k, k + 1);
        lemma_token_starts_ordered(s, k, k + 2);
        lemma_token_at_facts(s, k);
        lemma_token_at_facts(s, k + 1);
        lemma_token_at_facts(s, k + 2);
    }
    if is_literal(t) {
        Ok(literal(s, k, nc))
    } else if t == TokenType::LeftParen {
        grouping(s, k, expr_rule(s, k + 1, 0, nc))
    } else if t == TokenType::Minus || t == TokenType::Bang {
        negation(s, k, expr_rule(s, k + 1, 8, nc))
    } else if t == TokenType::Identifier {
        if min_bp == 0 && kind_at(s, k + 1) == TokenType::Equal {
            assignment(s, k, nc, expr_rule(s, k + 2, 0, nc + 1))
        } else {
            Ok(variable_read(s, k, nc))
        }
    } else {
        Err(Failure { at: k, read: k + 1, diagnostic: Diagnostic::UnsupportedExpression })
    }
}

/// The kinds of token that are literals.
pub open spec fn is_literal(t: TokenType) -> bool {
    ||| t == TokenType::Number
    ||| t == TokenType::String
    ||| t == TokenType::True
    ||| t == TokenType::False
    ||| t == TokenType::Nil
}

/// The literal that is the `k`-th token: a number or a string becomes a new
/// constant, the `nc`-th, loaded by its instruction; `true`, `false` and
/// `nil` have instructions of their own.
pub open spec fn literal(s: Seq<u8>, k: int, nc: nat) -> Fragment {
    let t = kind_at(s, k);
    let line = line_at(s, k);
    let text = text_at(s, k);
    if t == TokenType::Number {
        load_constant(k + 1, nc, ConstantText::Number(text), line)
    } else if t == TokenType::String {
        load_constant(k + 1, nc, ConstantText::Text(text.subrange(1, text.len() - 1)), line)
    } else if t == TokenType::True {
        emit(k + 1, seq![opcode_byte(OpCode::OpTrue)], line)
    } else if t == TokenType::False {
        emit(k + 1, seq![opcode_byte(OpCode::OpFalse)], line)
    } else {
        emit(k + 1, seq![opcode_byte(OpCode::OpNil)], line)
    }
}

/// A number literal adds one constant: its whole token text, fraction
/// included, as scanned from the source. A string literal adds one constant:
/// the text between its two quotes.
pub proof fn literals_keep_their_text(s: Seq<u8>, k: int, nc: nat)
    requires
        terminated(s, 0),
        0 <= k,
        kind_at(s, k) == TokenType::Number || kind_at(s, k) == TokenType::String,
    ensures
        literal(s, k, nc).constants.len() == 1,
        literal(s, k, nc).next == k + 1,
        kind_at(s, k) == TokenType::Number ==> literal(s, k, nc).constants[0] == ConstantText::Number(
            s.subrange(token_at(s, k).1, token_at(s, k).2),
        ),
        kind_at(s, k) == TokenType::String ==> (literal(s, k, nc).constants[0] matches ConstantText::Text(
            t,
        ) && seq![0x22u8] + t + seq![0x22u8] == text_at(s, k)),
{
    if kind_at(s, k) == TokenType::String {
        lemma_token_at_facts(s, k);
        let pos = if k == 0 {
            0
        } else {
            lemma_token_at_facts(s, k - 1);
            token_at(s, k - 1).2
        };
        assert(token_at(s, k) == next_token(s, pos));
        let p = crate::compiler::scanner::skip_trivia(s, pos);
        lemma_quote_end(s, p + 1);
        let (kind, start, end) = token_at(s, k);
        let text = text_at(s, k);
        let t = text.subrange(1, text.len() - 1);
        assert(s[start] == 0x22u8);
        assert(s[end - 1] == 0x22u8);
        assert(seq![0x22u8] + t + seq![0x22u8] =~= text);
    }
}

/// Looking for the closing quote stops at a quote or a NUL byte, not before
/// where it starts.
proof fn lemma_quote_end(s: Seq<u8>, i: int)
    requires
        0 <= i,
    ensures
        i <= crate::compiler::scanner::quote_end(s, i),
        crate::compiler::scanner::quote_end(s, i) < s.len() ==> (s[crate::compiler::scanner::quote_end(s, i)] == 0x22u8
            || s[crate::compiler::scanner::quote_end(s, i)] == 0u8),
    decreases s.len() - i,
{
    if i < s.len() && s[i] != 0x22u8 && s[i] != 0u8 {
        lemma_quote_end(s, i + 1);
    }
}

/// `( e )`, where the `(` is the `k`-th token and `e` the outcome of the
/// expression after it: its code, ending after a `)`.
pub open spec fn grouping(s: Seq<u8>, k: int, e: Result<Fragment, Failure>) -> Result<Fragment, Failure> {
    match e {
        Err(x) => Err(x),
        Ok(e) => if e.next <= k {
            Err(no_progress(k))
        } else if kind_at(s, e.next) == TokenType::RightParen {
            Ok(ending_at(e, e.next + 1))
        } else {
            Err(Failure { at: e.next, read: e.next, diagnostic: Diagnostic::ExpectRightParen })
        },
    }
}

/// `-e` or `!e`, where the operator is the `k`-th token and `e` the outcome of
/// its operand: the operand's code, then the operator's instruction.
pub open spec fn negation(s: Seq<u8>, k: int, e: Result<Fragment, Failure>) -> Result<Fragment, Failure> {
    match e {
        Err(x) => Err(x),
        Ok(e) => {
            let op = if kind_at(s, k) == TokenType::Minus {
                OpCode::OpNegate
            } else {
                OpCode::OpNot
            };
            Ok(then(e, emit(e.next, seq![opcode_byte(op)], line_at(s, e.next - 1))))
        },
    }
}

/// `name = e`, where the name is the `k`-th token and `e` the outcome of the
/// expression after the `=`: the name becomes the `nc`-th constant, then the
/// value's code and the instruction that stores it.
pub open spec fn assignment(s: Seq<u8>, k: int, nc: nat, e: Result<Fragment, Failure>) -> Result<Fragment, Failure> {
    match e {
        Err(x) => Err(x),
        Ok(e) => Ok(
            then(
                then(name_fragment(k + 1, text_at(s, k)), e),
                emit(
                    e.next,
                    global_instruction(OpCode::OpSetGlobal, OpCode::OpSetGlobalLong, nc as usize),
                    line_at(s, k),
                ),
            ),
        ),
    }
}

/// A read of the variable named by the `k`-th token: the name becomes the
/// `nc`-th constant, and the instruction that loads the variable follows.
pub open spec fn variable_read(s: Seq<u8>, k: int, nc: nat) -> Fragment {
    then(
        name_fragment(k + 1, text_at(s, k)),
        emit(
            k + 1,
            global_instruction(OpCode::OpGetGlobal, OpCode::OpGetGlobalLong, nc as usize),
            line_at(s, k),
        ),
    )
}

/// An infix operator, the `j`-th token, after the outcome `e` of its right
/// operand: the operand's code, then the operator's instructions.
pub open spec fn binary(s: Seq<u8>, j: int, e: Result<Fragment, Failure>) -> Result<Fragment, Failure> {
    match e {
        Err(x) => Err(x),
        Ok(e) => Ok(
            then(e, emit(e.next, operator_code(kind_at(s, j)), line_at(s, e.next - 1))),
        ),
    }
}

/// The infix operators from the `j`-th token on that bind at least as tightly
/// as `min_bp`, each with its right operand.
pub open spec fn infix_rule(s: Seq<u8>, j: int, min_bp: u8, nc: nat) -> Result<Fragment, Failure>
    decreases remaining(s, j), 1int,
    when terminated(s, 0) && 0 <= j
{
    let (lbp, rbp) = infix_power(kind_at(s, j));
    if lbp == 0 || lbp < min_bp {
        Ok(empty_at(j))
    } else {
        match binary_rule(s, j, rbp, nc) {
            Err(x) => Err(x),
            Ok(b) => if b.next <= j {
                Err(no_progress(j))
            } else {
                proof {
                    lemma_token_starts_ordered(s, j, b.next);
                    lemma_token_at_facts(s, j);
                    lemma_token_at_facts(s, b.next);
                }
                match infix_rule(s, b.next, min_bp, nc + b.constants.len()) {
                    Err(x) => Err(x),
                    Ok(rest) => Ok(then(b, rest)),
                }
            },
        }
    }
}

/// The infix operator at the `j`-th token with its right operand, whose
/// operators bind at least as tightly as `rbp`: the operand's code, then the
/// operator's.
pub open spec fn binary_rule(s: Seq<u8>, j: int, rbp: u8, nc: nat) -> Result<Fragment, Failure>
    decreases remaining(s, j), 0int,
    when terminated(s, 0) && 0 <= j
{
    if infix_power(kind_at(s, j)).0 == 0 {
        Err(no_progress(j))
    } else {
        proof {
            lemma_token_starts_ordered(s, j, j + 1);
            lemma_token_at_facts(s, j);
            lemma_token_at_facts(s, j + 1);
        }
        binary(s, j, expr_rule(s, j + 1, rbp, nc))
    }
}

// ---------------------------------------------------------------------------
// Statements and programs
// ---------------------------------------------------------------------------

/// The statement made of the expression whose outcome is `e` and a `;`
/// after it: the expression's code, then the instruction `op`; `d` where the
/// `;` is missing.
pub open spec fn statement_end(
    s: Seq<u8>,
    e: Result<Fragment, Failure>,
    op: OpCode,
    d: Diagnostic,
) -> Result<Fragment, Failure> {
    match e {
        Err(x) => Err(x),
        Ok(e) => if kind_at(s, e.next) == TokenType::Semicolon {
            Ok(then(e, emit(e.next + 1, seq![opcode_byte(op)], line_at(s, e.next))))
        } else {
            Err(Failure { at: e.next, read: e.next, diagnostic: d })
        },
    }
}

/// `var name [= expression];`, where the `k`-th token is `var`.
pub open spec fn var_rule(s: Seq<u8>, k: int, nc: nat) -> Result<Fragment, Failure>
    recommends
        terminated(s, 0) && 0 <= k,
{
    if kind_at(s, k + 1) != TokenType::Identifier {
        Err(Failure { at: k + 1, read: k + 1, diagnostic: Diagnostic::ExpectVariableName })
    } else if kind_at(s, k + 2) == TokenType::Equal {
        var_end(s, k, nc, expr_rule(s, k + 3, 0, nc + 1))
    } else {
        var_end(s, k, nc, Ok(emit(k + 2, seq![opcode_byte(OpCode::OpNil)], line_at(s, k + 1))))
    }
}

/// The end of `var name [= expression];`, where the `k`-th token is `var` and
/// `init` the outcome of the initial value's code: the name becomes the
/// `nc`-th constant, then the value's code and, after the `;`, the instruction
/// that defines the variable.
pub open spec fn var_end(s: Seq<u8>, k: int, nc: nat, init: Result<Fragment, Failure>) -> Result<Fragment, Failure> {
    match init {
        Err(x) => Err(x),
        Ok(e) => if kind_at(s, e.next) == TokenType::Semicolon {
            Ok(
                then(
                    then(name_fragment(k + 2, text_at(s, k + 1)), e),
                    emit(
                        e.next + 1,
                        global_instruction(
                            OpCode::OpDefineGlobal,
                            OpCode::OpDefineGlobalLong,
                            nc as usize,
                        ),
                        line_at(s, e.next),
                    ),
                ),
            )
        } else {
            Err(
                Failure {
                    at: e.next,
                    read: e.next,
                    diagnostic: Diagnostic::ExpectSemicolonAfterVar,
                },
            )
        },
    }
}

/// `print expression;`, where the `k`-th token is `print`.
pub open spec fn print_rule(s: Seq<u8>, k: int, nc: nat) -> Result<Fragment, Failure>
    recommends
        terminated(s, 0) && 0 <= k,
{
    statement_end(s, expr_rule(s, k + 1, 0, nc), OpCode::OpPrint, Diagnostic::ExpectSemicolonAfterValue)
}

/// `expression;` from the `k`-th token, whose value is discarded.
pub open spec fn expression_statement_rule(s: Seq<u8>, k: int, nc: nat) -> Result<Fragment, Failure>
    recommends
        terminated(s, 0) && 0 <= k,
{
    statement_end(
        s,
        expr_rule(s, k, 0, nc),
        OpCode::OpPop,
        Diagnostic::ExpectSemicolonAfterExpression,
    )
}

/// A declaration or statement that starts with the `k`-th token.
pub open spec fn declaration_rule(s: Seq<u8>, k: int, nc: nat) -> Result<Fragment, Failure>
    recommends
        terminated(s, 0) && 0 <= k,
{
    let t = kind_at(s, k);
    if t == TokenType::Var {
        var_rule(s, k, nc)
    } else if t == TokenType::Print {
        print_rule(s, k, nc)
    } else {
        expression_statement_rule(s, k, nc)
    }
}

/// A declaration ends after the token where it starts.
pub proof fn lemma_declaration_progress(s: Seq<u8>, k: int, nc: nat)
    requires
        terminated(s, 0),
        0 <= k,
    ensures
        declaration_rule(s, k, nc) matches Ok(f) ==> f.next > k,
        var_rule(s, k, nc) matches Ok(f) ==> f.next > k,
        print_rule(s, k, nc) matches Ok(f) ==> f.next > k,
        expression_statement_rule(s, k, nc) matches Ok(f) ==> f.next > k,
        declaration_rule(s, k, nc) matches Err(x) ==> x.read > k,
        var_rule(s, k, nc) matches Err(x) ==> x.read > k,
        print_rule(s, k, nc) matches Err(x) ==> x.read > k,
        expression_statement_rule(s, k, nc) matches Err(x) ==> x.read > k,
{
    lemma_expr_progress(s, k, 0, nc);
    lemma_expr_progress(s, k + 1, 0, nc);
    lemma_expr_progress(s, k + 3, 0, nc + 1);
}

/// The declarations from the `k`-th token to the end, then `OpReturn`.
pub open spec fn program_rule(s: Seq<u8>, k: int, nc: nat) -> Result<Fragment, Failure>
    decreases remaining(s, k),
    when terminated(s, 0) && 0 <= k
{
    if kind_at(s, k) == TokenType::Eof {
        Ok(emit(k + 1, seq![opcode_byte(OpCode::OpReturn)], line_at(s, k)))
    } else {
        match declaration_rule(s, k, nc) {
            Err(x) => Err(x),
            Ok(d) => if d.next <= k {
                Err(no_progress(k))
            } else {
                proof {
                    lemma_token_starts_ordered(s, k, d.next);
                    lemma_token_at_facts(s, k);
                    lemma_token_at_facts(s, d.next);
                }
                match program_rule(s, d.next, nc + d.constants.len()) {
                    Err(x) => Err(x),
                    Ok(rest) => Ok(then(d, rest)),
                }
            },
        }
    }
}

/// One step of a program: at `Eof` the final `OpReturn`; else a declaration
/// and the rest of the program after it, which ends later.
pub proof fn lemma_program_rule_step(s: Seq<u8>, k: int, nc: nat)
    requires
        terminated(s, 0),
        0 <= k,
    ensures
        program_rule(s, k, nc) matches Ok(f) ==> f.next > k,
        program_rule(s, k, nc) matches Err(x) ==> x.read > k,
        kind_at(s, k) != TokenType::Eof ==> {
            &&& declaration_rule(s, k, nc) matches Ok(d) ==> d.next > k
            &&& program_rule(s, k, nc) == match declaration_rule(s, k, nc) {
                Err(x) => Err(x),
                Ok(d) => then_res(d, program_rule(s, d.next, nc + d.constants.len())),
            }
            &&& declaration_rule(s, k, nc) matches Ok(d) ==> (program_rule(
                s,
                d.next,
                nc + d.constants.len(),
            ) matches Ok(q) ==> q.next > d.next)
        },
    decreases remaining(s, k),
{
    lemma_declaration_progress(s, k, nc);
    if kind_at(s, k) != TokenType::Eof {
        if let Ok(d) = declaration_rule(s, k, nc) {
            lemma_token_starts_ordered(s, k, d.next);
            lemma_token_at_facts(s, k);
            lemma_token_at_facts(s, d.next);
            lemma_program_rule_step(s, d.next, nc + d.constants.len());
        }
    }
}

/// What the source `s` compiles to: the code of its declarations and the
/// final `OpReturn`, provided the tokens form a program and none of the
/// tokens read is an error token.
pub open spec fn compiled(s: Seq<u8>) -> Option<Fragment> {
    match program_rule(s, 0, 0) {
        Ok(f) => if clean_between(s, -1, f.next) {
            Some(f)
        } else {
            None
        },
        Err(_) => None,
    }
}

/// The first error that compiling `s` finds where it finds one: the first
/// error token read, if one is read before the tokens fail to form a program;
/// else that failure.
pub open spec fn first_error(s: Seq<u8>) -> Report {
    match program_rule(s, 0, 0) {
        Ok(f) => scanner_report(s, first_error_token(s, -1, f.next)),
        Err(x) => failure_report(s, -1, x),
    }
}

// ---------------------------------------------------------------------------
// First errors
// ---------------------------------------------------------------------------

/// The first error token after the `a`-th up to the `b`-th; `b` where there
/// is none.
pub open spec fn first_error_token(s: Seq<u8>, a: int, b: int) -> int
    decreases b - a,
{
    if a >= b {
        b
    } else if kind_at(s, a + 1) == TokenType::Error {
        a + 1
    } else {
        first_error_token(s, a + 1, b)
    }
}

/// An error as reported: the index of the token it is reported at, and its
/// message.
pub ghost struct Report {
    pub at: int,
    pub message: Seq<u8>,
}

/// The report of the error token at index `t`: the scanner's message.
pub open spec fn scanner_report(s: Seq<u8>, t: int) -> Report {
    Report { at: t, message: scan_error_message(s, token_at(s, t).1).spec_bytes() }
}

/// The first error found after the `k`-th token by reading the tokens up to
/// the `read`-th and then, if none of them is an error token, finding
/// `found`.
pub open spec fn first_report(s: Seq<u8>, k: int, read: int, found: Report) -> Report {
    if clean_between(s, k, read) {
        found
    } else {
        scanner_report(s, first_error_token(s, k, read))
    }
}

/// The first error found after the `k`-th token by a construct that fails
/// with `f`.
pub open spec fn failure_report(s: Seq<u8>, k: int, f: Failure) -> Report {
    first_report(
        s,
        k,
        f.read,
        Report { at: f.at, message: diagnostic_text(f.diagnostic).spec_bytes() },
    )
}

/// The first error found after the `k`-th token by a construct whose outcome
/// is `r`, where one is found: where `r` is a fragment, the first error token
/// read up to its end; else the failure's report.
pub open spec fn outcome_report(s: Seq<u8>, k: int, r: Result<Fragment, Failure>) -> Report {
    match r {
        Ok(f) => scanner_report(s, first_error_token(s, k, f.next)),
        Err(x) => failure_report(s, k, x),
    }
}

/// Where an error token comes after the `k`-th token up to the `m`-th, the
/// first error of any outcome that reads at least that far is that token's.
pub proof fn lemma_outcome_report_from(s: Seq<u8>, k: int, m: int, r: Result<Fragment, Failure>)
    requires
        k <= m,
        !clean_between(s, k, m),
        r matches Ok(f) ==> f.next >= m,
        r matches Err(x) ==> x.read >= m,
    ensures
        outcome_report(s, k, r) == scanner_report(s, first_error_token(s, k, m)),
        r matches Ok(f) ==> !clean_between(s, k, f.next),
{
    match r {
        Ok(f) => {
            lemma_clean_between_split(s, k, m, f.next);
            lemma_first_error_split(s, k, m, f.next);
        },
        Err(x) => {
            lemma_first_report_split(
                s,
                k,
                m,
                x.read,
                Report { at: x.at, message: diagnostic_text(x.diagnostic).spec_bytes() },
            );
        },
    }
}

/// Where no error token comes after the `k`-th token up to the `m`-th, the
/// first error of an outcome that reads at least that far is the same from
/// either token.
pub proof fn lemma_outcome_report_shift(s: Seq<u8>, k: int, m: int, r: Result<Fragment, Failure>)
    requires
        k <= m,
        clean_between(s, k, m),
        r matches Ok(f) ==> f.next >= m,
        r matches Err(x) ==> x.read >= m,
    ensures
        outcome_report(s, k, r) == outcome_report(s, m, r),
        r matches Ok(f) ==> (clean_between(s, k, f.next) <==> clean_between(s, m, f.next)),
{
    match r {
        Ok(f) => {
            lemma_clean_between_split(s, k, m, f.next);
            lemma_first_error_split(s, k, m, f.next);
        },
        Err(x) => {
            lemma_first_report_split(
                s,
                k,
                m,
                x.read,
                Report { at: x.at, message: diagnostic_text(x.diagnostic).spec_bytes() },
            );
        },
    }
}

/// In a stretch split in two, the first error token lies in the first part
/// if that has one, else it is the first of the second part.
pub proof fn lemma_first_error_split(s: Seq<u8>, a: int, b: int, c: int)
    requires
        a <= b <= c,
    ensures
        !clean_between(s, a, b) ==> first_error_token(s, a, c) == first_error_token(s, a, b),
        clean_between(s, a, b) ==> first_error_token(s, a, c) == first_error_token(s, b, c),
    decreases b - a,
{
    lemma_clean_between_split(s, a, b, c);
    if a < b {
        lemma_clean_between_split(s, a, a + 1, b);
        if kind_at(s, a + 1) != TokenType::Error {
            lemma_first_error_split(s, a + 1, b, c);
        }
    }
}

/// Reading on from a first report: where the tokens up to the `m`-th are
/// free of error tokens, the first report from the `k`-th token is the one
/// from the `m`-th; where they are not, it is that of their first error
/// token, whatever comes later.
pub proof fn lemma_first_report_split(s: Seq<u8>, k: int, m: int, read: int, found: Report)
    requires
        k <= m <= read,
    ensures
        clean_between(s, k, m) ==> first_report(s, k, read, found) == first_report(
            s,
            m,
            read,
            found,
        ),
        !clean_between(s, k, m) ==> first_report(s, k, read, found) == scanner_report(
            s,
            first_error_token(s, k, m),
        ),
{
    lemma_clean_between_split(s, k, m, read);
    lemma_first_error_split(s, k, m, read);
}

/// An expression's prefix construct followed by its infix tail.
pub open spec fn expr_parts(s: Seq<u8>, k: int, min_bp: u8, nc: nat) -> Result<Fragment, Failure> {
    match prefix_rule(s, k, min_bp, nc) {
        Err(x) => Err(x),
        Ok(p) => then_res(p, infix_rule(s, p.next, min_bp, nc + p.constants.len())),
    }
}

/// The outcome `r` of an expression, refused where the expression may be an
/// assignment and an `=` follows it: only a variable can be assigned to.
pub open spec fn assignment_check(s: Seq<u8>, min_bp: u8, r: Result<Fragment, Failure>) -> Result<Fragment, Failure> {
    match r {
        Err(x) => Err(x),
        Ok(f) => if min_bp == 0 && kind_at(s, f.next) == TokenType::Equal {
            Err(
                Failure {
                    at: f.next,
                    read: f.next + 1,
                    diagnostic: Diagnostic::InvalidAssignmentTarget,
                },
            )
        } else {
            Ok(f)
        },
    }
}

/// An expression is its prefix construct and infix tail, checked for a
/// misplaced `=`.
pub proof fn lemma_expr_rule_parts(s: Seq<u8>, k: int, min_bp: u8, nc: nat)
    requires
        terminated(s, 0),
        0 <= k,
    ensures
        expr_rule(s, k, min_bp, nc) == assignment_check(s, min_bp, expr_parts(s, k, min_bp, nc)),
        expr_parts(s, k, min_bp, nc) matches Ok(f) ==> f.next > k,
        prefix_rule(s, k, min_bp, nc) matches Ok(p) ==> {
            &&& p.next > k
            &&& (infix_rule(s, p.next, min_bp, nc + p.constants.len()) matches Ok(q) ==> q.next
                >= p.next)
        },
{
    lemma_prefix_progress(s, k, min_bp, nc);
    if let Ok(p) = prefix_rule(s, k, min_bp, nc) {
        assert(kind_at(s, k) != TokenType::Eof);
        lemma_infix_progress(s, p.next, min_bp, nc + p.constants.len());
    }
}

/// One step of an infix tail: where the `j`-th token is an operator that
/// binds tightly enough, its operand and operator, then the rest of the tail;
/// else nothing.
pub proof fn lemma_infix_rule_step(s: Seq<u8>, j: int, min_bp: u8, nc: nat)
    requires
        terminated(s, 0),
        0 <= j,
    ensures
        ({
            let (lbp, rbp) = infix_power(kind_at(s, j));
            if lbp == 0 || lbp < min_bp {
                infix_rule(s, j, min_bp, nc) == Ok::<Fragment, Failure>(empty_at(j))
            } else {
                &&& binary_rule(s, j, rbp, nc) matches Ok(b) ==> b.next > j
                &&& infix_rule(s, j, min_bp, nc) == match binary_rule(s, j, rbp, nc) {
                    Err(x) => Err(x),
                    Ok(b) => then_res(b, infix_rule(s, b.next, min_bp, nc + b.constants.len())),
                }
                &&& binary_rule(s, j, rbp, nc) matches Ok(b) ==> (infix_rule(
                    s,
                    b.next,
                    min_bp,
                    nc + b.constants.len(),
                ) matches Ok(q) ==> q.next >= b.next)
            }
        }),
{
    let (lbp, rbp) = infix_power(kind_at(s, j));
    if !(lbp == 0 || lbp < min_bp) {
        lemma_binary_progress(s, j, rbp, nc);
        if let Ok(b) = binary_rule(s, j, rbp, nc) {
            lemma_token_starts_ordered(s, j, b.next);
            lemma_token_at_facts(s, j);
            lemma_token_at_facts(s, b.next);
            lemma_infix_progress(s, b.next, min_bp, nc + b.constants.len());
        }
    }
}

/// An expression ends after the token where it starts.
pub proof fn lemma_expr_progress(s: Seq<u8>, k: int, bp: u8, nc: nat)
    requires
        terminated(s, 0),
        0 <= k,
    ensures
        expr_rule(s, k, bp, nc) matches Ok(f) ==> f.next > k,
        expr_rule(s, k, bp, nc) matches Err(x) ==> x.read > k,
    decreases remaining(s, k), 2int,
{
    lemma_prefix_progress(s, k, bp, nc);
    if let Ok(p) = prefix_rule(s, k, bp, nc) {
        if p.next > k && kind_at(s, k) != TokenType::Eof {
            lemma_token_starts_ordered(s, k, p.next);
            lemma_token_at_facts(s, k);
            lemma_token_at_facts(s, p.next);
            lemma_infix_progress(s, p.next, bp, nc + p.constants.len());
        }
    }
}

/// A prefix construct ends after its first token.
pub proof fn lemma_prefix_progress(s: Seq<u8>, k: int, bp: u8, nc: nat)
    requires
        terminated(s, 0),
        0 <= k,
    ensures
        prefix_rule(s, k, bp, nc) matches Ok(f) ==> f.next > k,
        prefix_rule(s, k, bp, nc) matches Err(x) ==> x.read > k,
    decreases remaining(s, k), 1int,
{
    let t = kind_at(s, k);
    lemma_token_starts_ordered(s, k, k + 1);
    lemma_token_starts_ordered(s, k, k + 2);
    lemma_token_at_facts(s, k);
    lemma_token_at_facts(s, k + 1);
    lemma_token_at_facts(s, k + 2);
    if t == TokenType::LeftParen {
        lemma_expr_progress(s, k + 1, 0, nc);
    } else if t == TokenType::Minus || t == TokenType::Bang {
        lemma_expr_progress(s, k + 1, 8, nc);
    } else if t == TokenType::Identifier && bp == 0 && kind_at(s, k + 1) == TokenType::Equal {
        lemma_expr_progress(s, k + 2, 0, nc + 1);
    }
}

/// An infix tail ends at or after the token where it starts.
pub proof fn lemma_infix_progress(s: Seq<u8>, j: int, bp: u8, nc: nat)
    requires
        terminated(s, 0),
        0 <= j,
    ensures
        infix_rule(s, j, bp, nc) matches Ok(f) ==> f.next >= j,
        infix_rule(s, j, bp, nc) matches Err(x) ==> x.read > j,
    decreases remaining(s, j), 1int,
{
    let (lbp, rbp) = infix_power(kind_at(s, j));
    if !(lbp == 0 || lbp < bp) {
        lemma_token_starts_ordered(s, j, j + 1);
        lemma_token_at_facts(s, j);
        lemma_token_at_facts(s, j + 1);
        lemma_expr_progress(s, j + 1, rbp, nc);
        if let Ok(b) = binary_rule(s, j, rbp, nc) {
            if b.next > j {
                lemma_token_starts_ordered(s, j, b.next);
                lemma_token_at_facts(s, j);
                lemma_token_at_facts(s, b.next);
                lemma_infix_progress(s, b.next, bp, nc + b.constants.len());
            }
        }
    }
}

/// An operator with its operand ends after the operator.
pub proof fn lemma_binary_progress(s: Seq<u8>, j: int, rbp: u8, nc: nat)
    requires
        terminated(s, 0),
        0 <= j,
    ensures
        binary_rule(s, j, rbp, nc) matches Ok(f) ==> f.next > j,
        binary_rule(s, j, rbp, nc) matches Err(x) ==> x.read > j,
{
    if infix_power(kind_at(s, j)).0 != 0 {
        lemma_token_starts_ordered(s, j, j + 1);
        lemma_token_at_facts(s, j);
        lemma_token_at_facts(s, j + 1);
        lemma_expr_progress(s, j + 1, rbp, nc);
    }
}

/// The instructions a binary operator compiles to, after its operands.
pub open spec fn operator_code(t: TokenType) -> Seq<u8> {
    match t {
        TokenType::Plus => seq![opcode_byte(OpCode::OpAdd)],
        TokenType::Minus => seq![opcode_byte(OpCode::OpSub)],
        TokenType::Star => seq![opcode_byte(OpCode::OpMul)],
        TokenType::Slash => seq![opcode_byte(OpCode::OpDiv)],
        TokenType::EqualEqual => seq![opcode_byte(OpCode::OpEqual)],
        TokenType::BangEqual => seq![opcode_byte(OpCode::OpEqual), opcode_byte(OpCode::OpNot)],
        TokenType::Greater => seq![opcode_byte(OpCode::OpGreater)],
        TokenType::GreaterEqual => seq![opcode_byte(OpCode::OpLess), opcode_byte(OpCode::OpNot)],
        TokenType::Less => seq![opcode_byte(OpCode::OpLess)],
        _ => seq![opcode_byte(OpCode::OpGreater), opcode_byte(OpCode::OpNot)],
    }
}

} // verus!
