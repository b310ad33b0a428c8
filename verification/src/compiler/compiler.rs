//! The single-pass compiler: a Pratt parser over the scanner's tokens that
//! writes bytecode into a chunk as it parses.
//!
//! Diagnostics are collected as `CompileError` values rather than printed;
//! number literals are converted to doubles by the caller's `number`
//! function, which receives the literal's text.
//!
//! Each parsing function states what it does over the rules of
//! `grammar`: starting at the `k`-th token, it writes exactly the fragment of
//! code the rule gives and stops at the token after the construct, or else it
//! records as its first error the first error token it reads or the rule's
//! failure (see `Parser::follows`). `compile` then returns the chunk exactly
//! when the source is a program of the grammar, and otherwise reports first
//! the error that the grammar finds first.

use vstd::prelude::*;
use vstd::string::*;
use crate::chunk::bytecode::{OpCode, opcode_byte};
use crate::chunk::chunk::{
    Chunk,
    constant_instruction,
    global_instruction,
    lemma_append_keeps_ok,
    lemma_constant_instruction_decodes,
    lemma_decodes_more_constants,
    lemma_global_instruction_decodes,
    lemma_simple_instruction_decodes,
    operand_len,
};
use crate::chunk::line::{
    add_lines,
    lemma_add_lines_append,
    lemma_can_count_from_total,
    lemma_with_line_times_is_add_lines,
    total_count,
};
use crate::chunk::obj::{StringTable, object_text, utf8_lossy};
use crate::chunk::value::Value;
use crate::compiler::grammar::{
    ConstantText,
    Diagnostic,
    Failure,
    Fragment,
    Report,
    assignment,
    assignment_check,
    binary_rule,
    clean_between,
    compiled,
    declaration_rule,
    diagnostic_text,
    emit,
    empty_at,
    ending_at,
    expr_parts,
    expr_rule,
    expression_statement_rule,
    failure_report,
    first_error,
    first_error_token,
    grouping,
    infix_rule,
    kind_at,
    lemma_binary_progress,
    lemma_clean_between_split,
    lemma_declaration_progress,
    lemma_eof_repeats,
    lemma_expr_progress,
    lemma_expr_rule_parts,
    lemma_first_error_split,
    lemma_first_report_split,
    lemma_infix_progress,
    lemma_infix_rule_step,
    lemma_outcome_report_from,
    lemma_outcome_report_shift,
    lemma_prefix_progress,
    lemma_program_rule_step,
    lemma_then_assoc,
    lemma_then_empty,
    line_at,
    literal,
    load_constant,
    name_fragment,
    negation,
    operator_code,
    outcome_report,
    prefix_rule,
    print_rule,
    program_rule,
    repeat_line,
    scan_pos,
    scanner_report,
    statement_end,
    text_at,
    then,
    then_res,
    token_at,
    var_rule,
    variable_read,
};
use crate::compiler::scanner::{
    Scanner,
    lemma_next_token_facts,
    newlines,
    next_token,
    scan_error_message,
    terminated,
};
use crate::compiler::token::{
    Token,
    TokenType,
    infix_binding_power,
    infix_power,
    prefix_binding_power,
};

verus! {

/// Where in the source an error was found.
#[derive(Debug, Clone, Copy)]
pub enum ErrorLocation<'a> {
    /// At the end of the source.
    AtEnd,
    /// At the token with this text.
    Lexeme(&'a [u8]),
    /// At an error token, whose message already says where.
    Unlocated,
}

/// A diagnostic of the compiler.
#[derive(Debug, Clone, Copy)]
pub struct CompileError<'a> {
    pub line: i32,
    pub location: ErrorLocation<'a>,
    pub message: &'a [u8],
}

/// The largest budget (see `Parser::budget`) the parser works within: every
/// count of the line table then fits in `u32`.
pub open spec fn budget_limit() -> int {
    u32::MAX - 16
}

/// A token as the scanner makes them: its text lies within `start`, and a
/// string token holds at least its two quotes.
pub open spec fn token_ok(t: Token) -> bool {
    &&& t.length <= t.start@.len()
    &&& t.token_type == TokenType::String ==> t.length >= 2
}

/// The token `t` is the `k`-th token of `s`: same kind, same text, and the
/// line on which it ends.
pub open spec fn token_matches(t: Token, s: Seq<u8>, k: int) -> bool {
    &&& t.token_type == kind_at(s, k)
    &&& t.lexeme() == text_at(s, k)
    &&& t.line == 1 + newlines(s, token_at(s, k).2)
}

/// Where scanning `s` from `p` first yields a token other than an error
/// token: `p` itself, or the end of each error token met before it.
pub open spec fn skip_errors(s: Seq<u8>, p: int) -> int
    decreases s.len() - p,
{
    let (kind, start, end) = next_token(s, p);
    if 0 <= p < end <= s.len() && kind == TokenType::Error {
        skip_errors(s, end)
    } else {
        p
    }
}

/// Skipping error tokens moves forward and stays in the scannable text.
proof fn lemma_skip_errors(s: Seq<u8>, p: int)
    requires
        0 <= p,
        terminated(s, p),
    ensures
        p <= skip_errors(s, p),
        terminated(s, skip_errors(s, p)),
    decreases s.len() - p,
{
    lemma_next_token_facts(s, p);
    let (kind, start, end) = next_token(s, p);
    if 0 <= p < end <= s.len() && kind == TokenType::Error {
        lemma_skip_errors(s, end);
    }
}

/// A likely statement boundary, by the kinds of the previous and the current
/// token: the end of the source, just after a `;`, or before a keyword that
/// starts a statement.
pub open spec fn boundary(previous: TokenType, current: TokenType) -> bool {
    ||| current == TokenType::Eof
    ||| previous == TokenType::Semicolon
    ||| starts_statement(current)
}

/// Where skipping tokens stops, from previous and current tokens of kinds
/// `previous` and `current` with the scanner at `p` in `s`: the first pair of
/// kinds on the way that is a boundary, each step reading the next token
/// other than an error token. The kinds of the previous and the current
/// token there, and the scanner's position.
pub open spec fn synced(s: Seq<u8>, previous: TokenType, current: TokenType, p: int) -> (
    TokenType,
    TokenType,
    int,
)
    decreases s.len() - p, if current == TokenType::Eof {
        0int
    } else {
        1int
    },
{
    if boundary(previous, current) {
        (previous, current, p)
    } else {
        let (kind, start, end) = next_token(s, skip_errors(s, p));
        if p < end <= s.len() || (p == end && kind == TokenType::Eof) {
            synced(s, current, kind, end)
        } else {
            (previous, current, p)
        }
    }
}

/// The text of `t` starts somewhere in `s` and runs to its end.
#[verifier::opaque]
pub open spec fn token_in_source(t: Token, s: Seq<u8>) -> bool {
    exists|a: int| 0 <= a <= s.len() && t.start@ == s.subrange(a, s.len() as int)
}

/// `bytes` is a stretch of `s`.
#[verifier::opaque]
pub open spec fn stretch_of(bytes: Seq<u8>, s: Seq<u8>) -> bool {
    exists|a: int, b: int| 0 <= a <= b <= s.len() && bytes == s.subrange(a, b)
}

/// `text` is what a stretch of `s` decodes to.
#[verifier::opaque]
pub open spec fn decodes_stretch(text: Seq<char>, s: Seq<u8>) -> bool {
    exists|a: int, b: int| 0 <= a <= b <= s.len() && text == utf8_lossy(s.subrange(a, b))
}

/// A token's text, and its text without the first and last byte, are
/// stretches of the source it lies in.
proof fn lemma_token_stretch(t: Token, s: Seq<u8>)
    requires
        token_in_source(t, s),
        t.length <= t.start@.len(),
    ensures
        stretch_of(t.lexeme(), s),
        t.length >= 2 ==> stretch_of(t.lexeme().subrange(1, t.length - 1), s),
{
    reveal(token_in_source);
    reveal(stretch_of);
    let a = choose|a: int| 0 <= a <= s.len() && t.start@ == s.subrange(a, s.len() as int);
    assert(t.lexeme() == s.subrange(a, a + t.length));
    if t.length >= 2 {
        assert(t.lexeme().subrange(1, t.length - 1) == s.subrange(a + 1, a + t.length - 1));
    }
}

/// What a stretch of the source decodes to is a decoded stretch.
proof fn lemma_stretch_decodes(bytes: Seq<u8>, s: Seq<u8>)
    requires
        stretch_of(bytes, s),
    ensures
        decodes_stretch(utf8_lossy(bytes), s),
{
    reveal(stretch_of);
    reveal(decodes_stretch);
    let (a, b) = choose|a: int, b: int| 0 <= a <= b <= s.len() && bytes == s.subrange(a, b);
    assert(utf8_lossy(bytes) == utf8_lossy(s.subrange(a, b)));
}

/// The interned texts after interning the text of the constant `c`, if it
/// is a string or a name.
pub open spec fn intern_text(t: Seq<Seq<char>>, c: ConstantText) -> Seq<Seq<char>> {
    match c {
        ConstantText::Number(_) => t,
        ConstantText::Text(x) => if t.contains(utf8_lossy(x)) {
            t
        } else {
            t.push(utf8_lossy(x))
        },
    }
}

/// The interned texts after interning, in order, the texts of the strings
/// and names among `cs`.
pub open spec fn interned(t: Seq<Seq<char>>, cs: Seq<ConstantText>) -> Seq<Seq<char>>
    decreases cs.len(),
{
    if cs.len() == 0 {
        t
    } else {
        interned(intern_text(t, cs[0]), cs.drop_first())
    }
}

/// Interning `a` and then `b` is interning `a + b`.
proof fn lemma_interned_append(t: Seq<Seq<char>>, a: Seq<ConstantText>, b: Seq<ConstantText>)
    ensures
        interned(interned(t, a), b) == interned(t, a + b),
    decreases a.len(),
{
    if a.len() > 0 {
        lemma_interned_append(intern_text(t, a[0]), a.drop_first(), b);
        assert((a + b).drop_first() =~= a.drop_first() + b);
    } else {
        assert(a + b =~= b);
    }
}

/// `d` is a double (by its bits) that `number` can give for `text`.
pub open spec fn number_result<F: Fn(&[u8]) -> u64>(number: F, text: Seq<u8>, d: u64) -> bool {
    exists|b: &[u8]| b@ == text && #[trigger] number.ensures((b,), d)
}

/// The value `v` is what the constant text `c` stands for: a number literal
/// the double that `number` gives for its text, a string the interned object
/// with its text.
pub open spec fn constant_matches<F: Fn(&[u8]) -> u64>(number: F, c: ConstantText, v: Value) -> bool {
    match c {
        ConstantText::Number(text) => v matches Value::Double(d) && number_result(number, text, d),
        ConstantText::Text(text) => v matches Value::Obj(o) && object_text(*o) == utf8_lossy(text),
    }
}

/// The parser state of one compilation.
pub struct Parser<'a, F: Fn(&[u8]) -> u64> {
    pub current: Token<'a>,
    pub previous: Token<'a>,
    pub scanner: Scanner<'a>,
    pub chunk: Chunk,
    pub had_error: bool,
    pub panic_mode: bool,
    pub table: StringTable,
    pub errors: Vec<CompileError<'a>>,
    pub number: F,
}

impl<'a, F: Fn(&[u8]) -> u64> Parser<'a, F> {
    /// What is left to parse: the unscanned bytes, and one more while the
    /// current token is not `Eof`. Consuming a token other than `Eof`
    /// decreases it.
    pub closed spec fn measure(&self) -> int {
        (self.scanner.source@.len() - self.scanner.current) + if self.current.token_type
            == TokenType::Eof {
            0int
        } else {
            1int
        }
    }

    /// The bytes written so far plus eight for each token still to come: no
    /// construct writes more bytes than eight per token it consumes.
    pub closed spec fn budget(&self) -> int {
        self.chunk.bytes().len() + 8 * self.measure()
    }

    /// The parts agree: the scanner stands in its terminated source, the
    /// chunk decodes, errors were recorded exactly when `had_error` is set
    /// (and before panic mode), `number` accepts every text, and the current
    /// token is never an error token.
    pub closed spec fn wf(&self) -> bool {
        &&& self.scanner.wf()
        &&& self.chunk.ok()
        &&& self.had_error <==> self.errors@.len() > 0
        &&& forall|b: &[u8]| self.number.requires((b,))
        &&& self.table.wf()
        &&& token_ok(self.current)
        &&& token_ok(self.previous)
        &&& terminated(self.scanner.source@, 0)
        &&& self.panic_mode ==> self.had_error
        &&& self.current.token_type != TokenType::Error
        &&& token_in_source(self.current, self.scanner.source@)
        &&& token_in_source(self.previous, self.scanner.source@)
    }

    /// The source being compiled.
    pub open spec fn source(&self) -> Seq<u8> {
        self.scanner.source@
    }

    /// No error has been found so far.
    pub open spec fn clean(&self) -> bool {
        !self.had_error
    }

    /// The parser has read the tokens of its source up to the `k`-th, which
    /// is the current token, the one before being the previous token; at
    /// `k == -1` nothing has been read yet.
    pub open spec fn at(&self, k: int) -> bool {
        let s = self.source();
        &&& -1 <= k
        &&& self.scanner.current == scan_pos(s, k)
        &&& k >= 0 ==> token_matches(self.current, s, k)
        &&& k >= 1 ==> token_matches(self.previous, s, k - 1)
    }

    /// Since `old`, the chunk has grown by the code, lines and constants of
    /// `f`, each constant being what its text stands for.
    pub open spec fn extends(&self, old: &Self, f: Fragment) -> bool {
        let n = old.chunk.constants().len();
        &&& self.chunk.bytes() == old.chunk.bytes() + f.code
        &&& self.chunk.line_table() == add_lines(old.chunk.line_table(), f.lines)
        &&& self.chunk.constants().len() == n + f.constants.len()
        &&& self.chunk.constants().subrange(0, n as int) == old.chunk.constants()
        &&& self.table@ == interned(old.table@, f.constants)
        &&& forall|i: int|
            #![trigger f.constants[i]]
            0 <= i < f.constants.len() ==> constant_matches(
                self.number,
                f.constants[i],
                self.chunk.constants()[n + i],
            )
    }

    /// The first error recorded is `r`.
    pub open spec fn first_error_is(&self, r: Report) -> bool {
        &&& self.errors@.len() > 0
        &&& reports_at(self.errors@[0], self.source(), r.at, r.message)
    }

    /// Since `old`, at the `k`-th token, the parser has compiled the construct
    /// whose outcome is `r`. If `r` is a fragment, the chunk has grown by it
    /// and the parser stands at its end, unless an error was found: exactly
    /// when `old` had one or one of the tokens read is an error token. If `r`
    /// is a failure, an error has been found. The first error found since a
    /// clean `old` is the first error token read, or else the failure.
    pub open spec fn follows(&self, old: &Self, k: int, r: Result<Fragment, Failure>) -> bool {
        &&& self.clean() ==> old.clean()
        &&& old.clean() && !self.clean() ==> self.first_error_is(
            outcome_report(self.source(), k, r),
        )
        &&& match r {
            Ok(f) => {
                &&& self.clean() ==> self.extends(old, f) && self.at(f.next)
                &&& old.clean() ==> (self.clean() <==> clean_between(self.source(), k, f.next))
            },
            Err(x) => !self.clean(),
        }
    }

    /// Facts the parsing functions keep: the source, the number function and
    /// the constants written so far stay; interned texts stay.
    pub closed spec fn keeps(&self, old: &Self) -> bool {
        &&& self.scanner.source == old.scanner.source
        &&& self.number == old.number
        &&& old.chunk.bytes().is_prefix_of(self.chunk.bytes())
        &&& old.chunk.constants().len() <= self.chunk.constants().len()
        &&& old.table@.len() <= self.table@.len()
        &&& forall|i: int| 0 <= i < old.table@.len() ==> self.table@[i] == old.table@[i]
        &&& old.errors@.len() <= self.errors@.len()
        &&& forall|i: int| 0 <= i < old.errors@.len() ==> self.errors@[i] == old.errors@[i]
        &&& forall|i: int|
            old.table@.len() <= i < self.table@.len() ==> decodes_stretch(
                #[trigger] self.table@[i],
                self.scanner.source@,
            )
    }

    /// A parser at the start of the scanner's source, writing into an empty
    /// chunk; it holds `Eof` until the first token is read.
    pub fn new(scanner: Scanner<'a>, table: StringTable, number: F) -> (p: Self)
        requires
            scanner.wf(),
            terminated(scanner.source@, 0),
            table.wf(),
            forall|b: &[u8]| number.requires((b,)),
        ensures
            p.wf(),
            p.scanner == scanner,
            p.table == table,
            p.number == number,
            p.chunk.bytes() == Seq::<u8>::empty(),
            p.chunk.constants() == Seq::<Value>::empty(),
            p.chunk.line_table() == Seq::<(u32, u32)>::empty(),
            p.current.token_type == TokenType::Eof,
            !p.had_error,
            p.errors@.len() == 0,
    {
        let current = Token::default();
        let previous = Token::default();
        proof {
            reveal(token_in_source);
            let s = scanner.source@;
            assert(current.start@ == s.subrange(s.len() as int, s.len() as int));
            assert(token_in_source(current, s));
            assert(previous.start@ == s.subrange(s.len() as int, s.len() as int));
            assert(token_in_source(previous, s));
        }
        let chunk = Chunk::new();
        Self {
            current,
            previous,
            scanner,
            chunk,
            had_error: false,
            panic_mode: false,
            table,
            errors: Vec::new(),
            number,
        }
    }

    /// Ends the compilation: appends `OpReturn`.
    pub fn end_compiler(&mut self)
        requires
            old(self).wf(),
            old(self).chunk.bytes().len() + 8 <= u32::MAX,
        ensures
            final(self).wf(),
            final(self).keeps(&*old(self)),
            final(self).chunk.bytes() == old(self).chunk.bytes().push(
                opcode_byte(OpCode::OpReturn),
            ),
            final(self).extends(
                &*old(self),
                emit(0, seq![opcode_byte(OpCode::OpReturn)], old(self).previous.line as u32),
            ),
            final(self).previous == old(self).previous,
            final(self).chunk.constants() == old(self).chunk.constants(),
            final(self).current == old(self).current,
            final(self).scanner == old(self).scanner,
            final(self).table == old(self).table,
            final(self).errors == old(self).errors,
            final(self).had_error == old(self).had_error,
    {
        self.emit_byte(OpCode::OpReturn);
    }

    /// Reads the next token other than an error token into `current`: the
    /// first one that scanning yields from where the scanner stands (see
    /// `skip_errors`). The first error token met on the way is reported,
    /// unless the parser is already panicking, and the parser then panics.
    /// Stated over the token stream too: from the `k`-th token, the parser
    /// stays clean and stands at the next token exactly when that token is not
    /// an error token.
    pub fn advance(&mut self, Ghost(k): Ghost<int>) -> (t: Token<'a>)
        requires
            old(self).wf(),
        ensures
            final(self).wf(),
            final(self).keeps(&*old(self)),
            t == final(self).current,
            final(self).previous == old(self).current,
            final(self).current.token_type != TokenType::Error,
            ({
                let s = old(self).source();
                let (kind, start, end) = next_token(
                    s,
                    skip_errors(s, old(self).scanner.current as int),
                );
                &&& final(self).scanner.current == end
                &&& final(self).current.token_type == kind
                &&& final(self).current.lexeme() == s.subrange(start, end)
                &&& final(self).current.line == 1 + newlines(s, end)
            }),
            final(self).chunk == old(self).chunk,
            final(self).table == old(self).table,
            final(self).measure() <= old(self).measure(),
            old(self).current.token_type != TokenType::Eof ==> final(self).measure() < old(
                self,
            ).measure(),
            final(self).clean() ==> old(self).clean(),
            old(self).clean() && old(self).at(k) ==> {
                &&& final(self).clean() <==> kind_at(old(self).source(), k + 1) != TokenType::Error
                &&& final(self).clean() ==> final(self).at(k + 1)
                &&& !final(self).clean() ==> final(self).first_error_is(
                    scanner_report(old(self).source(), k + 1),
                )
            },
            next_token(old(self).source(), old(self).scanner.current as int).0
                != TokenType::Error ==> {
                &&& final(self).errors == old(self).errors
                &&& final(self).had_error == old(self).had_error
                &&& final(self).panic_mode == old(self).panic_mode
            },
            next_token(old(self).source(), old(self).scanner.current as int).0
                == TokenType::Error ==> {
                &&& final(self).panic_mode
                &&& final(self).had_error
                &&& old(self).panic_mode ==> final(self).errors == old(self).errors
                &&& !old(self).panic_mode ==> final(self).errors@.len() == old(self).errors@.len()
                    + 1
                &&& !old(self).panic_mode ==> reports_scan_error(
                    final(self).errors@.last(),
                    old(self).source(),
                    old(self).scanner.current as int,
                )
            },
    {
        let ghost len = self.scanner.source@.len();
        let ghost s = self.scanner.source@;
        let ghost ind: int = if self.current.token_type == TokenType::Eof {
            0
        } else {
            1
        };
        let ghost mut first = true;
        self.previous = self.current;
        loop
            invariant
                self.wf(),
                self.keeps(&*old(self)),
                self.previous == old(self).current,
                self.chunk == old(self).chunk,
                self.table == old(self).table,
                len == self.scanner.source@.len(),
                s == self.scanner.source@,
                skip_errors(s, self.scanner.current as int) == skip_errors(
                    s,
                    old(self).scanner.current as int,
                ),
                len - self.scanner.current <= old(self).measure() - ind,
                ind == if old(self).current.token_type == TokenType::Eof {
                    0int
                } else {
                    1int
                },
                first ==> self.scanner == old(self).scanner && self.had_error == old(
                    self,
                ).had_error,
                !first ==> !self.clean(),
                !first && old(self).clean() && old(self).at(k) ==> kind_at(s, k + 1)
                    == TokenType::Error && self.first_error_is(scanner_report(s, k + 1)),
                !first ==> self.panic_mode,
                !first ==> next_token(s, old(self).scanner.current as int).0 == TokenType::Error,
                !first && old(self).panic_mode ==> self.errors == old(self).errors,
                !first && !old(self).panic_mode ==> self.errors@.len() == old(self).errors@.len()
                    + 1,
                !first && !old(self).panic_mode ==> reports_scan_error(
                    self.errors@.last(),
                    s,
                    old(self).scanner.current as int,
                ),
                first ==> self.errors == old(self).errors && self.panic_mode == old(
                    self,
                ).panic_mode,
            decreases len - self.scanner.current,
        {
            proof {
                if first && old(self).clean() && old(self).at(k) {
                    assert(token_at(s, k + 1) == next_token(s, scan_pos(s, k)));
                }
            }
            proof {
                lemma_next_token_facts(s, self.scanner.current as int);
            }
            let ghost c = self.scanner.current as int;
            let next = self.scanner.scan_token();
            if next.token_type != TokenType::Error {
                proof {
                    reveal(token_in_source);
                    let start = next_token(s, self.scanner.start as int).1;
                    assert(next.start@ == s.subrange(self.scanner.start as int, s.len() as int));
                    assert(token_in_source(next, s));
                    assert(skip_errors(s, c) == c);
                    assert(next.lexeme() =~= s.subrange(
                        next_token(s, c).1,
                        self.scanner.current as int,
                    ));
                }
                self.current = next;
                proof {
                    if first && old(self).clean() && old(self).at(k) {
                        assert(self.current.lexeme() =~= text_at(s, k + 1));
                    }
                }
                return self.current;
            }
            let message = next.start;
            self.error_at(next, message);
            proof {
                if first && old(self).clean() && old(self).at(k) {
                    assert(self.errors@.len() == 1);
                    assert(self.errors@[0] == self.errors@.last());
                }
                first = false;
            }
        }
    }

    /// Consumes the current token if it has type `token_type`, else reports
    /// `message` at it.
    fn consume(&mut self, token_type: TokenType, message: &'a str, Ghost(k): Ghost<int>)
        requires
            old(self).wf(),
        ensures
            final(self).wf(),
            final(self).keeps(&*old(self)),
            final(self).chunk == old(self).chunk,
            final(self).table == old(self).table,
            final(self).measure() <= old(self).measure(),
            final(self).clean() ==> old(self).clean(),
            old(self).clean() && old(self).at(k) && k >= 0 ==> {
                &&& final(self).clean() <==> kind_at(old(self).source(), k) == token_type && kind_at(
                    old(self).source(),
                    k + 1,
                ) != TokenType::Error
                &&& final(self).clean() ==> final(self).at(k + 1)
                &&& kind_at(old(self).source(), k) != token_type ==> final(self).first_error_is(
                    Report { at: k, message: message.spec_bytes() },
                )
                &&& kind_at(old(self).source(), k) == token_type && !final(self).clean()
                    ==> final(self).first_error_is(scanner_report(old(self).source(), k + 1))
            },
    {
        if self.current.token_type == token_type {
            self.advance(Ghost(k));
            return ;
        }
        self.error_at_current(message.as_bytes());
    }

    /// Consumes the current token if it has type `token_type`.
    fn match_token(&mut self, token_type: TokenType, Ghost(k): Ghost<int>) -> (r: bool)
        requires
            old(self).wf(),
        ensures
            final(self).clean() ==> old(self).clean(),
            r && old(self).clean() && old(self).at(k) ==> {
                &&& final(self).clean() <==> kind_at(old(self).source(), k + 1) != TokenType::Error
                &&& final(self).clean() ==> final(self).at(k + 1)
                &&& !final(self).clean() ==> final(self).first_error_is(
                    scanner_report(old(self).source(), k + 1),
                )
            },
            final(self).wf(),
            final(self).keeps(&*old(self)),
            final(self).chunk == old(self).chunk,
            final(self).table == old(self).table,
            r == (old(self).current.token_type == token_type),
            r ==> final(self).previous == old(self).current,
            !r ==> *final(self) == *old(self),
            final(self).measure() <= old(self).measure(),
            r && token_type != TokenType::Eof ==> final(self).measure() < old(self).measure(),
    {
        if self.check(token_type) {
            self.advance(Ghost(k));
            true
        } else {
            false
        }
    }

    /// Whether the current token has type `token_type`.
    fn check(&self, token_type: TokenType) -> (r: bool)
        ensures
            r == (self.current.token_type == token_type),
    {
        self.current.token_type == token_type
    }

    /// Appends an instruction without operand.
    fn emit_byte(&mut self, byte: OpCode)
        requires
            old(self).wf(),
            operand_len(byte) == 0,
            old(self).chunk.bytes().len() + 8 <= u32::MAX,
        ensures
            final(self).wf(),
            final(self).keeps(&*old(self)),
            final(self).chunk.bytes() == old(self).chunk.bytes().push(opcode_byte(byte)),
            final(self).chunk.constants() == old(self).chunk.constants(),
            final(self).current == old(self).current,
            final(self).previous == old(self).previous,
            final(self).scanner == old(self).scanner,
            final(self).table == old(self).table,
            final(self).errors == old(self).errors,
            final(self).had_error == old(self).had_error,
            final(self).panic_mode == old(self).panic_mode,
            final(self).extends(
                &*old(self),
                emit(0, seq![opcode_byte(byte)], old(self).previous.line as u32),
            ),
    {
        let ghost code = self.chunk.bytes();
        let ghost lines = self.chunk.line_table();
        let ghost n = self.chunk.constants().len();
        let line = self.previous.line as u32;
        proof {
            lemma_can_count_from_total(lines, line, 1);
            lemma_simple_instruction_decodes(byte, n);
            lemma_append_keeps_ok(code, n, lines, seq![opcode_byte(byte)], n, line);
            reveal_with_fuel(crate::chunk::line::with_line_times, 2);
            assert(code.push(opcode_byte(byte)) == code + seq![opcode_byte(byte)]);
            lemma_with_line_times_is_add_lines(lines, line, 1);
        }
        self.chunk.write_chunk(u8::from(byte), line);
        proof {
            lemma_extends_without_constants(
                *old(self),
                *self,
                emit(0, seq![opcode_byte(byte)], line),
            );
        }
    }

    /// Appends the instructions `bytes`, each without operand.
    fn emit_bytes(&mut self, bytes: &[OpCode])
        requires
            old(self).wf(),
            forall|i: int| 0 <= i < bytes@.len() ==> operand_len(#[trigger] bytes@[i]) == 0,
            old(self).chunk.bytes().len() + bytes@.len() + 8 <= u32::MAX,
        ensures
            final(self).wf(),
            final(self).keeps(&*old(self)),
            final(self).chunk.bytes() == old(self).chunk.bytes() + bytes@.map_values(
                |op: OpCode| opcode_byte(op),
            ),
            final(self).chunk.constants() == old(self).chunk.constants(),
            final(self).current == old(self).current,
            final(self).previous == old(self).previous,
            final(self).scanner == old(self).scanner,
            final(self).table == old(self).table,
            final(self).errors == old(self).errors,
            final(self).had_error == old(self).had_error,
            final(self).panic_mode == old(self).panic_mode,
            final(self).extends(
                &*old(self),
                emit(
                    0,
                    bytes@.map_values(|op: OpCode| opcode_byte(op)),
                    old(self).previous.line as u32,
                ),
            ),
    {
        let ghost line = self.previous.line as u32;
        let mut i: usize = 0;
        while i < bytes.len()
            invariant
                self.wf(),
                self.keeps(&*old(self)),
                0 <= i <= bytes@.len(),
                forall|k: int| 0 <= k < bytes@.len() ==> operand_len(#[trigger] bytes@[k]) == 0,
                old(self).chunk.bytes().len() + bytes@.len() + 8 <= u32::MAX,
                self.chunk.bytes() == old(self).chunk.bytes() + bytes@.subrange(
                    0,
                    i as int,
                ).map_values(|op: OpCode| opcode_byte(op)),
                self.chunk.constants() == old(self).chunk.constants(),
                self.current == old(self).current,
                self.previous == old(self).previous,
                self.scanner == old(self).scanner,
                self.table == old(self).table,
                self.errors == old(self).errors,
                self.had_error == old(self).had_error,
                self.panic_mode == old(self).panic_mode,
                line == self.previous.line as u32,
                self.chunk.line_table() == add_lines(
                    old(self).chunk.line_table(),
                    repeat_line(i as nat, line),
                ),
            decreases bytes@.len() - i,
        {
            self.emit_byte(bytes[i]);
            proof {
                lemma_add_lines_append(
                    old(self).chunk.line_table(),
                    repeat_line(i as nat, line),
                    repeat_line(1, line),
                );
                assert(repeat_line(i as nat, line) + repeat_line(1, line) =~= repeat_line(
                    (i + 1) as nat,
                    line,
                ));
                assert(bytes@.subrange(0, i + 1).map_values(|op: OpCode| opcode_byte(op))
                    =~= bytes@.subrange(0, i as int).map_values(|op: OpCode| opcode_byte(op)).push(
                    opcode_byte(bytes@[i as int]),
                ));
                assert(self.chunk.bytes() =~= old(self).chunk.bytes() + bytes@.subrange(
                    0,
                    i + 1,
                ).map_values(|op: OpCode| opcode_byte(op)));
            }
            i += 1;
        }
        proof {
            assert(bytes@.subrange(0, bytes@.len() as int) =~= bytes@);
            lemma_extends_without_constants(
                *old(self),
                *self,
                emit(0, bytes@.map_values(|op: OpCode| opcode_byte(op)), line),
            );
        }
    }

    /// Adds the number `value` to the constants and loads it.
    fn emit_content_number(&mut self, value: u64)
        requires
            old(self).wf(),
            old(self).chunk.bytes().len() + 8 <= u32::MAX,
        ensures
            final(self).wf(),
            final(self).keeps(&*old(self)),
            final(self).chunk.bytes() == old(self).chunk.bytes() + constant_instruction(
                old(self).chunk.constants().len(),
                old(self).chunk.constants().len() as usize,
            ),
            final(self).chunk.constants() == old(self).chunk.constants().push(
                Value::Double(value),
            ),
            final(self).chunk.line_table() == add_lines(
                old(self).chunk.line_table(),
                repeat_line(
                    constant_instruction(
                        old(self).chunk.constants().len(),
                        old(self).chunk.constants().len() as usize,
                    ).len(),
                    old(self).previous.line as u32,
                ),
            ),
            final(self).current == old(self).current,
            final(self).previous == old(self).previous,
            final(self).scanner == old(self).scanner,
            final(self).table == old(self).table,
            final(self).errors == old(self).errors,
            final(self).had_error == old(self).had_error,
            final(self).panic_mode == old(self).panic_mode,
    {
        let line = self.previous.line as u32;
        self.write_value_constant(Value::Double(value), line);
    }

    /// Adds `value` to the constants and appends the instruction that loads
    /// it, on `line`.
    fn write_value_constant(&mut self, value: Value, line: u32)
        requires
            old(self).wf(),
            old(self).chunk.bytes().len() + 8 <= u32::MAX,
        ensures
            final(self).wf(),
            final(self).keeps(&*old(self)),
            final(self).chunk.bytes() == old(self).chunk.bytes() + constant_instruction(
                old(self).chunk.constants().len(),
                old(self).chunk.constants().len() as usize,
            ),
            final(self).chunk.constants() == old(self).chunk.constants().push(value),
            final(self).chunk.line_table() == add_lines(
                old(self).chunk.line_table(),
                repeat_line(
                    constant_instruction(
                        old(self).chunk.constants().len(),
                        old(self).chunk.constants().len() as usize,
                    ).len(),
                    line,
                ),
            ),
            final(self).current == old(self).current,
            final(self).previous == old(self).previous,
            final(self).scanner == old(self).scanner,
            final(self).table == old(self).table,
            final(self).errors == old(self).errors,
            final(self).had_error == old(self).had_error,
            final(self).panic_mode == old(self).panic_mode,
    {
        let ghost code = self.chunk.bytes();
        let ghost lines = self.chunk.line_table();
        let ghost n = self.chunk.constants().len();
        let ghost instr = constant_instruction(n, n as usize);
        proof {
            lemma_can_count_from_total(lines, line, 4);
            lemma_constant_instruction_decodes(n);
            lemma_can_count_from_total(lines, line, instr.len());
            lemma_append_keeps_ok(code, n, lines, instr, n + 1, line);
            lemma_with_line_times_is_add_lines(lines, line, instr.len());
        }
        self.chunk.write_constant(value, line);
    }

    /// Interns the string `value` and loads it as a constant.
    fn emit_content_str(&mut self, value: &[u8])
        requires
            old(self).wf(),
            stretch_of(value@, old(self).source()),
            old(self).chunk.bytes().len() + 8 <= u32::MAX,
        ensures
            final(self).wf(),
            final(self).keeps(&*old(self)),
            final(self).chunk.bytes() == old(self).chunk.bytes() + constant_instruction(
                old(self).chunk.constants().len(),
                old(self).chunk.constants().len() as usize,
            ),
            final(self).chunk.constants().len() == old(self).chunk.constants().len() + 1,
            final(self).chunk.constants().last() matches Value::Obj(o) && object_text(*o)
                == utf8_lossy(value@),
            final(self).extends(
                &*old(self),
                load_constant(
                    0,
                    old(self).chunk.constants().len(),
                    ConstantText::Text(value@),
                    old(self).previous.line as u32,
                ),
            ),
            final(self).current == old(self).current,
            final(self).previous == old(self).previous,
            final(self).scanner == old(self).scanner,
            final(self).errors == old(self).errors,
            final(self).had_error == old(self).had_error,
            final(self).panic_mode == old(self).panic_mode,
    {
        proof {
            lemma_stretch_decodes(value@, self.source());
        }
        let obj = self.table.intern(value);
        let line = self.previous.line as u32;
        self.write_value_constant(Value::Obj(obj), line);
        proof {
            let n = old(self).chunk.constants().len();
            lemma_extends_one_constant(
                *old(self),
                *self,
                load_constant(0, n, ConstantText::Text(value@), line),
                Value::Obj(obj),
            );
        }
    }

    /// Interns the text of the previous token as a constant without loading
    /// it; returns its index.
    fn name_constant(&mut self) -> (idx: usize)
        requires
            old(self).wf(),
        ensures
            final(self).wf(),
            final(self).keeps(&*old(self)),
            final(self).chunk.bytes() == old(self).chunk.bytes(),
            final(self).chunk.line_table() == old(self).chunk.line_table(),
            final(self).chunk.constants().len() == old(self).chunk.constants().len() + 1,
            idx == old(self).chunk.constants().len(),
            final(self).chunk.constants()[idx as int] matches Value::Obj(o) && object_text(*o)
                == utf8_lossy(old(self).previous.lexeme()),
            final(self).extends(&*old(self), name_fragment(0, old(self).previous.lexeme())),
            final(self).current == old(self).current,
            final(self).previous == old(self).previous,
            final(self).scanner == old(self).scanner,
            final(self).errors == old(self).errors,
            final(self).had_error == old(self).had_error,
            final(self).panic_mode == old(self).panic_mode,
    {
        let name: &[u8] = &self.previous.start[0..self.previous.length];
        proof {
            lemma_token_stretch(self.previous, self.source());
            assert(name@ == self.previous.lexeme());
            lemma_stretch_decodes(name@, self.source());
        }
        let obj = self.table.intern(name);
        let ghost code = self.chunk.bytes();
        let ghost n = self.chunk.constants().len();
        let idx = self.chunk.add_constant(Value::Obj(obj));
        proof {
            lemma_decodes_more_constants(code, n, n + 1);
            assert(name@ == old(self).previous.lexeme());
            assert(code + Seq::<u8>::empty() =~= code);
            lemma_extends_one_constant(
                *old(self),
                *self,
                name_fragment(0, name@),
                Value::Obj(obj),
            );
        }
        idx
    }

    /// Appends the global-variable instruction `short_op`/`long_op` for the
    /// name constant `idx`, on `line`.
    fn write_global(&mut self, short_op: OpCode, long_op: OpCode, idx: usize, line: u32)
        requires
            old(self).wf(),
            old(self).chunk.bytes().len() + 8 <= u32::MAX,
            operand_len(short_op) == 1,
            operand_len(long_op) == 3,
            idx < old(self).chunk.constants().len(),
        ensures
            final(self).wf(),
            final(self).keeps(&*old(self)),
            final(self).chunk.bytes() == old(self).chunk.bytes() + global_instruction(
                short_op,
                long_op,
                idx,
            ),
            final(self).chunk.constants() == old(self).chunk.constants(),
            final(self).extends(&*old(self), emit(0, global_instruction(short_op, long_op, idx), line)),
            final(self).current == old(self).current,
            final(self).previous == old(self).previous,
            final(self).scanner == old(self).scanner,
            final(self).table == old(self).table,
            final(self).errors == old(self).errors,
            final(self).had_error == old(self).had_error,
            final(self).panic_mode == old(self).panic_mode,
    {
        let ghost code = self.chunk.bytes();
        let ghost lines = self.chunk.line_table();
        let ghost n = self.chunk.constants().len();
        let ghost instr = global_instruction(short_op, long_op, idx);
        proof {
            lemma_can_count_from_total(lines, line, 4);
            lemma_global_instruction_decodes(short_op, long_op, idx, n);
            lemma_can_count_from_total(lines, line, instr.len());
            lemma_append_keeps_ok(code, n, lines, instr, n, line);
            lemma_with_line_times_is_add_lines(lines, line, instr.len());
        }
        self.chunk.write_global_op(short_op, long_op, idx, line);
        proof {
            lemma_extends_without_constants(*old(self), *self, emit(0, instr, line));
        }
    }

    /// Consumes the variable name of a declaration and interns it as a
    /// constant; returns its index.
    fn parse_variable(&mut self, error_msg: &'a str, Ghost(k): Ghost<int>) -> (idx: usize)
        requires
            old(self).wf(),
            0 <= k,
            old(self).clean() ==> old(self).at(k),
        ensures
            final(self).wf(),
            final(self).keeps(&*old(self)),
            final(self).chunk.bytes() == old(self).chunk.bytes(),
            idx == old(self).chunk.constants().len(),
            idx < final(self).chunk.constants().len(),
            final(self).chunk.constants().len() == old(self).chunk.constants().len() + 1,
            final(self).measure() <= old(self).measure(),
            final(self).clean() ==> old(self).clean(),
            old(self).clean() ==> (final(self).clean() <==> kind_at(old(self).source(), k)
                == TokenType::Identifier && kind_at(old(self).source(), k + 1)
                != TokenType::Error),
            final(self).clean() ==> final(self).at(k + 1) && final(self).extends(
                &*old(self),
                name_fragment(0, text_at(old(self).source(), k)),
            ),
            old(self).clean() && kind_at(old(self).source(), k) != TokenType::Identifier
                ==> final(self).first_error_is(Report { at: k, message: error_msg.spec_bytes() }),
            old(self).clean() && kind_at(old(self).source(), k) == TokenType::Identifier
                && !final(self).clean() ==> final(self).first_error_is(
                scanner_report(old(self).source(), k + 1),
            ),
    {
        self.consume(TokenType::Identifier, error_msg, Ghost(k));
        let ghost pc = *self;
        let idx = self.name_constant();
        proof {
            if self.clean() {
                assert(pc.previous.lexeme() == text_at(old(self).source(), k));
                assert(self.extends(&pc, name_fragment(0, text_at(old(self).source(), k))));
            }
            if old(self).clean() && !pc.clean() {
                assert(self.errors@[0] == pc.errors@[0]);
            }
        }
        idx
    }

    /// Appends the instruction that defines the global variable named by
    /// constant `global`.
    fn define_variable(&mut self, global: usize)
        requires
            old(self).wf(),
            old(self).chunk.bytes().len() + 8 <= u32::MAX,
            global < old(self).chunk.constants().len(),
        ensures
            final(self).wf(),
            final(self).keeps(&*old(self)),
            final(self).chunk.bytes() == old(self).chunk.bytes() + global_instruction(
                OpCode::OpDefineGlobal,
                OpCode::OpDefineGlobalLong,
                global,
            ),
            final(self).measure() == old(self).measure(),
            final(self).extends(
                &*old(self),
                emit(
                    0,
                    global_instruction(OpCode::OpDefineGlobal, OpCode::OpDefineGlobalLong, global),
                    old(self).previous.line as u32,
                ),
            ),
            final(self).current == old(self).current,
            final(self).previous == old(self).previous,
            final(self).scanner == old(self).scanner,
            final(self).had_error == old(self).had_error,
    {
        let line = self.previous.line as u32;
        self.write_global(OpCode::OpDefineGlobal, OpCode::OpDefineGlobalLong, global, line);
    }

    /// The parser stands at a likely statement boundary: at the end of the
    /// source, just after a `;`, or before a keyword that starts a statement.
    pub open spec fn at_boundary(&self) -> bool {
        boundary(self.previous.token_type, self.current.token_type)
    }

    /// Leaves panic mode and skips tokens up to the first likely statement
    /// boundary (see `synced`): the end of the source, just after a `;`, or
    /// before a keyword that starts a statement. Panic mode comes back only
    /// where an error token met on the way is reported, the one error it
    /// records.
    pub fn synchronize(&mut self)
        requires
            old(self).wf(),
        ensures
            final(self).wf(),
            final(self).keeps(&*old(self)),
            final(self).chunk == old(self).chunk,
            final(self).table == old(self).table,
            final(self).measure() <= old(self).measure(),
            final(self).at_boundary(),
            synced(
                old(self).source(),
                old(self).previous.token_type,
                old(self).current.token_type,
                old(self).scanner.current as int,
            ) == (
                final(self).previous.token_type,
                final(self).current.token_type,
                final(self).scanner.current as int,
            ),
            final(self).errors@.len() <= old(self).errors@.len() + 1,
            final(self).panic_mode <==> final(self).errors@.len() == old(self).errors@.len() + 1,
            old(self).at_boundary() ==> {
                &&& final(self).current == old(self).current
                &&& final(self).previous == old(self).previous
                &&& final(self).scanner == old(self).scanner
                &&& final(self).errors == old(self).errors
            },
    {
        self.panic_mode = false;
        while self.current.token_type != TokenType::Eof
            invariant
                self.wf(),
                self.keeps(&*old(self)),
                self.chunk == old(self).chunk,
                self.table == old(self).table,
                self.measure() <= old(self).measure(),
                synced(
                    old(self).source(),
                    old(self).previous.token_type,
                    old(self).current.token_type,
                    old(self).scanner.current as int,
                ) == synced(
                    self.source(),
                    self.previous.token_type,
                    self.current.token_type,
                    self.scanner.current as int,
                ),
                self.errors@.len() <= old(self).errors@.len() + 1,
                self.panic_mode <==> self.errors@.len() == old(self).errors@.len() + 1,
                old(self).at_boundary() ==> {
                    &&& self.current == old(self).current
                    &&& self.previous == old(self).previous
                    &&& self.scanner == old(self).scanner
                    &&& self.errors == old(self).errors
                },
            decreases self.measure(),
        {
            if self.previous.token_type == TokenType::Semicolon {
                return ;
            }
            let t = self.current.token_type;
            if t == TokenType::Class || t == TokenType::Fun || t == TokenType::Var || t
                == TokenType::For || t == TokenType::If || t == TokenType::While || t
                == TokenType::Print || t == TokenType::Return {
                return ;
            }
            proof {
                let s = self.source();
                lemma_skip_errors(s, self.scanner.current as int);
                lemma_next_token_facts(s, skip_errors(s, self.scanner.current as int));
            }
            self.advance(Ghost(0));
        }
    }

    /// Reports `message` at the current token.
    pub fn error_at_current(&mut self, message: &'a [u8])
        requires
            old(self).wf(),
        ensures
            final(self).wf(),
            final(self).keeps(&*old(self)),
            final(self).chunk == old(self).chunk,
            final(self).current == old(self).current,
            final(self).previous == old(self).previous,
            final(self).scanner == old(self).scanner,
            final(self).table == old(self).table,
            final(self).panic_mode,
            old(self).panic_mode ==> *final(self) == *old(self),
            old(self).panic_mode ==> final(self).errors == old(self).errors,
            !old(self).panic_mode ==> final(self).had_error,
            old(self).panic_mode ==> final(self).had_error == old(self).had_error,
            !old(self).panic_mode ==> final(self).errors@.len() == old(self).errors@.len() + 1,
            !old(self).panic_mode ==> reports(
                final(self).errors@.last(),
                old(self).current,
                message@,
            ),
    {
        let token = self.current;
        self.error_at(token, message);
    }

    /// Reports `message` at the previous token.
    pub fn error(&mut self, message: &'a [u8])
        requires
            old(self).wf(),
        ensures
            final(self).wf(),
            final(self).keeps(&*old(self)),
            final(self).chunk == old(self).chunk,
            final(self).current == old(self).current,
            final(self).previous == old(self).previous,
            final(self).scanner == old(self).scanner,
            final(self).table == old(self).table,
            final(self).panic_mode,
            old(self).panic_mode ==> *final(self) == *old(self),
            old(self).panic_mode ==> final(self).errors == old(self).errors,
            !old(self).panic_mode ==> final(self).had_error,
            old(self).panic_mode ==> final(self).had_error == old(self).had_error,
            !old(self).panic_mode ==> final(self).errors@.len() == old(self).errors@.len() + 1,
            !old(self).panic_mode ==> reports(
                final(self).errors@.last(),
                old(self).previous,
                message@,
            ),
    {
        let token = self.previous;
        self.error_at(token, message);
    }

    /// Records an error at `token` unless the parser is already panicking,
    /// and enters panic mode.
    pub fn error_at(&mut self, token: Token<'a>, message: &'a [u8])
        requires
            old(self).wf(),
            token_ok(token),
        ensures
            final(self).wf(),
            final(self).keeps(&*old(self)),
            final(self).chunk == old(self).chunk,
            final(self).current == old(self).current,
            final(self).previous == old(self).previous,
            final(self).scanner == old(self).scanner,
            final(self).table == old(self).table,
            final(self).panic_mode,
            old(self).panic_mode ==> *final(self) == *old(self),
            old(self).panic_mode ==> final(self).errors == old(self).errors,
            !old(self).panic_mode ==> final(self).errors@.drop_last() == old(self).errors@,
            !old(self).panic_mode ==> final(self).errors@.len() == old(self).errors@.len() + 1,
            !old(self).panic_mode ==> reports(final(self).errors@.last(), token, message@),
            !old(self).panic_mode ==> final(self).had_error,
            old(self).panic_mode ==> final(self).had_error == old(self).had_error,
    {
        if self.panic_mode {
            return ;
        }
        self.panic_mode = true;
        let location = if token.token_type == TokenType::Eof {
            ErrorLocation::AtEnd
        } else if token.token_type == TokenType::Error {
            ErrorLocation::Unlocated
        } else {
            ErrorLocation::Lexeme(&token.start[0..token.length])
        };
        self.errors.push(CompileError { line: token.line, location, message });
        self.had_error = true;
    }
}

/// A chunk that grew by code and lines alone has grown by a fragment that
/// adds no constant.
proof fn lemma_extends_without_constants<'a, F: Fn(&[u8]) -> u64>(
    a: Parser<'a, F>,
    b: Parser<'a, F>,
    f: Fragment,
)
    requires
        b.chunk.bytes() == a.chunk.bytes() + f.code,
        b.chunk.line_table() == add_lines(a.chunk.line_table(), f.lines),
        b.chunk.constants() == a.chunk.constants(),
        b.table@ == a.table@,
        f.constants.len() == 0,
    ensures
        b.extends(&a, f),
{
    let c = a.chunk.constants();
    assert(c.subrange(0, c.len() as int) =~= c);
}

/// A chunk that grew by code, lines and one constant that `c` stands for has
/// grown by the fragment with that code, those lines and the constant text
/// `c`.
proof fn lemma_extends_one_constant<'a, F: Fn(&[u8]) -> u64>(
    a: Parser<'a, F>,
    b: Parser<'a, F>,
    f: Fragment,
    v: Value,
)
    requires
        b.chunk.bytes() == a.chunk.bytes() + f.code,
        b.chunk.line_table() == add_lines(a.chunk.line_table(), f.lines),
        b.chunk.constants() == a.chunk.constants().push(v),
        f.constants.len() == 1,
        constant_matches(b.number, f.constants[0], v),
        b.table@ == intern_text(a.table@, f.constants[0]),
    ensures
        b.extends(&a, f),
{
    reveal_with_fuel(interned, 2);
    assert(f.constants.drop_first() =~= Seq::<ConstantText>::empty());
    let c = a.chunk.constants();
    assert(c.push(v).subrange(0, c.len() as int) =~= c);
    assert(b.chunk.constants()[c.len() as int] == v);
}

/// Growing by `f` and then by `g` is growing by `f` followed by `g`.
proof fn lemma_extends_then<'a, F: Fn(&[u8]) -> u64>(
    a: Parser<'a, F>,
    b: Parser<'a, F>,
    c: Parser<'a, F>,
    f: Fragment,
    g: Fragment,
)
    requires
        b.extends(&a, f),
        c.extends(&b, g),
        b.number == c.number,
    ensures
        c.extends(&a, then(f, g)),
{
    let na = a.chunk.constants().len();
    let nb = b.chunk.constants().len();
    let h = then(f, g);
    assert(c.chunk.bytes() =~= a.chunk.bytes() + h.code);
    lemma_interned_append(a.table@, f.constants, g.constants);
    lemma_add_lines_append(a.chunk.line_table(), f.lines, g.lines);
    assert(c.chunk.constants().subrange(0, na as int) =~= a.chunk.constants()) by {
        assert(c.chunk.constants().subrange(0, na as int) =~= c.chunk.constants().subrange(
            0,
            nb as int,
        ).subrange(0, na as int));
    }
    assert forall|i: int| 0 <= i < h.constants.len() implies constant_matches(
        c.number,
        #[trigger] h.constants[i],
        c.chunk.constants()[na + i],
    ) by {
        if i < f.constants.len() {
            assert(h.constants[i] == f.constants[i]);
            assert(c.chunk.constants()[na + i] == c.chunk.constants().subrange(0, nb as int)[na
                + i]);
        } else {
            let j = i - f.constants.len();
            assert(h.constants[i] == g.constants[j]);
            assert(na + i == nb + j);
        }
    }
}

/// 1 while the current token is not `Eof`, else 0.
pub open spec fn pending(t: Token) -> int {
    if t.token_type == TokenType::Eof {
        0
    } else {
        1
    }
}

/// A first error once recorded stays the first.
proof fn lemma_first_error_stays<'a, F: Fn(&[u8]) -> u64>(a: Parser<'a, F>, b: Parser<'a, F>, r: Report)
    requires
        b.keeps(&a),
        a.first_error_is(r),
    ensures
        b.first_error_is(r),
{
    assert(b.errors@[0] == a.errors@[0]);
}

/// Stepping from `a` to `b` read the token after the `k`-th and changed
/// nothing else that `follows` looks at: what follows `b` follows `a`.
proof fn lemma_follows_after_step<'a, F: Fn(&[u8]) -> u64>(
    a: Parser<'a, F>,
    b: Parser<'a, F>,
    c: Parser<'a, F>,
    k: int,
    r: Result<Fragment, Failure>,
)
    requires
        b.chunk == a.chunk,
        b.table == a.table,
        b.source() == a.source(),
        c.keeps(&b),
        b.clean() ==> a.clean(),
        a.clean() ==> (b.clean() <==> kind_at(a.source(), k + 1) != TokenType::Error),
        a.clean() && !b.clean() ==> b.first_error_is(scanner_report(a.source(), k + 1)),
        c.follows(&b, k, r),
        r matches Ok(f) ==> f.next > k,
        r matches Err(x) ==> x.read > k,
    ensures
        c.follows(&a, k, r),
{
    let s = a.source();
    match r {
        Ok(f) => {
            lemma_clean_between_split(s, k, k + 1, f.next);
            lemma_first_error_split(s, k, k + 1, f.next);
            if a.clean() && !b.clean() {
                lemma_first_error_stays(b, c, scanner_report(s, k + 1));
            }
        },
        Err(x) => {
            lemma_clean_between_split(s, k, k + 1, x.read);
            lemma_first_error_split(s, k, k + 1, x.read);
            if a.clean() && !b.clean() {
                lemma_first_error_stays(b, c, scanner_report(s, k + 1));
            }
        },
    }
}

/// What follows `a` from the `m`-th token, where the tokens after the `k`-th
/// up to it are no error tokens, follows `a` from the `k`-th.
proof fn lemma_follows_shift<'a, F: Fn(&[u8]) -> u64>(
    a: Parser<'a, F>,
    c: Parser<'a, F>,
    k: int,
    m: int,
    r: Result<Fragment, Failure>,
)
    requires
        k <= m,
        a.clean() ==> clean_between(a.source(), k, m),
        c.source() == a.source(),
        c.follows(&a, m, r),
        r matches Ok(f) ==> f.next >= m,
        r matches Err(x) ==> x.read >= m,
    ensures
        c.follows(&a, k, r),
{
    let s = a.source();
    match r {
        Ok(f) => {
            lemma_clean_between_split(s, k, m, f.next);
            lemma_first_error_split(s, k, m, f.next);
        },
        Err(x) => {
            lemma_first_report_split(
                s,
                k,
                m,
                x.read,
                Report { at: x.at, message: diagnostic_text(x.diagnostic).spec_bytes() },
            );
        },
    }
}

/// A step from `b` to `c` that changes neither errors nor position keeps
/// what followed `b`, but for the code.
proof fn lemma_follows_errors_stay<'a, F: Fn(&[u8]) -> u64>(
    a: Parser<'a, F>,
    b: Parser<'a, F>,
    c: Parser<'a, F>,
    k: int,
    r: Result<Fragment, Failure>,
)
    requires
        b.follows(&a, k, r),
        b.source() == a.source(),
        c.keeps(&b),
        c.clean() == b.clean(),
    ensures
        c.clean() ==> a.clean(),
        r is Err ==> !c.clean(),
        a.clean() && !c.clean() ==> c.first_error_is(outcome_report(a.source(), k, r)),
        r matches Ok(f) ==> (a.clean() ==> (c.clean() <==> clean_between(a.source(), k, f.next))),
{
    if a.clean() && !c.clean() {
        lemma_first_error_stays(b, c, outcome_report(a.source(), k, r));
    }
}

/// The errors of a statement made of an expression and a `;`: `b` is the
/// parser after the expression, whose outcome from the `k`-th token is `e`;
/// `c` after consuming the `;` (reporting `d` where it is missing); `d_` after
/// writing the instruction.
proof fn lemma_statement_end_errors<'a, F: Fn(&[u8]) -> u64>(
    a: Parser<'a, F>,
    b: Parser<'a, F>,
    c: Parser<'a, F>,
    d_: Parser<'a, F>,
    k: int,
    e: Result<Fragment, Failure>,
    op: OpCode,
    d: Diagnostic,
)
    requires
        b.follows(&a, k, e),
        b.source() == a.source(),
        c.keeps(&b),
        d_.keeps(&c),
        d_.clean() == c.clean(),
        c.clean() ==> b.clean(),
        e matches Ok(f) ==> f.next >= k,
        e matches Err(x) ==> x.read >= k,
        e matches Ok(f) ==> (b.clean() ==> {
            &&& b.at(f.next)
            &&& c.clean() <==> kind_at(a.source(), f.next) == TokenType::Semicolon && kind_at(
                a.source(),
                f.next + 1,
            ) != TokenType::Error
            &&& kind_at(a.source(), f.next) != TokenType::Semicolon ==> c.first_error_is(
                Report { at: f.next, message: diagnostic_text(d).spec_bytes() },
            )
            &&& kind_at(a.source(), f.next) == TokenType::Semicolon && !c.clean()
                ==> c.first_error_is(scanner_report(a.source(), f.next + 1))
        }),
    ensures
        d_.clean() ==> a.clean(),
        a.clean() && !d_.clean() ==> d_.first_error_is(
            outcome_report(a.source(), k, statement_end(a.source(), e, op, d)),
        ),
        statement_end(a.source(), e, op, d) is Err ==> !d_.clean(),
{
    let s = a.source();
    let r = statement_end(s, e, op, d);
    if a.clean() && !d_.clean() {
        match e {
            Ok(f) => {
                if !b.clean() {
                    lemma_outcome_report_from(s, k, f.next, r);
                    lemma_first_error_stays(b, c, outcome_report(s, k, r));
                } else {
                    lemma_clean_between_split(s, k, f.next, f.next + 1);
                    lemma_first_error_split(s, k, f.next, f.next + 1);
                }
            },
            Err(x) => {
                lemma_first_error_stays(b, c, outcome_report(s, k, r));
            },
        }
        lemma_first_error_stays(c, d_, outcome_report(s, k, r));
    }
}

/// Stepping from `a` to `b` read the token after the `k`-th; what follows `b`
/// from that token on follows `a` from the `k`-th.
proof fn lemma_follows_from_next<'a, F: Fn(&[u8]) -> u64>(
    a: Parser<'a, F>,
    b: Parser<'a, F>,
    c: Parser<'a, F>,
    k: int,
    r: Result<Fragment, Failure>,
)
    requires
        b.chunk == a.chunk,
        b.table == a.table,
        b.source() == a.source(),
        c.keeps(&b),
        b.clean() ==> a.clean(),
        a.clean() ==> (b.clean() <==> kind_at(a.source(), k + 1) != TokenType::Error),
        a.clean() && !b.clean() ==> b.first_error_is(scanner_report(a.source(), k + 1)),
        c.follows(&b, k + 1, r),
        r matches Ok(f) ==> f.next > k + 1,
        r matches Err(x) ==> x.read > k + 1,
    ensures
        c.follows(&a, k, r),
{
    let s = a.source();
    match r {
        Ok(f) => {
            lemma_clean_between_split(s, k, k + 1, f.next);
            lemma_first_error_split(s, k, k + 1, f.next);
            if a.clean() && !b.clean() {
                lemma_first_error_stays(b, c, scanner_report(s, k + 1));
            }
        },
        Err(x) => {
            lemma_clean_between_split(s, k, k + 1, x.read);
            lemma_first_error_split(s, k, k + 1, x.read);
            lemma_first_report_split(
                s,
                k,
                k + 1,
                x.read,
                Report { at: x.at, message: diagnostic_text(x.diagnostic).spec_bytes() },
            );
            if a.clean() && !b.clean() {
                lemma_first_error_stays(b, c, scanner_report(s, k + 1));
            }
        },
    }
}

/// Parses an expression whose operators bind at least as tightly as
/// `min_bp`, starting with the current token, the `k`-th, and writes its code.
#[verifier::rlimit(50)]
fn parse_expression<'a, F: Fn(&[u8]) -> u64>(
    parser: &mut Parser<'a, F>,
    min_bp: u8,
    Ghost(k): Ghost<int>,
)
    requires
        old(parser).wf(),
        old(parser).budget() <= budget_limit(),
        0 <= k,
        old(parser).clean() ==> old(parser).at(k),
    ensures
        final(parser).wf(),
        final(parser).keeps(&*old(parser)),
        final(parser).measure() <= old(parser).measure(),
        final(parser).budget() + 4 * pending(old(parser).current) <= old(parser).budget(),
        final(parser).follows(
            &*old(parser),
            k,
            expr_rule(old(parser).source(), k, min_bp, old(parser).chunk.constants().len()),
        ),
    decreases old(parser).measure(), 1int,
{
    let ghost s = parser.source();
    let ghost nc = parser.chunk.constants().len();
    let ghost pr = prefix_rule(s, k, min_bp, nc);
    let ghost whole = expr_parts(s, k, min_bp, nc);
    proof {
        lemma_expr_rule_parts(s, k, min_bp, nc);
        lemma_prefix_progress(s, k, min_bp, nc);
    }
    parser.advance(Ghost(k));
    let ghost p1 = *parser;
    let t = parser.previous.token_type;
    if t == TokenType::LeftParen {
        paren(parser, Ghost(k));
    } else if t == TokenType::Minus || t == TokenType::Bang {
        unary(parser, Ghost(k));
    } else if t == TokenType::Number || t == TokenType::True || t == TokenType::False || t
        == TokenType::Nil || t == TokenType::String {
        value(parser, Ghost(k));
    } else if t == TokenType::Identifier {
        identifier(parser, min_bp, Ghost(k));
    } else {
        parser.error("unsupported expression.".as_bytes());
        proof {
            if p1.clean() {
                lemma_clean_between_split(s, k, k + 1, k + 1);
                assert(parser.errors@[0] == parser.errors@.last());
            }
        }
    }
    proof {
        assert(parser.follows(&p1, k, pr));
        lemma_follows_after_step(*old(parser), p1, *parser, k, pr);
    }
    let ghost mut acc: Fragment = match pr {
        Ok(p) => p,
        Err(_) => empty_at(k + 1),
    };
    let ghost mut j: int = acc.next;
    proof {
        if let Ok(p) = pr {
            lemma_infix_progress(s, p.next, min_bp, nc + p.constants.len());
            if old(parser).clean() && whole is Ok && clean_between(s, k, whole->Ok_0.next) {
                lemma_clean_between_split(s, k, p.next, whole->Ok_0.next);
            }
            if parser.clean() {
                lemma_clean_between_split(s, k, p.next, p.next);
            } else if old(parser).clean() {
                lemma_outcome_report_from(s, k, p.next, whole);
            }
        }
    }
    while continues(parser, min_bp)
        invariant
            parser.wf(),
            parser.keeps(&*old(parser)),
            parser.measure() <= old(parser).measure(),
            parser.budget() + 4 * pending(old(parser).current) <= old(parser).budget(),
            old(parser).budget() <= budget_limit(),
            parser.source() == s,
            s == old(parser).source(),
            terminated(s, 0),
            0 <= k,
            nc == old(parser).chunk.constants().len(),
            whole == expr_parts(s, k, min_bp, nc),
            parser.clean() ==> old(parser).clean(),
            parser.clean() ==> {
                &&& whole == then_res(acc, infix_rule(s, j, min_bp, nc + acc.constants.len()))
                &&& parser.extends(&*old(parser), acc)
                &&& parser.at(j)
                &&& acc.next == j
                &&& clean_between(s, k, j)
            },
            k < j,
            old(parser).clean() && whole is Ok && clean_between(s, k, whole->Ok_0.next)
                ==> parser.clean(),
            old(parser).clean() && !parser.clean() ==> parser.first_error_is(
                outcome_report(s, k, whole),
            ),
        decreases parser.measure(),
    {
        let (_, rop) = infix_binding_power(parser.current.token_type);
        let ghost pm = *parser;
        let ghost ncj = nc + acc.constants.len();
        let ghost br = binary_rule(s, j, rop, ncj);
        proof {
            lemma_infix_rule_step(s, j, min_bp, ncj);
            lemma_binary_progress(s, j, rop, ncj);
            if parser.clean() {
                assert(kind_at(s, j) == parser.current.token_type);
            }
        }
        parser.advance(Ghost(j));
        let ghost pa = *parser;
        binary_op(parser, rop, Ghost(j));
        proof {
            lemma_follows_after_step(pm, pa, *parser, j, br);
            if parser.clean() {
                let b = br->Ok_0;
                lemma_extends_then(*old(parser), pm, *parser, acc, b);
                let rest = infix_rule(s, b.next, min_bp, ncj + b.constants.len());
                if let Ok(q) = rest {
                    lemma_then_assoc(acc, b, q);
                }
                lemma_clean_between_split(s, k, j, b.next);
                acc = then(acc, b);
                j = b.next;
            } else if old(parser).clean() {
                if pm.clean() {
                    match br {
                        Ok(b) => {
                            let rest = infix_rule(s, b.next, min_bp, ncj + b.constants.len());
                            lemma_infix_progress(s, b.next, min_bp, ncj + b.constants.len());
                            lemma_clean_between_split(s, k, j, b.next);
                            lemma_first_error_split(s, k, j, b.next);
                            lemma_outcome_report_from(s, k, b.next, whole);
                            if whole is Ok && clean_between(s, k, whole->Ok_0.next) {
                                lemma_clean_between_split(s, k, b.next, whole->Ok_0.next);
                            }
                        },
                        Err(x) => {
                            lemma_outcome_report_shift(s, k, j, br);
                        },
                    }
                } else {
                    lemma_first_error_stays(pm, *parser, outcome_report(s, k, whole));
                }
            }
        }
    }
    let ghost pe = *parser;
    proof {
        if parser.clean() {
            lemma_infix_rule_step(s, j, min_bp, nc + acc.constants.len());
            lemma_then_empty(acc, j);
            assert(ending_at(acc, j) =~= acc);
            lemma_clean_between_split(s, k, j, j + 1);
            lemma_first_error_split(s, k, j, j + 1);
        } else if old(parser).clean() {
            if let Ok(f) = whole {
                lemma_outcome_report_from(
                    s,
                    k,
                    f.next,
                    assignment_check(s, min_bp, whole),
                );
            }
        }
    }
    if min_bp == 0 && parser.match_token(TokenType::Equal, Ghost(j)) {
        parser.error("Invalid assignment target.".as_bytes());
        proof {
            if pe.clean() && !(kind_at(s, j + 1) == TokenType::Error) {
                assert(parser.errors@[0] == parser.errors@.last());
            }
        }
    }
    proof {
        if old(parser).clean() && !pe.clean() {
            lemma_first_error_stays(pe, *parser, outcome_report(s, k, whole));
        }
    }
}

/// Whether the current token is an infix operator that binds at least as
/// tightly as `min_bp`.
fn continues<'a, F: Fn(&[u8]) -> u64>(parser: &Parser<'a, F>, min_bp: u8) -> (r: bool)
    ensures
        r == (infix_power(parser.current.token_type).0 != 0 && infix_power(
            parser.current.token_type,
        ).0 >= min_bp),
{
    let (lop, _) = infix_binding_power(parser.current.token_type);
    !(lop == 0 || lop < min_bp)
}

/// Compiles the literal in the previous token, the `k`-th.
fn value<'a, F: Fn(&[u8]) -> u64>(parser: &mut Parser<'a, F>, Ghost(k): Ghost<int>)
    requires
        old(parser).wf(),
        old(parser).chunk.bytes().len() + 8 <= u32::MAX,
        old(parser).previous.token_type == TokenType::Number || old(parser).previous.token_type
            == TokenType::True || old(parser).previous.token_type == TokenType::False || old(
            parser,
        ).previous.token_type == TokenType::Nil || old(parser).previous.token_type
            == TokenType::String,
        0 <= k,
        old(parser).clean() ==> old(parser).at(k + 1),
    ensures
        final(parser).wf(),
        final(parser).keeps(&*old(parser)),
        final(parser).measure() == old(parser).measure(),
        final(parser).chunk.bytes().len() <= old(parser).chunk.bytes().len() + 4,
        final(parser).follows(
            &*old(parser),
            k,
            Ok(literal(old(parser).source(), k, old(parser).chunk.constants().len())),
        ),
{
    let ghost s = parser.source();
    let ghost nc = parser.chunk.constants().len();
    let ghost line = parser.previous.line as u32;
    proof {
        if parser.clean() {
            lemma_clean_between_split(s, k, k + 1, k + 1);
        }
    }
    let t = parser.previous.token_type;
    if t == TokenType::Number {
        let text: &[u8] = &parser.previous.start[0..parser.previous.length];
        let v = (parser.number)(text);
        let ghost lexeme = parser.previous.lexeme();
        assert(text@ == lexeme);
        parser.emit_content_number(v);
        proof {
            if old(parser).clean() {
                let c = ConstantText::Number(text_at(s, k));
                assert(text@ == text_at(s, k));
                assert(old(parser).number.ensures((text,), v));
                assert(parser.number == old(parser).number);
                assert(parser.number.ensures((text,), v));
                assert(number_result(parser.number, text_at(s, k), v));
                assert(constant_matches(parser.number, c, Value::Double(v)));
                lemma_extends_one_constant(
                    *old(parser),
                    *parser,
                    load_constant(k + 1, nc, c, line),
                    Value::Double(v),
                );
            }
        }
    } else if t == TokenType::False {
        parser.emit_byte(OpCode::OpFalse);
    } else if t == TokenType::Nil {
        parser.emit_byte(OpCode::OpNil);
    } else if t == TokenType::True {
        parser.emit_byte(OpCode::OpTrue);
    } else {
        let text: &[u8] = &parser.previous.start[1..parser.previous.length - 1];
        proof {
            assert(text@ == parser.previous.lexeme().subrange(1, parser.previous.length - 1));
            lemma_token_stretch(parser.previous, s);
        }
        parser.emit_content_str(text);
    }
}

/// Compiles a variable reference, or an assignment when the expression may
/// be one (`min_bp` is 0) and `=` follows; the name is the `k`-th token.
#[verifier::rlimit(30)]
fn identifier<'a, F: Fn(&[u8]) -> u64>(parser: &mut Parser<'a, F>, min_bp: u8, Ghost(k): Ghost<int>)
    requires
        old(parser).wf(),
        old(parser).budget() + 8 <= budget_limit(),
        0 <= k,
        old(parser).clean() ==> old(parser).at(k + 1),
    ensures
        final(parser).wf(),
        final(parser).keeps(&*old(parser)),
        final(parser).measure() <= old(parser).measure(),
        final(parser).budget() <= old(parser).budget() + 4,
        final(parser).follows(
            &*old(parser),
            k,
            if min_bp == 0 && kind_at(old(parser).source(), k + 1) == TokenType::Equal {
                assignment(
                    old(parser).source(),
                    k,
                    old(parser).chunk.constants().len(),
                    expr_rule(
                        old(parser).source(),
                        k + 2,
                        0,
                        old(parser).chunk.constants().len() + 1,
                    ),
                )
            } else {
                Ok(variable_read(old(parser).source(), k, old(parser).chunk.constants().len()))
            },
        ),
    decreases old(parser).measure(), 1int,
{
    let ghost s = parser.source();
    let ghost nc = parser.chunk.constants().len();
    let idx = parser.name_constant();
    let line = parser.previous.line as u32;
    let ghost pn = *parser;
    let ghost name = name_fragment(k + 1, text_at(s, k));
    proof {
        lemma_clean_between_split(s, k, k + 1, k + 1);
    }
    if min_bp == 0 && parser.match_token(TokenType::Equal, Ghost(k + 1)) {
        let ghost pq = *parser;
        let ghost e = expr_rule(s, k + 2, 0, nc + 1);
        expression(parser, Ghost(k + 2));
        let ghost pe = *parser;
        parser.write_global(OpCode::OpSetGlobal, OpCode::OpSetGlobalLong, idx, line);
        proof {
            lemma_expr_progress(s, k + 2, 0, nc + 1);
            lemma_follows_from_next(pn, pq, pe, k + 1, e);
            lemma_follows_shift(pn, pe, k, k + 1, e);
            lemma_follows_errors_stay(pn, pe, *parser, k, e);
            if parser.clean() {
                let f = e->Ok_0;
                lemma_extends_then(*old(parser), pq, pe, name, f);
                lemma_extends_then(
                    *old(parser),
                    pe,
                    *parser,
                    then(name, f),
                    emit(
                        f.next,
                        global_instruction(OpCode::OpSetGlobal, OpCode::OpSetGlobalLong, idx),
                        line,
                    ),
                );
            }
            if let Ok(f) = e {
                lemma_clean_between_split(s, k, k + 2, f.next);
                lemma_clean_between_split(s, k, k + 1, k + 2);
            }
        }
    } else {
        parser.write_global(OpCode::OpGetGlobal, OpCode::OpGetGlobalLong, idx, line);
        proof {
            if parser.clean() {
                lemma_extends_then(
                    *old(parser),
                    pn,
                    *parser,
                    name,
                    emit(
                        k + 1,
                        global_instruction(OpCode::OpGetGlobal, OpCode::OpGetGlobalLong, idx),
                        line,
                    ),
                );
            }
        }
    }
}

/// Compiles a parenthesized expression, after its `(`, the `k`-th token.
fn paren<'a, F: Fn(&[u8]) -> u64>(parser: &mut Parser<'a, F>, Ghost(k): Ghost<int>)
    requires
        old(parser).wf(),
        old(parser).budget() <= budget_limit(),
        0 <= k,
        old(parser).clean() ==> old(parser).at(k + 1),
    ensures
        final(parser).wf(),
        final(parser).keeps(&*old(parser)),
        final(parser).measure() <= old(parser).measure(),
        final(parser).budget() <= old(parser).budget(),
        final(parser).follows(
            &*old(parser),
            k,
            grouping(
                old(parser).source(),
                k,
                expr_rule(old(parser).source(), k + 1, 0, old(parser).chunk.constants().len()),
            ),
        ),
    decreases old(parser).measure(), 2int,
{
    let ghost s = parser.source();
    let ghost nc = parser.chunk.constants().len();
    let ghost e = expr_rule(s, k + 1, 0, nc);
    parse_expression(parser, 0, Ghost(k + 1));
    let ghost pm = *parser;
    let ghost en: int = match e {
        Ok(f) => f.next,
        Err(_) => k + 1,
    };
    parser.consume(TokenType::RightParen, "Expect ')' after expression.", Ghost(en));
    proof {
        lemma_expr_progress(s, k + 1, 0, nc);
        match e {
            Ok(f) => {
                lemma_clean_between_split(s, k, k + 1, f.next);
                lemma_clean_between_split(s, k, f.next, f.next + 1);
                lemma_first_error_split(s, k, k + 1, f.next);
                lemma_first_error_split(s, k, f.next, f.next + 1);
                lemma_first_report_split(
                    s,
                    k,
                    k + 1,
                    f.next,
                    Report {
                        at: f.next,
                        message: diagnostic_text(Diagnostic::ExpectRightParen).spec_bytes(),
                    },
                );
                if old(parser).clean() && !pm.clean() {
                    lemma_first_error_stays(
                        pm,
                        *parser,
                        scanner_report(s, first_error_token(s, k + 1, f.next)),
                    );
                }
            },
            Err(x) => {
                lemma_first_report_split(
                    s,
                    k,
                    k + 1,
                    x.read,
                    Report { at: x.at, message: diagnostic_text(x.diagnostic).spec_bytes() },
                );
                if old(parser).clean() {
                    lemma_first_error_stays(pm, *parser, failure_report(s, k + 1, x));
                }
            },
        }
    }
}

/// Compiles a prefix operator, the `k`-th token, and its operand.
fn unary<'a, F: Fn(&[u8]) -> u64>(parser: &mut Parser<'a, F>, Ghost(k): Ghost<int>)
    requires
        old(parser).wf(),
        old(parser).budget() <= budget_limit(),
        old(parser).previous.token_type == TokenType::Minus || old(parser).previous.token_type
            == TokenType::Bang,
        0 <= k,
        old(parser).clean() ==> old(parser).at(k + 1),
    ensures
        final(parser).wf(),
        final(parser).keeps(&*old(parser)),
        final(parser).measure() <= old(parser).measure(),
        final(parser).budget() <= old(parser).budget() + 1,
        final(parser).follows(
            &*old(parser),
            k,
            negation(
                old(parser).source(),
                k,
                expr_rule(old(parser).source(), k + 1, 8, old(parser).chunk.constants().len()),
            ),
        ),
    decreases old(parser).measure(), 2int,
{
    let ghost s = parser.source();
    let ghost nc = parser.chunk.constants().len();
    let ghost e = expr_rule(s, k + 1, 8, nc);
    let op = parser.previous.token_type;
    parse_expression(parser, prefix_binding_power(op), Ghost(k + 1));
    let ghost pm = *parser;
    if op == TokenType::Minus {
        parser.emit_byte(OpCode::OpNegate);
    } else {
        parser.emit_byte(OpCode::OpNot);
    }
    proof {
        lemma_expr_progress(s, k + 1, 8, nc);
        if let Ok(f) = e {
            lemma_clean_between_split(s, k, k + 1, f.next);
            if parser.clean() {
                let code = if op == TokenType::Minus {
                    OpCode::OpNegate
                } else {
                    OpCode::OpNot
                };
                lemma_extends_then(
                    *old(parser),
                    pm,
                    *parser,
                    f,
                    emit(f.next, seq![opcode_byte(code)], line_at(s, f.next - 1)),
                );
            }
        }
    }
}

/// Compiles the right operand of an infix operator, the `j`-th token, then
/// the operator.
#[verifier::rlimit(30)]
fn binary_op<'a, F: Fn(&[u8]) -> u64>(parser: &mut Parser<'a, F>, min_op: u8, Ghost(j): Ghost<int>)
    requires
        old(parser).wf(),
        old(parser).budget() <= budget_limit(),
        infix_power(old(parser).previous.token_type).0 != 0,
        0 <= j,
        old(parser).clean() ==> old(parser).at(j + 1),
    ensures
        final(parser).wf(),
        final(parser).keeps(&*old(parser)),
        final(parser).measure() <= old(parser).measure(),
        final(parser).budget() <= old(parser).budget() + 2,
        final(parser).follows(
            &*old(parser),
            j,
            binary_rule(old(parser).source(), j, min_op, old(parser).chunk.constants().len()),
        ),
    decreases old(parser).measure(), 2int,
{
    let ghost s = parser.source();
    let ghost nc = parser.chunk.constants().len();
    let ghost e = expr_rule(s, j + 1, min_op, nc);
    let op = parser.previous.token_type;
    parse_expression(parser, min_op, Ghost(j + 1));
    let ghost pm = *parser;
    let ghost line = pm.previous.line as u32;
    if op == TokenType::Plus {
        parser.emit_byte(OpCode::OpAdd);
    } else if op == TokenType::Minus {
        parser.emit_byte(OpCode::OpSub);
    } else if op == TokenType::Star {
        parser.emit_byte(OpCode::OpMul);
    } else if op == TokenType::Slash {
        parser.emit_byte(OpCode::OpDiv);
    } else if op == TokenType::EqualEqual {
        parser.emit_byte(OpCode::OpEqual);
    } else if op == TokenType::BangEqual {
        let pair = [OpCode::OpEqual, OpCode::OpNot];
        parser.emit_bytes(&pair);
        assert(pair@.map_values(|o: OpCode| opcode_byte(o)) =~= operator_code(op));
    } else if op == TokenType::Greater {
        parser.emit_byte(OpCode::OpGreater);
    } else if op == TokenType::GreaterEqual {
        let pair = [OpCode::OpLess, OpCode::OpNot];
        parser.emit_bytes(&pair);
        assert(pair@.map_values(|o: OpCode| opcode_byte(o)) =~= operator_code(op));
    } else if op == TokenType::Less {
        parser.emit_byte(OpCode::OpLess);
    } else {
        let pair = [OpCode::OpGreater, OpCode::OpNot];
        parser.emit_bytes(&pair);
        assert(pair@.map_values(|o: OpCode| opcode_byte(o)) =~= operator_code(op));
    }
    proof {
        assert(parser.extends(&pm, emit(0, operator_code(op), line)));
        lemma_expr_progress(s, j + 1, min_op, nc);
        if let Ok(f) = e {
            lemma_clean_between_split(s, j, j + 1, f.next);
            if parser.clean() {
                lemma_extends_then(
                    *old(parser),
                    pm,
                    *parser,
                    f,
                    emit(f.next, operator_code(kind_at(s, j)), line_at(s, f.next - 1)),
                );
            }
        }
    }
}

/// Parses an expression that starts with the current token, the `k`-th.
fn expression<'a, F: Fn(&[u8]) -> u64>(parser: &mut Parser<'a, F>, Ghost(k): Ghost<int>)
    requires
        old(parser).wf(),
        old(parser).budget() <= budget_limit(),
        0 <= k,
        old(parser).clean() ==> old(parser).at(k),
    ensures
        final(parser).wf(),
        final(parser).keeps(&*old(parser)),
        final(parser).measure() <= old(parser).measure(),
        final(parser).budget() + 4 * pending(old(parser).current) <= old(parser).budget(),
        final(parser).follows(
            &*old(parser),
            k,
            expr_rule(old(parser).source(), k, 0, old(parser).chunk.constants().len()),
        ),
    decreases old(parser).measure(), 2int,
{
    parse_expression(parser, 0, Ghost(k));
}

/// Compiles `var name [= expression];`, after the `var`, the `k`-th token.
#[verifier::rlimit(80)]
#[verifier::spinoff_prover]
fn var_declaration<'a, F: Fn(&[u8]) -> u64>(parser: &mut Parser<'a, F>, Ghost(k): Ghost<int>)
    requires
        old(parser).wf(),
        old(parser).budget() + 8 <= budget_limit(),
        0 <= k,
        old(parser).clean() ==> old(parser).at(k + 1),
    ensures
        final(parser).wf(),
        final(parser).keeps(&*old(parser)),
        final(parser).measure() <= old(parser).measure(),
        final(parser).budget() <= old(parser).budget() + 5,
        final(parser).follows(
            &*old(parser),
            k,
            var_rule(old(parser).source(), k, old(parser).chunk.constants().len()),
        ),
{
    let ghost s = parser.source();
    let ghost nc = parser.chunk.constants().len();
    let global = parser.parse_variable("Expect variable name.", Ghost(k + 1));
    let ghost pv = *parser;
    let ghost init: Result<Fragment, Failure> = if kind_at(s, k + 2) == TokenType::Equal {
        expr_rule(s, k + 3, 0, nc + 1)
    } else {
        Ok(emit(k + 2, seq![opcode_byte(OpCode::OpNil)], line_at(s, k + 1)))
    };
    proof {
        lemma_expr_progress(s, k + 3, 0, nc + 1);
        lemma_clean_between_split(s, k + 2, k + 2, k + 2);
    }
    if parser.match_token(TokenType::Equal, Ghost(k + 2)) {
        let ghost pq = *parser;
        expression(parser, Ghost(k + 3));
        proof {
            lemma_follows_from_next(pv, pq, *parser, k + 2, expr_rule(s, k + 3, 0, nc + 1));
        }
    } else {
        parser.emit_byte(OpCode::OpNil);
    }
    let ghost pi = *parser;
    assert(parser.follows(&pv, k + 2, init));
    let ghost en: int = match init {
        Ok(e) => e.next,
        Err(_) => k + 2,
    };
    parser.consume(TokenType::Semicolon, "Expect ';' after variable declaration.", Ghost(en));
    let ghost pc = *parser;
    parser.define_variable(global);
    proof {
        lemma_declaration_progress(s, k, nc);
        let r = var_rule(s, k, nc);
        if old(parser).clean() && !parser.clean() {
            lemma_clean_between_split(s, k, k + 1, k + 2);
            lemma_first_error_split(s, k, k + 1, k + 2);
            if kind_at(s, k + 1) != TokenType::Identifier {
                lemma_clean_between_split(s, k, k + 1, k + 1);
                lemma_first_error_stays(
                    pv,
                    *parser,
                    Report {
                        at: k + 1,
                        message: diagnostic_text(Diagnostic::ExpectVariableName).spec_bytes(),
                    },
                );
            } else if !pv.clean() {
                lemma_outcome_report_from(s, k, k + 2, r);
                lemma_first_error_stays(pv, *parser, scanner_report(s, k + 2));
            } else {
                lemma_statement_end_errors(
                    pv,
                    pi,
                    pc,
                    *parser,
                    k + 2,
                    init,
                    OpCode::OpNil,
                    Diagnostic::ExpectSemicolonAfterVar,
                );
                assert(outcome_report(
                    s,
                    k + 2,
                    statement_end(s, init, OpCode::OpNil, Diagnostic::ExpectSemicolonAfterVar),
                ) == outcome_report(s, k + 2, r));
                lemma_outcome_report_shift(s, k, k + 2, r);
            }
        }
        if let Ok(e) = init {
            lemma_clean_between_split(s, k, k + 2, e.next + 1);
            lemma_clean_between_split(s, k, k + 1, k + 2);
            lemma_clean_between_split(s, k + 2, e.next, e.next + 1);
            if parser.clean() {
                let name = name_fragment(k + 2, text_at(s, k + 1));
                lemma_extends_then(*old(parser), pv, pi, name, e);
                lemma_extends_then(
                    *old(parser),
                    pc,
                    *parser,
                    then(name, e),
                    emit(
                        e.next + 1,
                        global_instruction(
                            OpCode::OpDefineGlobal,
                            OpCode::OpDefineGlobalLong,
                            global,
                        ),
                        line_at(s, e.next),
                    ),
                );
            }
        }
    }
}

/// Compiles `expression;`, which discards the expression's value; the
/// expression starts with the `k`-th token.
#[verifier::rlimit(40)]
fn expression_statement<'a, F: Fn(&[u8]) -> u64>(parser: &mut Parser<'a, F>, Ghost(k): Ghost<int>)
    requires
        old(parser).wf(),
        old(parser).budget() <= budget_limit(),
        old(parser).current.token_type != TokenType::Eof,
        0 <= k,
        old(parser).clean() ==> old(parser).at(k),
    ensures
        final(parser).wf(),
        final(parser).keeps(&*old(parser)),
        final(parser).measure() <= old(parser).measure(),
        final(parser).budget() + 3 <= old(parser).budget(),
        final(parser).follows(
            &*old(parser),
            k,
            expression_statement_rule(old(parser).source(), k, old(parser).chunk.constants().len()),
        ),
{
    let ghost s = parser.source();
    let ghost nc = parser.chunk.constants().len();
    let ghost e = expr_rule(s, k, 0, nc);
    expression(parser, Ghost(k));
    let ghost pe = *parser;
    let ghost en: int = match e {
        Ok(f) => f.next,
        Err(_) => k,
    };
    parser.consume(TokenType::Semicolon, "Expect ';' after expression.", Ghost(en));
    let ghost pc = *parser;
    parser.emit_byte(OpCode::OpPop);
    proof {
        lemma_expr_progress(s, k, 0, nc);
        lemma_statement_end_errors(
            *old(parser),
            pe,
            pc,
            *parser,
            k,
            e,
            OpCode::OpPop,
            Diagnostic::ExpectSemicolonAfterExpression,
        );
        if let Ok(f) = e {
            lemma_clean_between_split(s, k, f.next, f.next + 1);
            if parser.clean() {
                lemma_extends_then(
                    *old(parser),
                    pc,
                    *parser,
                    f,
                    emit(f.next + 1, seq![opcode_byte(OpCode::OpPop)], line_at(s, f.next)),
                );
            }
        }
    }
}

/// Compiles `print expression;`, after the `print`, the `k`-th token.
fn print_statement<'a, F: Fn(&[u8]) -> u64>(parser: &mut Parser<'a, F>, Ghost(k): Ghost<int>)
    requires
        old(parser).wf(),
        old(parser).budget() + 8 <= budget_limit(),
        0 <= k,
        old(parser).clean() ==> old(parser).at(k + 1),
    ensures
        final(parser).wf(),
        final(parser).keeps(&*old(parser)),
        final(parser).measure() <= old(parser).measure(),
        final(parser).budget() <= old(parser).budget() + 1,
        final(parser).follows(
            &*old(parser),
            k,
            print_rule(old(parser).source(), k, old(parser).chunk.constants().len()),
        ),
{
    let ghost s = parser.source();
    let ghost nc = parser.chunk.constants().len();
    let ghost e = expr_rule(s, k + 1, 0, nc);
    expression(parser, Ghost(k + 1));
    let ghost pe = *parser;
    let ghost en: int = match e {
        Ok(f) => f.next,
        Err(_) => k + 1,
    };
    parser.consume(TokenType::Semicolon, "Expect ';' after value.", Ghost(en));
    let ghost pc = *parser;
    parser.emit_byte(OpCode::OpPrint);
    proof {
        lemma_expr_progress(s, k + 1, 0, nc);
        lemma_clean_between_split(s, k, k + 1, k + 1);
        lemma_follows_shift(*old(parser), pe, k, k + 1, e);
        lemma_statement_end_errors(
            *old(parser),
            pe,
            pc,
            *parser,
            k,
            e,
            OpCode::OpPrint,
            Diagnostic::ExpectSemicolonAfterValue,
        );
        if let Ok(f) = e {
            lemma_clean_between_split(s, k, k + 1, f.next + 1);
            lemma_clean_between_split(s, k + 1, f.next, f.next + 1);
            if parser.clean() {
                lemma_extends_then(
                    *old(parser),
                    pc,
                    *parser,
                    f,
                    emit(f.next + 1, seq![opcode_byte(OpCode::OpPrint)], line_at(s, f.next)),
                );
            }
        }
    }
}

/// Compiles a declaration or statement that starts with the current token,
/// the `k`-th, then recovers from an error in it.
fn declaration<'a, F: Fn(&[u8]) -> u64>(parser: &mut Parser<'a, F>, Ghost(k): Ghost<int>)
    requires
        old(parser).wf(),
        old(parser).budget() <= budget_limit(),
        old(parser).current.token_type != TokenType::Eof,
        0 <= k,
        old(parser).clean() ==> old(parser).at(k),
    ensures
        final(parser).wf(),
        final(parser).keeps(&*old(parser)),
        final(parser).measure() <= old(parser).measure(),
        final(parser).budget() + 3 <= old(parser).budget(),
        final(parser).follows(
            &*old(parser),
            k,
            declaration_rule(old(parser).source(), k, old(parser).chunk.constants().len()),
        ),
{
    let ghost s = parser.source();
    let ghost nc = parser.chunk.constants().len();
    proof {
        lemma_declaration_progress(s, k, nc);
    }
    if parser.match_token(TokenType::Var, Ghost(k)) {
        let ghost pv = *parser;
        var_declaration(parser, Ghost(k));
        proof {
            lemma_follows_after_step(*old(parser), pv, *parser, k, var_rule(s, k, nc));
        }
    } else {
        statement(parser, Ghost(k));
    }
    assert(parser.follows(&*old(parser), k, declaration_rule(s, k, nc)));
    if parser.panic_mode {
        parser.synchronize();
    }
}

/// Compiles a statement that starts with the current token, the `k`-th.
fn statement<'a, F: Fn(&[u8]) -> u64>(parser: &mut Parser<'a, F>, Ghost(k): Ghost<int>)
    requires
        old(parser).wf(),
        old(parser).budget() <= budget_limit(),
        old(parser).current.token_type != TokenType::Eof,
        0 <= k,
        old(parser).clean() ==> old(parser).at(k),
    ensures
        final(parser).wf(),
        final(parser).keeps(&*old(parser)),
        final(parser).measure() <= old(parser).measure(),
        final(parser).budget() + 3 <= old(parser).budget(),
        final(parser).follows(
            &*old(parser),
            k,
            if kind_at(old(parser).source(), k) == TokenType::Print {
                print_rule(old(parser).source(), k, old(parser).chunk.constants().len())
            } else {
                expression_statement_rule(
                    old(parser).source(),
                    k,
                    old(parser).chunk.constants().len(),
                )
            },
        ),
{
    let ghost s = parser.source();
    let ghost nc = parser.chunk.constants().len();
    proof {
        lemma_declaration_progress(s, k, nc);
    }
    if parser.match_token(TokenType::Print, Ghost(k)) {
        let ghost pp = *parser;
        print_statement(parser, Ghost(k));
        proof {
            lemma_follows_after_step(*old(parser), pp, *parser, k, print_rule(s, k, nc));
        }
    } else {
        expression_statement(parser, Ghost(k));
    }
}

/// The source text a compilation accepts: NUL-terminated (scanning stops at
/// the NUL byte), and small enough that the code fits the line table. The
/// line table counts bytes in `u32`; no construct writes more than eight
/// bytes per token, and a token takes at least one byte of source but the
/// last, so a source of at most 0x0fff_ffff bytes keeps every count in `u32`
/// whatever it compiles to.
pub open spec fn compilable(source: &str) -> bool {
    &&& terminated(source.spec_bytes(), 0)
    &&& source.spec_bytes().len() <= 0x0fff_ffff
}

/// The chunk holds exactly the fragment `f`: its code, a line table that
/// records its lines, and constants that its constant texts stand for.
pub open spec fn chunk_holds<F: Fn(&[u8]) -> u64>(chunk: Chunk, f: Fragment, number: F) -> bool {
    &&& chunk.bytes() == f.code
    &&& chunk.line_table() == add_lines(Seq::empty(), f.lines)
    &&& chunk.constants().len() == f.constants.len()
    &&& forall|i: int|
        0 <= i < f.constants.len() ==> constant_matches(
            number,
            #[trigger] f.constants[i],
            chunk.constants()[i],
        )
}

/// Compiles `source` into a chunk, interning its names and strings in
/// `table` and converting number literals with `number`. Returns the chunk if
/// no error was found, and the errors found. The chunk is there exactly when
/// the source is a program of the language and scans without an error token,
/// and then it holds the code that the grammar gives for it; else the first
/// error is the one the grammar finds first (see `first_error`). The table
/// keeps its entries; each text it gains decodes a stretch of the source, and
/// on success it has gained exactly the texts of the compiled strings and
/// names that it did not hold yet, in the order in which they occur.
#[verifier::rlimit(100)]
#[verifier::spinoff_prover]
pub fn compile<'a, F: Fn(&[u8]) -> u64>(source: &'a str, table: &mut StringTable, number: F) -> (r: (
    Option<Chunk>,
    Vec<CompileError<'a>>,
))
    requires
        compilable(source),
        old(table).wf(),
        forall|b: &[u8]| number.requires((b,)),
    ensures
        final(table).wf(),
        old(table)@.len() <= final(table)@.len(),
        forall|i: int| 0 <= i < old(table)@.len() ==> final(table)@[i] == old(table)@[i],
        forall|i: int|
            old(table)@.len() <= i < final(table)@.len() ==> decodes_stretch(
                #[trigger] final(table)@[i],
                source.spec_bytes(),
            ),
        r.0 is Some <==> r.1@.len() == 0,
        r.0 is Some <==> compiled(source.spec_bytes()) is Some,
        r.0 is None ==> reports_at(
            r.1@[0],
            source.spec_bytes(),
            first_error(source.spec_bytes()).at,
            first_error(source.spec_bytes()).message,
        ),
        r.0 is Some ==> final(table)@ == interned(
            old(table)@,
            compiled(source.spec_bytes())->0.constants,
        ),
        r.0 matches Some(chunk) ==> {
            &&& chunk_holds(chunk, compiled(source.spec_bytes())->0, number)
            &&& chunk.ok()
            &&& chunk.bytes().len() > 0
            &&& chunk.bytes().last() == opcode_byte(OpCode::OpReturn)
            &&& total_count(chunk.line_table()) <= u32::MAX
        },
{
    let mut t = StringTable::new();
    std::mem::swap(&mut t, table);
    let mut parser = Parser::new(Scanner::new(source), t, number);
    let ghost s = parser.source();
    let ghost p0 = parser;
    let ghost whole = program_rule(s, 0, 0);
    parser.advance(Ghost(-1));
    let ghost mut acc: Fragment = empty_at(0);
    let ghost mut k: int = 0;
    proof {
        lemma_then_empty(whole->Ok_0, 0);
        lemma_clean_between_split(s, -1, 0, 0);
        lemma_extends_without_constants(p0, parser, empty_at(0));
        assert(p0.chunk.bytes() + Seq::<u8>::empty() =~= p0.chunk.bytes());
        lemma_program_rule_step(s, 0, 0);
        if !parser.clean() {
            lemma_outcome_report_from(s, -1, 0, whole);
        }
    }
    while !parser.match_token(TokenType::Eof, Ghost(k))
        invariant
            parser.wf(),
            parser.budget() <= budget_limit(),
            parser.table@.len() >= old(table)@.len(),
            forall|i: int| 0 <= i < old(table)@.len() ==> parser.table@[i] == old(table)@[i],
            forall|i: int|
                old(table)@.len() <= i < parser.table@.len() ==> decodes_stretch(
                    #[trigger] parser.table@[i],
                    s,
                ),
            parser.source() == s,
            s == source.spec_bytes(),
            terminated(s, 0),
            parser.number == number,
            p0.number == number,
            p0.chunk.bytes() == Seq::<u8>::empty(),
            p0.chunk.constants() == Seq::<Value>::empty(),
            p0.chunk.line_table() == Seq::<(u32, u32)>::empty(),
            p0.table@ == old(table)@,
            whole == program_rule(s, 0, 0),
            0 <= k,
            parser.clean() ==> {
                &&& whole == then_res(acc, program_rule(s, k, acc.constants.len()))
                &&& parser.extends(&p0, acc)
                &&& parser.at(k)
                &&& acc.next == k
                &&& clean_between(s, -1, k)
            },
            whole is Ok && clean_between(s, -1, whole->Ok_0.next) ==> parser.clean(),
            !parser.clean() ==> parser.first_error_is(outcome_report(s, -1, whole)),
        decreases parser.budget(),
    {
        let ghost pm = parser;
        let ghost nck = acc.constants.len();
        let ghost d = declaration_rule(s, k, nck);
        proof {
            lemma_program_rule_step(s, k, nck);
            lemma_declaration_progress(s, k, nck);
            if parser.clean() {
                assert(kind_at(s, k) != TokenType::Eof);
            }
        }
        declaration(&mut parser, Ghost(k));
        proof {
            if parser.clean() {
                let dd = d->Ok_0;
                lemma_extends_then(p0, pm, parser, acc, dd);
                if let Ok(q) = program_rule(s, dd.next, nck + dd.constants.len()) {
                    lemma_then_assoc(acc, dd, q);
                }
                lemma_clean_between_split(s, -1, k, dd.next);
                acc = then(acc, dd);
                k = dd.next;
            } else if pm.clean() {
                if whole is Ok && clean_between(s, -1, whole->Ok_0.next) {
                    let dd = d->Ok_0;
                    lemma_clean_between_split(s, -1, k, whole->Ok_0.next);
                    lemma_clean_between_split(s, k, dd.next, whole->Ok_0.next);
                }
                lemma_program_rule_step(s, k, nck);
                lemma_outcome_report_shift(s, -1, k, whole);
                if let Ok(dd) = d {
                    lemma_program_rule_step(s, dd.next, nck + dd.constants.len());
                    lemma_outcome_report_from(s, k, dd.next, whole);
                }
            } else {
                lemma_first_error_stays(pm, parser, outcome_report(s, -1, whole));
            }
        }
    }
    let ghost pe = parser;
    parser.end_compiler();
    proof {
        if !parser.clean() {
            assert(parser.errors@[0] == pe.errors@[0]);
        }
        if parser.clean() {
            lemma_eof_repeats(s, k);
            let f = whole->Ok_0;
            lemma_extends_then(
                p0,
                pe,
                parser,
                acc,
                emit(k + 1, seq![opcode_byte(OpCode::OpReturn)], line_at(s, k)),
            );
            assert(parser.chunk.bytes() =~= f.code);
            assert forall|i: int| 0 <= i < f.constants.len() implies constant_matches(
                number,
                #[trigger] f.constants[i],
                parser.chunk.constants()[i],
            ) by {
                assert(parser.chunk.constants()[0 + i] == parser.chunk.constants()[i]);
            }
        }
    }
    *table = parser.table;
    if !parser.had_error {
        (Some(parser.chunk), parser.errors)
    } else {
        (None, parser.errors)
    }
}

/// `e` reports `message` at the `t`-th token of `s`: on the line where the
/// token ends, "at end" for `Eof`, without location for an error token, else
/// at the token's text.
pub open spec fn reports_at(e: CompileError, s: Seq<u8>, t: int, message: Seq<u8>) -> bool {
    &&& e.line == 1 + newlines(s, token_at(s, t).2)
    &&& e.message@ == message
    &&& if kind_at(s, t) == TokenType::Eof {
        e.location is AtEnd
    } else if kind_at(s, t) == TokenType::Error {
        e.location is Unlocated
    } else {
        e.location matches ErrorLocation::Lexeme(l) && l@ == text_at(s, t)
    }
}

/// The keywords that start a statement, where recovery resumes.
pub open spec fn starts_statement(t: TokenType) -> bool {
    ||| t == TokenType::Class
    ||| t == TokenType::Fun
    ||| t == TokenType::Var
    ||| t == TokenType::For
    ||| t == TokenType::If
    ||| t == TokenType::While
    ||| t == TokenType::Print
    ||| t == TokenType::Return
}

/// `e` reports the error token that scanning `s` from position `p` gives: on
/// the line where it ends, without location, with the scanner's message.
pub open spec fn reports_scan_error(e: CompileError, s: Seq<u8>, p: int) -> bool {
    let (kind, start, end) = next_token(s, p);
    &&& e.line == 1 + newlines(s, end)
    &&& e.location is Unlocated
    &&& e.message@ == scan_error_message(s, start).spec_bytes()
}

/// `e` reports `message` at `token`: on its line, "at end" for `Eof`, without
/// location for an error token, else at the token's text.
pub open spec fn reports(e: CompileError, token: Token, message: Seq<u8>) -> bool {
    &&& e.line == token.line
    &&& e.message@ == message
    &&& if token.token_type == TokenType::Eof {
        e.location is AtEnd
    } else if token.token_type == TokenType::Error {
        e.location is Unlocated
    } else {
        e.location matches ErrorLocation::Lexeme(l) && l@ == token.lexeme()
    }
}

} // verus!
