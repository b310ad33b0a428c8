//! The scanner: turns the bytes of a NUL-terminated source into tokens, one
//! token per call.

use vstd::prelude::*;
use vstd::string::*;
use crate::compiler::token::{Token, TokenType};

verus! {

// ---------------------------------------------------------------------------
// What a source says, byte by byte
// ---------------------------------------------------------------------------

/// A decimal digit.
pub open spec fn is_digit_byte(c: u8) -> bool {
    '0' as u8 <= c <= '9' as u8
}

/// A letter or `_`, which may start a word.
pub open spec fn is_alpha_byte(c: u8) -> bool {
    ('a' as u8 <= c <= 'z' as u8) || ('A' as u8 <= c <= 'Z' as u8) || c == '_' as u8
}

/// A blank: space, tab, carriage return or line feed.
pub open spec fn is_space_byte(c: u8) -> bool {
    c == ' ' as u8 || c == '\t' as u8 || c == '\r' as u8 || c == '\n' as u8
}

/// The number of line feeds among the first `n` bytes of `s`.
pub open spec fn newlines(s: Seq<u8>, n: int) -> nat
    decreases n,
{
    if n <= 0 || n > s.len() {
        0
    } else {
        newlines(s, n - 1) + if s[n - 1] == '\n' as u8 { 1nat } else { 0nat }
    }
}

/// From position `i` on, `s` holds a NUL byte, and fewer than `i32::MAX` line
/// feeds stand before it: scanning stops there, with a line number that fits.
pub open spec fn terminated(s: Seq<u8>, i: int) -> bool {
    exists|k: int| i <= k < s.len() && s[k] == 0 && newlines(s, k) < i32::MAX
}

/// The first position from `i` on that holds a line feed or a NUL byte.
pub open spec fn line_end(s: Seq<u8>, i: int) -> int
    decreases s.len() - i,
{
    if i < 0 || i >= s.len() || s[i] == '\n' as u8 || s[i] == 0 {
        i
    } else {
        line_end(s, i + 1)
    }
}

/// The first position from `i` on that holds a double quote or a NUL byte.
pub open spec fn quote_end(s: Seq<u8>, i: int) -> int
    decreases s.len() - i,
{
    if i < 0 || i >= s.len() || s[i] == '"' as u8 || s[i] == 0 {
        i
    } else {
        quote_end(s, i + 1)
    }
}

/// The first position from `i` on that holds no decimal digit.
pub open spec fn digits_end(s: Seq<u8>, i: int) -> int
    decreases s.len() - i,
{
    if i < 0 || i >= s.len() || !is_digit_byte(s[i]) {
        i
    } else {
        digits_end(s, i + 1)
    }
}

/// The first position from `i` on that holds neither a letter, `_` nor a digit.
pub open spec fn word_end(s: Seq<u8>, i: int) -> int
    decreases s.len() - i,
{
    if i < 0 || i >= s.len() || !(is_alpha_byte(s[i]) || is_digit_byte(s[i])) {
        i
    } else {
        word_end(s, i + 1)
    }
}

/// The end of a line lies between its start and the end of the text.
pub proof fn lemma_line_end_bounds(s: Seq<u8>, i: int)
    requires
        0 <= i <= s.len(),
    ensures
        i <= line_end(s, i) <= s.len(),
    decreases s.len() - i,
{
    if i < s.len() && s[i] != '\n' as u8 && s[i] != 0 {
        lemma_line_end_bounds(s, i + 1);
    }
}

/// The position after the blanks and `//` comments that start at `i`.
pub open spec fn skip_trivia(s: Seq<u8>, i: int) -> int
    decreases s.len() - i,
{
    if i < 0 || i + 1 >= s.len() {
        i
    } else if is_space_byte(s[i]) {
        skip_trivia(s, i + 1)
    } else if s[i] == '/' as u8 && s[i + 1] == '/' as u8 {
        proof {
            lemma_line_end_bounds(s, i + 2);
        }
        skip_trivia(s, line_end(s, i + 2))
    } else {
        i
    }
}

/// The end of a number literal whose first digit stands just before `i`:
/// digits, then optionally a dot that a digit follows, and more digits.
pub open spec fn number_end(s: Seq<u8>, i: int) -> int {
    let j = digits_end(s, i);
    if 0 <= j && j + 1 < s.len() && s[j] == '.' as u8 && is_digit_byte(s[j + 1]) {
        digits_end(s, j + 1)
    } else {
        j
    }
}

/// The kind of a word: the keyword it spells, or `Identifier`.
pub open spec fn keyword_type(w: Seq<u8>) -> TokenType {
    if w == seq!['a' as u8, 'n' as u8, 'd' as u8] {
        TokenType::And
    } else if w == seq!['c' as u8, 'l' as u8, 'a' as u8, 's' as u8, 's' as u8] {
        TokenType::Class
    } else if w == seq!['e' as u8, 'l' as u8, 's' as u8, 'e' as u8] {
        TokenType::Else
    } else if w == seq!['f' as u8, 'a' as u8, 'l' as u8, 's' as u8, 'e' as u8] {
        TokenType::False
    } else if w == seq!['f' as u8, 'o' as u8, 'r' as u8] {
        TokenType::For
    } else if w == seq!['f' as u8, 'u' as u8, 'n' as u8] {
        TokenType::Fun
    } else if w == seq!['i' as u8, 'f' as u8] {
        TokenType::If
    } else if w == seq!['n' as u8, 'i' as u8, 'l' as u8] {
        TokenType::Nil
    } else if w == seq!['o' as u8, 'r' as u8] {
        TokenType::Or
    } else if w == seq!['p' as u8, 'r' as u8, 'i' as u8, 'n' as u8, 't' as u8] {
        TokenType::Print
    } else if w == seq!['r' as u8, 'e' as u8, 't' as u8, 'u' as u8, 'r' as u8, 'n' as u8] {
        TokenType::Return
    } else if w == seq!['s' as u8, 'u' as u8, 'p' as u8, 'e' as u8, 'r' as u8] {
        TokenType::Super
    } else if w == seq!['t' as u8, 'h' as u8, 'i' as u8, 's' as u8] {
        TokenType::This
    } else if w == seq!['t' as u8, 'r' as u8, 'u' as u8, 'e' as u8] {
        TokenType::True
    } else if w == seq!['v' as u8, 'a' as u8, 'r' as u8] {
        TokenType::Var
    } else if w == seq!['w' as u8, 'h' as u8, 'i' as u8, 'l' as u8, 'e' as u8] {
        TokenType::While
    } else {
        TokenType::Identifier
    }
}

/// The kind of a token of one byte, or `Error` for a byte that starts no
/// such token.
pub open spec fn single_type(c: u8) -> TokenType {
    if c == '(' as u8 {
        TokenType::LeftParen
    } else if c == ')' as u8 {
        TokenType::RightParen
    } else if c == '{' as u8 {
        TokenType::LeftBrace
    } else if c == '}' as u8 {
        TokenType::RightBrace
    } else if c == ',' as u8 {
        TokenType::Comma
    } else if c == '.' as u8 {
        TokenType::Dot
    } else if c == '-' as u8 {
        TokenType::Minus
    } else if c == '+' as u8 {
        TokenType::Plus
    } else if c == '/' as u8 {
        TokenType::Slash
    } else if c == '*' as u8 {
        TokenType::Star
    } else if c == ';' as u8 {
        TokenType::Semicolon
    } else if c == '!' as u8 {
        TokenType::Bang
    } else if c == '=' as u8 {
        TokenType::Equal
    } else if c == '<' as u8 {
        TokenType::Less
    } else if c == '>' as u8 {
        TokenType::Greater
    } else {
        TokenType::Error
    }
}

/// The kind of the two-byte token that `c` followed by `=` forms.
pub open spec fn with_equal_type(c: u8) -> TokenType {
    if c == '!' as u8 {
        TokenType::BangEqual
    } else if c == '=' as u8 {
        TokenType::EqualEqual
    } else if c == '<' as u8 {
        TokenType::LessEqual
    } else {
        TokenType::GreaterEqual
    }
}

/// The token that scanning `s` from position `i` yields: its kind, and the
/// positions where its text starts and where scanning stops.
pub open spec fn next_token(s: Seq<u8>, i: int) -> (TokenType, int, int) {
    let p = skip_trivia(s, i);
    let c = s[p];
    if c == 0 {
        (TokenType::Eof, p, p)
    } else if is_digit_byte(c) {
        (TokenType::Number, p, number_end(s, p + 1))
    } else if is_alpha_byte(c) {
        (keyword_type(s.subrange(p, word_end(s, p + 1))), p, word_end(s, p + 1))
    } else if c == '"' as u8 {
        let e = quote_end(s, p + 1);
        if s[e] == 0 {
            (TokenType::Error, p, e)
        } else {
            (TokenType::String, p, e + 1)
        }
    } else if (c == '!' as u8 || c == '=' as u8 || c == '<' as u8 || c == '>' as u8) && s[p + 1]
        == '=' as u8 {
        (with_equal_type(c), p, p + 2)
    } else {
        (single_type(c), p, p + 1)
    }
}

/// The message of an error token that stops scanning at `end`.
pub open spec fn scan_error_message(s: Seq<u8>, start: int) -> &'static str {
    if s[start] == '"' as u8 {
        "Unterminated string."
    } else {
        "Unexpected character."
    }
}

// ---------------------------------------------------------------------------
// Facts about the positions
// ---------------------------------------------------------------------------

proof fn lemma_newlines_monotone(s: Seq<u8>, a: int, b: int)
    requires
        0 <= a <= b <= s.len(),
    ensures
        newlines(s, a) <= newlines(s, b),
    decreases b - a,
{
    if a < b {
        lemma_newlines_monotone(s, a, b - 1);
    }
}

/// Stepping over a byte other than NUL keeps the source terminated, and the
/// count of line feeds up to the next position in range.
proof fn lemma_step(s: Seq<u8>, i: int)
    requires
        0 <= i,
        terminated(s, i),
        s[i] != 0,
    ensures
        i + 1 < s.len(),
        terminated(s, i + 1),
        newlines(s, i + 1) < i32::MAX,
{
    let k = choose|k: int| i <= k < s.len() && s[k] == 0 && newlines(s, k) < i32::MAX;
    assert(k != i);
    lemma_newlines_monotone(s, i + 1, k);
}

proof fn lemma_terminated_in_range(s: Seq<u8>, i: int)
    requires
        terminated(s, i),
    ensures
        i < s.len(),
{
}

/// A word whose first `k` bytes agree with a keyword's spells the keyword
/// exactly when its length and its remaining bytes agree too.
proof fn lemma_keyword_rest(s: Seq<u8>, start: int, end: int, k: int, kw: Seq<u8>)
    requires
        0 <= start < end <= s.len(),
        1 <= k <= kw.len(),
        k <= end - start,
        s.subrange(start, start + k) == kw.subrange(0, k),
    ensures
        (s.subrange(start, end) == kw) <==> (end - start == kw.len() && s.subrange(
            start + k,
            start + kw.len(),
        ) == kw.subrange(k, kw.len() as int)),
{
    let w = s.subrange(start, end);
    if end - start == kw.len() && s.subrange(start + k, start + kw.len()) == kw.subrange(
        k,
        kw.len() as int,
    ) {
        assert forall|i: int| 0 <= i < kw.len() implies w[i] == kw[i] by {
            if i < k {
                assert(s.subrange(start, start + k)[i] == kw.subrange(0, k)[i]);
            } else {
                assert(s.subrange(start + k, start + kw.len())[i - k] == kw.subrange(
                    k,
                    kw.len() as int,
                )[i - k]);
            }
        }
        assert(w =~= kw);
    }
    if w == kw {
        assert(s.subrange(start + k, start + kw.len()) =~= kw.subrange(k, kw.len() as int));
    }
}

/// The keyword a word may spell is decided by its first byte, or its first
/// two bytes for `f` and `t`.
proof fn lemma_keyword_by_initials(w: Seq<u8>)
    requires
        w.len() >= 1,
    ensures
        keyword_type(w) == if w[0] == 'a' as u8 {
            if w == seq!['a' as u8, 'n' as u8, 'd' as u8] { TokenType::And } else { TokenType::Identifier }
        } else if w[0] == 'c' as u8 {
            if w == seq!['c' as u8, 'l' as u8, 'a' as u8, 's' as u8, 's' as u8] { TokenType::Class } else { TokenType::Identifier }
        } else if w[0] == 'e' as u8 {
            if w == seq!['e' as u8, 'l' as u8, 's' as u8, 'e' as u8] { TokenType::Else } else { TokenType::Identifier }
        } else if w[0] == 'f' as u8 {
            if w.len() > 1 && w[1] == 'a' as u8 {
                if w == seq!['f' as u8, 'a' as u8, 'l' as u8, 's' as u8, 'e' as u8] { TokenType::False } else { TokenType::Identifier }
            } else if w.len() > 1 && w[1] == 'o' as u8 {
                if w == seq!['f' as u8, 'o' as u8, 'r' as u8] { TokenType::For } else { TokenType::Identifier }
            } else if w.len() > 1 && w[1] == 'u' as u8 {
                if w == seq!['f' as u8, 'u' as u8, 'n' as u8] { TokenType::Fun } else { TokenType::Identifier }
            } else {
                TokenType::Identifier
            }
        } else if w[0] == 'i' as u8 {
            if w == seq!['i' as u8, 'f' as u8] { TokenType::If } else { TokenType::Identifier }
        } else if w[0] == 'n' as u8 {
            if w == seq!['n' as u8, 'i' as u8, 'l' as u8] { TokenType::Nil } else { TokenType::Identifier }
        } else if w[0] == 'o' as u8 {
            if w == seq!['o' as u8, 'r' as u8] { TokenType::Or } else { TokenType::Identifier }
        } else if w[0] == 'p' as u8 {
            if w == seq!['p' as u8, 'r' as u8, 'i' as u8, 'n' as u8, 't' as u8] { TokenType::Print } else { TokenType::Identifier }
        } else if w[0] == 'r' as u8 {
            if w == seq!['r' as u8, 'e' as u8, 't' as u8, 'u' as u8, 'r' as u8, 'n' as u8] { TokenType::Return } else { TokenType::Identifier }
        } else if w[0] == 's' as u8 {
            if w == seq!['s' as u8, 'u' as u8, 'p' as u8, 'e' as u8, 'r' as u8] { TokenType::Super } else { TokenType::Identifier }
        } else if w[0] == 't' as u8 {
            if w.len() > 1 && w[1] == 'h' as u8 {
                if w == seq!['t' as u8, 'h' as u8, 'i' as u8, 's' as u8] { TokenType::This } else { TokenType::Identifier }
            } else if w.len() > 1 && w[1] == 'r' as u8 {
                if w == seq!['t' as u8, 'r' as u8, 'u' as u8, 'e' as u8] { TokenType::True } else { TokenType::Identifier }
            } else {
                TokenType::Identifier
            }
        } else if w[0] == 'v' as u8 {
            if w == seq!['v' as u8, 'a' as u8, 'r' as u8] { TokenType::Var } else { TokenType::Identifier }
        } else if w[0] == 'w' as u8 {
            if w == seq!['w' as u8, 'h' as u8, 'i' as u8, 'l' as u8, 'e' as u8] { TokenType::While } else { TokenType::Identifier }
        } else {
            TokenType::Identifier
        },
{
}

/// The scanning helpers never pass a NUL byte.
proof fn lemma_ends_stop_at_nul(s: Seq<u8>, j: int, k: int)
    requires
        0 <= j <= k < s.len(),
        s[k] == 0,
    ensures
        j <= digits_end(s, j) <= k,
        j <= word_end(s, j) <= k,
        j <= quote_end(s, j) <= k,
        j <= line_end(s, j) <= k,
    decreases k - j,
{
    if j < k {
        lemma_ends_stop_at_nul(s, j + 1, k);
    }
}

proof fn lemma_skip_trivia_stops_at_nul(s: Seq<u8>, i: int, k: int)
    requires
        0 <= i <= k < s.len(),
        s[k] == 0,
    ensures
        i <= skip_trivia(s, i) <= k,
    decreases s.len() - i,
{
    if i + 1 < s.len() {
        if is_space_byte(s[i]) {
            lemma_skip_trivia_stops_at_nul(s, i + 1, k);
        } else if s[i] == '/' as u8 && s[i + 1] == '/' as u8 {
            lemma_ends_stop_at_nul(s, i + 2, k);
            lemma_skip_trivia_stops_at_nul(s, line_end(s, i + 2), k);
        }
    }
}

/// What scanning one token from a terminated position gives: a token that
/// starts at or after the position, is non-empty unless it is `Eof`, holds
/// both quotes if it is a string, and leaves the rest of the text terminated.
pub proof fn lemma_next_token_facts(s: Seq<u8>, i: int)
    requires
        0 <= i,
        terminated(s, i),
    ensures
        i <= next_token(s, i).1 <= next_token(s, i).2 < s.len(),
        terminated(s, next_token(s, i).2),
        next_token(s, i).0 != TokenType::Eof ==> next_token(s, i).1 < next_token(s, i).2,
        next_token(s, i).0 == TokenType::Eof ==> next_token(s, i).1 == next_token(s, i).2,
        next_token(s, i).0 == TokenType::String ==> next_token(s, i).2 - next_token(s, i).1 >= 2,
{
    let k = choose|k: int| i <= k < s.len() && s[k] == 0 && newlines(s, k) < i32::MAX;
    lemma_skip_trivia_stops_at_nul(s, i, k);
    let p = skip_trivia(s, i);
    if s[p] != 0 {
        assert(p < k);
        lemma_ends_stop_at_nul(s, p + 1, k);
        let j = digits_end(s, p + 1);
        if 0 <= j && j + 1 < s.len() && s[j] == '.' as u8 && is_digit_byte(s[j + 1]) {
            assert(j + 1 <= k) by {
                if j + 1 > k {
                    assert(j == k);
                }
            }
            lemma_ends_stop_at_nul(s, j + 1, k);
        }
        if s[p] == '"' as u8 {
            let e = quote_end(s, p + 1);
            if s[e] != 0 {
                assert(e < k);
            }
        }
        if (s[p] == '!' as u8 || s[p] == '=' as u8 || s[p] == '<' as u8 || s[p] == '>' as u8)
            && s[p + 1] == '=' as u8 {
            assert(p + 1 < k);
        }
    }
    let en = next_token(s, i).2;
    assert(en <= k);
    assert(i <= en && en <= k && s[k] == 0 && newlines(s, k) < i32::MAX);
}

/// Blanks never start a token: scanning from a space, a tab, a carriage
/// return or a line feed gives the token that scanning from the byte after it
/// gives.
pub proof fn blanks_start_no_token(s: Seq<u8>, i: int)
    requires
        0 <= i,
        terminated(s, i),
        s[i] == 0x20u8 || s[i] == 0x09u8 || s[i] == 0x0du8 || s[i] == 0x0au8,
    ensures
        next_token(s, i) == next_token(s, i + 1),
{
    let k = choose|k: int| i <= k < s.len() && s[k] == 0 && newlines(s, k) < i32::MAX;
    assert(i < k);
    assert(skip_trivia(s, i) == skip_trivia(s, i + 1));
}

/// A `//` comment runs to the end of its line: scanning from it gives the
/// token that scanning from the line feed (or the NUL byte) that ends it gives.
pub proof fn comments_start_no_token(s: Seq<u8>, i: int)
    requires
        0 <= i,
        terminated(s, i),
        s[i] == 0x2fu8,
        s[i + 1] == 0x2fu8,
    ensures
        next_token(s, i) == next_token(s, line_end(s, i + 2)),
{
    let k = choose|k: int| i <= k < s.len() && s[k] == 0 && newlines(s, k) < i32::MAX;
    assert(i + 1 < k);
    lemma_line_end_bounds(s, i + 2);
    assert(skip_trivia(s, i) == skip_trivia(s, line_end(s, i + 2)));
}

/// The digits from `i` on end at a byte that is no digit; every byte before
/// that end, from `j` on, is a digit.
proof fn lemma_digits_end(s: Seq<u8>, i: int, j: int)
    requires
        0 <= i <= j,
    ensures
        i <= digits_end(s, i),
        digits_end(s, i) < s.len() ==> !is_digit_byte(s[digits_end(s, i)]),
        j < digits_end(s, i) ==> j < s.len() && is_digit_byte(s[j]),
    decreases s.len() - i,
{
    if i < s.len() && is_digit_byte(s[i]) && i < j {
        lemma_digits_end(s, i + 1, j);
    } else if i < s.len() && is_digit_byte(s[i]) {
        lemma_digits_end(s, i + 1, j + 1);
    }
}

/// The word bytes from `i` on end at a byte that is no letter, `_` or digit;
/// every byte before that end, from `j` on, is one.
proof fn lemma_word_end(s: Seq<u8>, i: int, j: int)
    requires
        0 <= i <= j,
    ensures
        i <= word_end(s, i),
        word_end(s, i) < s.len() ==> !(is_alpha_byte(s[word_end(s, i)]) || is_digit_byte(
            s[word_end(s, i)],
        )),
        j < word_end(s, i) ==> j < s.len() && (is_alpha_byte(s[j]) || is_digit_byte(s[j])),
    decreases s.len() - i,
{
    if i < s.len() && (is_alpha_byte(s[i]) || is_digit_byte(s[i])) && i < j {
        lemma_word_end(s, i + 1, j);
    } else if i < s.len() && (is_alpha_byte(s[i]) || is_digit_byte(s[i])) {
        lemma_word_end(s, i + 1, j + 1);
    }
}

/// A number token is read whole: it starts and ends with a digit, holds
/// digits and at most one `.`, and the byte after it is no digit, nor a `.`
/// followed by a digit when the number has no fraction yet.
pub proof fn numbers_are_read_whole(s: Seq<u8>, i: int)
    requires
        0 <= i,
        terminated(s, i),
        next_token(s, i).0 == TokenType::Number,
    ensures
        ({
            let (kind, start, end) = next_token(s, i);
            &&& start < end < s.len()
            &&& is_digit_byte(s[start])
            &&& is_digit_byte(s[end - 1])
            &&& !is_digit_byte(s[end])
            &&& forall|j: int| start <= j < end ==> is_digit_byte(#[trigger] s[j]) || s[j] == 0x2eu8
            &&& forall|j: int, m: int|
                #![trigger s[j], s[m]]
                start <= j < m < end && s[j] == 0x2eu8 ==> s[m] != 0x2eu8
            &&& (forall|j: int| start <= j < end ==> #[trigger] s[j] != 0x2eu8) ==> !(s[end]
                == 0x2eu8 && is_digit_byte(s[end + 1]))
        }),
{
    lemma_next_token_facts(s, i);
    let (kind, start, end) = next_token(s, i);
    let p = start;
    lemma_digits_end(s, p + 1, p + 1);
    let d = digits_end(s, p + 1);
    assert forall|m: int| p + 1 <= m < d implies is_digit_byte(#[trigger] s[m]) by {
        lemma_digits_end(s, p + 1, m);
    }
    if 0 <= d && d + 1 < s.len() && s[d] == 0x2eu8 && is_digit_byte(s[d + 1]) {
        lemma_digits_end(s, d + 1, d + 1);
        let e = digits_end(s, d + 1);
        assert(end == e);
        assert forall|m: int| d + 1 <= m < e implies is_digit_byte(#[trigger] s[m]) by {
            lemma_digits_end(s, d + 1, m);
        }
        lemma_digits_end(s, d + 1, e - 1);
        assert(s[d] == 0x2eu8);
    } else {
        assert(end == d);
        if d - 1 > p {
            lemma_digits_end(s, p + 1, d - 1);
        }
    }
}

/// A word is read whole: it starts with a letter or `_`, holds letters, `_`
/// and digits, and the byte after it is none of these; its kind is a keyword
/// or `Identifier`.
pub proof fn words_are_read_whole(s: Seq<u8>, i: int)
    requires
        0 <= i,
        terminated(s, i),
        is_alpha_byte(s[skip_trivia(s, i)]),
    ensures
        ({
            let (kind, start, end) = next_token(s, i);
            &&& start == skip_trivia(s, i)
            &&& start < end < s.len()
            &&& forall|j: int|
                start <= j < end ==> is_alpha_byte(#[trigger] s[j]) || is_digit_byte(s[j])
            &&& !(is_alpha_byte(s[end]) || is_digit_byte(s[end]))
            &&& kind == keyword_type(s.subrange(start, end))
        }),
{
    lemma_next_token_facts(s, i);
    let p = skip_trivia(s, i);
    lemma_word_end(s, p + 1, p + 1);
    assert forall|m: int| p <= m < word_end(s, p + 1) implies is_alpha_byte(#[trigger] s[m])
        || is_digit_byte(s[m]) by {
        if m > p {
            lemma_word_end(s, p + 1, m);
        }
    }
}

/// Once scanning reaches the end, it stays there: scanning from where the
/// `Eof` token stopped yields `Eof` at the same place again.
pub proof fn eof_is_stable(s: Seq<u8>, i: int)
    requires
        0 <= i,
        terminated(s, i),
        next_token(s, i).0 == TokenType::Eof,
    ensures
        next_token(s, next_token(s, i).2) == next_token(s, i),
{
    let p = next_token(s, i).2;
    assert(skip_trivia(s, p) == p);
}

// ---------------------------------------------------------------------------
// The scanner
// ---------------------------------------------------------------------------

/// Scans a source that holds a NUL byte, which ends the scanned text.
pub struct Scanner<'a> {
    pub start: usize,
    pub current: usize,
    pub line: i32,
    pub source: &'a [u8],
}

fn is_digit(c: u8) -> (r: bool)
    ensures
        r == is_digit_byte(c),
{
    c >= '0' as u8 && c <= '9' as u8
}

fn is_alpha(c: u8) -> (r: bool)
    ensures
        r == is_alpha_byte(c),
{
    (c >= 'a' as u8 && c <= 'z' as u8) || (c >= 'A' as u8 && c <= 'Z' as u8) || c == '_' as u8
}

impl<'a> Scanner<'a> {
    /// The scanner's state is consistent: it stands inside the terminated
    /// text, and `line` counts the line feeds it has passed.
    pub open spec fn wf(&self) -> bool {
        &&& self.start <= self.current
        &&& self.source@.len() <= usize::MAX
        &&& terminated(self.source@, self.current as int)
        &&& self.line == 1 + newlines(self.source@, self.current as int)
    }

    /// A scanner at the start of `source`. It can scan (`wf`) when the source
    /// holds a NUL byte with fewer than `i32::MAX` line feeds before it.
    pub fn new(source: &'a str) -> (sc: Scanner<'a>)
        ensures
            sc.source@ == source.spec_bytes(),
            sc.start == 0,
            sc.current == 0,
            sc.line == 1,
            sc.wf() <==> terminated(source.spec_bytes(), 0),
    {
        let bytes: &'a [u8] = source.as_bytes();
        proof {
            assert(bytes@.len() == bytes.len());
        }
        Scanner { start: 0, current: 0, line: 1, source: bytes }
    }

    /// Scans the next token. At the end of the text it yields `Eof`, again on
    /// every further call.
    pub fn scan_token(&mut self) -> (tok: Token<'a>)
        requires
            old(self).wf(),
        ensures
            final(self).wf(),
            final(self).source == old(self).source,
            final(self).current >= old(self).current,
            tok.token_type != TokenType::Eof ==> final(self).current > old(self).current,
            tok.length <= tok.start@.len(),
            tok.token_type == TokenType::String ==> tok.length >= 2,
            ({
                let s = old(self).source@;
                let (kind, start, end) = next_token(s, old(self).current as int);
                &&& final(self).start == start
                &&& final(self).current == end
                &&& tok.token_type == kind
                &&& tok.line == final(self).line
                &&& kind != TokenType::Error ==> {
                    &&& tok.start@ == s.subrange(start, s.len() as int)
                    &&& tok.length == end - start
                }
                &&& kind == TokenType::Error ==> {
                    &&& tok.start@ == scan_error_message(s, start).spec_bytes()
                    &&& tok.length == tok.start@.len()
                }
            }),
    {
        self.skip_whitespace();
        self.start = self.current;
        if self.is_at_end() {
            return Token::make_token(self, TokenType::Eof);
        }
        let c = self.advance();
        if is_digit(c) {
            return self.number();
        }
        if is_alpha(c) {
            return self.identifier();
        }
        if c == '"' as u8 {
            return self.string();
        }
        if c == '!' as u8 || c == '=' as u8 || c == '<' as u8 || c == '>' as u8 {
            let two = self.match_char('=' as u8);
            let token_type = if c == '!' as u8 {
                if two { TokenType::BangEqual } else { TokenType::Bang }
            } else if c == '=' as u8 {
                if two { TokenType::EqualEqual } else { TokenType::Equal }
            } else if c == '<' as u8 {
                if two { TokenType::LessEqual } else { TokenType::Less }
            } else {
                if two { TokenType::GreaterEqual } else { TokenType::Greater }
            };
            return Token::make_token(self, token_type);
        }
        let single = if c == '(' as u8 {
            TokenType::LeftParen
        } else if c == ')' as u8 {
            TokenType::RightParen
        } else if c == '{' as u8 {
            TokenType::LeftBrace
        } else if c == '}' as u8 {
            TokenType::RightBrace
        } else if c == ',' as u8 {
            TokenType::Comma
        } else if c == '.' as u8 {
            TokenType::Dot
        } else if c == '-' as u8 {
            TokenType::Minus
        } else if c == '+' as u8 {
            TokenType::Plus
        } else if c == '/' as u8 {
            TokenType::Slash
        } else if c == '*' as u8 {
            TokenType::Star
        } else if c == ';' as u8 {
            TokenType::Semicolon
        } else {
            TokenType::Error
        };
        if single == TokenType::Error {
            Token::error("Unexpected character.", self.line)
        } else {
            Token::make_token(self, single)
        }
    }

    fn is_at_end(&self) -> (r: bool)
        requires
            self.current < self.source@.len(),
        ensures
            r == (self.source@[self.current as int] == 0),
    {
        self.source[self.current] == 0
    }

    fn advance(&mut self) -> (c: u8)
        requires
            old(self).wf(),
            old(self).source@[old(self).current as int] != 0,
            old(self).source@[old(self).current as int] != '\n' as u8,
        ensures
            final(self).wf(),
            final(self).current == old(self).current + 1,
            final(self).start == old(self).start,
            final(self).line == old(self).line,
            final(self).source == old(self).source,
            c == old(self).source@[old(self).current as int],
    {
        proof {
            lemma_step(self.source@, self.current as int);
        }
        self.current += 1;
        self.source[self.current - 1]
    }

    /// Steps over a line feed, counting the line.
    fn advance_line(&mut self)
        requires
            old(self).wf(),
            old(self).source@[old(self).current as int] == '\n' as u8,
        ensures
            final(self).wf(),
            final(self).current == old(self).current + 1,
            final(self).start == old(self).start,
            final(self).line == old(self).line + 1,
            final(self).source == old(self).source,
    {
        proof {
            lemma_step(self.source@, self.current as int);
        }
        self.line += 1;
        self.current += 1;
    }

    fn peek_next(&self) -> (c: u8)
        requires
            self.wf(),
        ensures
            c == if self.source@[self.current as int] == 0 {
                0
            } else {
                self.source@[self.current + 1]
            },
    {
        if self.is_at_end() {
            0
        } else {
            proof {
                lemma_step(self.source@, self.current as int);
            }
            self.source[self.current + 1]
        }
    }

    fn peek(&self) -> (c: u8)
        requires
            self.wf(),
        ensures
            c == self.source@[self.current as int],
    {
        self.source[self.current]
    }

    fn match_char(&mut self, expected: u8) -> (r: bool)
        requires
            old(self).wf(),
            expected != '\n' as u8,
        ensures
            final(self).wf(),
            final(self).source == old(self).source,
            final(self).start == old(self).start,
            final(self).line == old(self).line,
            r == (old(self).source@[old(self).current as int] != 0 && old(
                self,
            ).source@[old(self).current as int] == expected),
            final(self).current == old(self).current + if r { 1int } else { 0int },
    {
        if self.is_at_end() {
            false
        } else if self.source[self.current] != expected {
            false
        } else {
            self.advance();
            true
        }
    }

    fn skip_whitespace(&mut self)
        requires
            old(self).wf(),
        ensures
            final(self).wf(),
            final(self).source == old(self).source,
            final(self).start == old(self).start,
            final(self).current == skip_trivia(old(self).source@, old(self).current as int),
            !is_space_byte(old(self).source@[final(self).current as int]),
            final(self).current >= old(self).current,
    {
        let ghost s = self.source@;
        let ghost target = skip_trivia(s, self.current as int);
        loop
            invariant
                self.wf(),
                self.source@ == s,
                self.source == old(self).source,
                self.start == old(self).start,
                skip_trivia(s, self.current as int) == target,
                s == old(self).source@,
                target == skip_trivia(old(self).source@, old(self).current as int),
                self.current >= old(self).current,
            decreases s.len() - self.current,
        {
            proof {
                lemma_terminated_in_range(s, self.current as int);
                if s[self.current as int] != 0 {
                    lemma_step(s, self.current as int);
                }
            }
            let c = self.peek();
            if c == ' ' as u8 || c == '\t' as u8 || c == '\r' as u8 {
                self.advance();
            } else if c == '\n' as u8 {
                proof {
                    lemma_step(s, self.current as int);
                }
                self.advance_line();
            } else if c == '/' as u8 {
                if self.peek_next() == '/' as u8 {
                    proof {
                        lemma_step(s, self.current as int);
                        let i = self.current as int;
                        assert(line_end(s, i) == line_end(s, i + 1));
                        assert(line_end(s, i + 1) == line_end(s, i + 2));
                    }
                    let ghost comment_start = self.current;
                    while self.peek() != '\n' as u8 && !self.is_at_end()
                        invariant
                            self.wf(),
                            self.source@ == s,
                            self.source == old(self).source,
                            self.start == old(self).start,
                            comment_start <= self.current,
                            line_end(s, self.current as int) == line_end(s, comment_start + 2),
                            skip_trivia(s, comment_start as int) == target,
                            comment_start >= old(self).current,
                        decreases s.len() - self.current,
                    {
                        self.advance();
                    }
                    proof {
                        lemma_step(s, comment_start as int);
                        assert(skip_trivia(s, comment_start as int) == skip_trivia(
                            s,
                            line_end(s, comment_start + 2),
                        ));
                    }
                } else {
                    proof {
                        assert(skip_trivia(s, self.current as int) == self.current);
                    }
                    return;
                }
            } else {
                proof {
                    assert(skip_trivia(s, self.current as int) == self.current);
                }
                return;
            }
        }
    }

    fn string(&mut self) -> (tok: Token<'a>)
        requires
            old(self).wf(),
            old(self).current == old(self).start + 1,
            old(self).source@[old(self).start as int] == '"' as u8,
        ensures
            tok.token_type == TokenType::String ==> tok.length >= 2,
            final(self).current >= old(self).current,
            final(self).wf(),
            final(self).source == old(self).source,
            final(self).start == old(self).start,
            ({
                let s = old(self).source@;
                let e = quote_end(s, old(self).current as int);
                &&& s[e] == 0 ==> {
                    &&& final(self).current == e
                    &&& tok.token_type == TokenType::Error
                    &&& tok.start@ == "Unterminated string.".spec_bytes()
                    &&& tok.length == tok.start@.len()
                }
                &&& s[e] != 0 ==> {
                    &&& final(self).current == e + 1
                    &&& tok.token_type == TokenType::String
                    &&& tok.start@ == s.subrange(old(self).start as int, s.len() as int)
                    &&& tok.length == e + 1 - old(self).start
                }
                &&& tok.line == final(self).line
            }),
    {
        let ghost s = self.source@;
        let ghost e = quote_end(s, self.current as int);
        while self.peek() != '"' as u8 && !self.is_at_end()
            invariant
                self.wf(),
                self.source@ == s,
                self.source == old(self).source,
                self.start == old(self).start,
                old(self).current <= self.current,
                quote_end(s, self.current as int) == e,
            decreases s.len() - self.current,
        {
            if self.peek() == '\n' as u8 {
                self.advance_line();
            } else {
                self.advance();
            }
        }
        if self.is_at_end() {
            Token::error("Unterminated string.", self.line)
        } else {
            self.advance();
            Token::make_token(self, TokenType::String)
        }
    }

    fn number(&mut self) -> (tok: Token<'a>)
        requires
            old(self).wf(),
            old(self).current == old(self).start + 1,
        ensures
            final(self).current >= old(self).current,
            final(self).wf(),
            final(self).source == old(self).source,
            final(self).start == old(self).start,
            final(self).current == number_end(old(self).source@, old(self).current as int),
            tok.token_type == TokenType::Number,
            tok.start@ == old(self).source@.subrange(
                old(self).start as int,
                old(self).source@.len() as int,
            ),
            tok.length == final(self).current - old(self).start,
            tok.line == final(self).line,
    {
        let ghost s = self.source@;
        let ghost j = digits_end(s, self.current as int);
        while is_digit(self.peek())
            invariant
                self.wf(),
                self.source@ == s,
                self.source == old(self).source,
                self.start == old(self).start,
                old(self).current <= self.current,
                digits_end(s, self.current as int) == j,
            decreases s.len() - self.current,
        {
            self.advance();
        }
        if self.peek() == '.' as u8 && is_digit(self.peek_next()) {
            self.advance();
            let ghost k = digits_end(s, self.current as int);
            while is_digit(self.peek())
                invariant
                    self.wf(),
                    self.source@ == s,
                    self.source == old(self).source,
                    self.start == old(self).start,
                    old(self).current <= self.current,
                    digits_end(s, self.current as int) == k,
                decreases s.len() - self.current,
            {
                self.advance();
            }
        }
        Token::make_token(self, TokenType::Number)
    }

    fn identifier(&mut self) -> (tok: Token<'a>)
        requires
            old(self).wf(),
            old(self).current == old(self).start + 1,
            is_alpha_byte(old(self).source@[old(self).start as int]),
        ensures
            final(self).current >= old(self).current,
            final(self).wf(),
            final(self).source == old(self).source,
            final(self).start == old(self).start,
            final(self).current == word_end(old(self).source@, old(self).current as int),
            tok.token_type == keyword_type(
                old(self).source@.subrange(old(self).start as int, final(self).current as int),
            ),
            tok.start@ == old(self).source@.subrange(
                old(self).start as int,
                old(self).source@.len() as int,
            ),
            tok.length == final(self).current - old(self).start,
            tok.line == final(self).line,
    {
        let ghost s = self.source@;
        let ghost j = word_end(s, self.current as int);
        while is_alpha(self.peek()) || is_digit(self.peek())
            invariant
                self.wf(),
                self.source@ == s,
                self.source == old(self).source,
                self.start == old(self).start,
                old(self).current <= self.current,
                word_end(s, self.current as int) == j,
            decreases s.len() - self.current,
        {
            self.advance();
        }
        let token_type = self.identifier_type();
        Token::make_token(self, token_type)
    }

    fn identifier_type(&self) -> (t: TokenType)
        requires
            self.wf(),
            self.start < self.current,
        ensures
            t == keyword_type(self.source@.subrange(self.start as int, self.current as int)),
    {
        let ghost w = self.source@.subrange(self.start as int, self.current as int);
        proof {
            lemma_keyword_by_initials(w);
            assert(w[0] == self.source@[self.start as int]);
            if w.len() > 1 {
                assert(w[1] == self.source@[self.start + 1]);
            }
        }
        let c = self.source[self.start];
        if c == 'a' as u8 {
            {
                let rest: &[u8] = &['n' as u8, 'd' as u8];
                proof {
                    assert(rest@ =~= seq!['n' as u8, 'd' as u8]);
                }
                let t = self.check_keyword(TokenType::And, 1, 2, rest);
                proof {
                    let kw = seq!['a' as u8, 'n' as u8, 'd' as u8];
                    assert(self.source@.subrange(self.start as int, self.start + 1) =~= kw.subrange(0, 1));
                    lemma_keyword_rest(self.source@, self.start as int, self.current as int, 1, kw);
                    assert(kw.subrange(1, 3) =~= seq!['n' as u8, 'd' as u8]);
                }
                t
            }
        } else if c == 'c' as u8 {
            {
                let rest: &[u8] = &['l' as u8, 'a' as u8, 's' as u8, 's' as u8];
                proof {
                    assert(rest@ =~= seq!['l' as u8, 'a' as u8, 's' as u8, 's' as u8]);
                }
                let t = self.check_keyword(TokenType::Class, 1, 4, rest);
                proof {
                    let kw = seq!['c' as u8, 'l' as u8, 'a' as u8, 's' as u8, 's' as u8];
                    assert(self.source@.subrange(self.start as int, self.start + 1) =~= kw.subrange(0, 1));
                    lemma_keyword_rest(self.source@, self.start as int, self.current as int, 1, kw);
                    assert(kw.subrange(1, 5) =~= seq!['l' as u8, 'a' as u8, 's' as u8, 's' as u8]);
                }
                t
            }
        } else if c == 'e' as u8 {
            {
                let rest: &[u8] = &['l' as u8, 's' as u8, 'e' as u8];
                proof {
                    assert(rest@ =~= seq!['l' as u8, 's' as u8, 'e' as u8]);
                }
                let t = self.check_keyword(TokenType::Else, 1, 3, rest);
                proof {
                    let kw = seq!['e' as u8, 'l' as u8, 's' as u8, 'e' as u8];
                    assert(self.source@.subrange(self.start as int, self.start + 1) =~= kw.subrange(0, 1));
                    lemma_keyword_rest(self.source@, self.start as int, self.current as int, 1, kw);
                    assert(kw.subrange(1, 4) =~= seq!['l' as u8, 's' as u8, 'e' as u8]);
                }
                t
            }
        } else if c == 'f' as u8 {
            if self.current - self.start > 1 {
                let c2 = self.source[self.start + 1];
                if c2 == 'a' as u8 {
                    {
                let rest: &[u8] = &['l' as u8, 's' as u8, 'e' as u8];
                proof {
                    assert(rest@ =~= seq!['l' as u8, 's' as u8, 'e' as u8]);
                }
                let t = self.check_keyword(TokenType::False, 2, 3, rest);
                proof {
                    let kw = seq!['f' as u8, 'a' as u8, 'l' as u8, 's' as u8, 'e' as u8];
                    assert(self.source@.subrange(self.start as int, self.start + 2) =~= kw.subrange(0, 2));
                    lemma_keyword_rest(self.source@, self.start as int, self.current as int, 2, kw);
                    assert(kw.subrange(2, 5) =~= seq!['l' as u8, 's' as u8, 'e' as u8]);
                }
                t
            }
                } else if c2 == 'o' as u8 {
                    {
                let rest: &[u8] = &['r' as u8];
                proof {
                    assert(rest@ =~= seq!['r' as u8]);
                }
                let t = self.check_keyword(TokenType::For, 2, 1, rest);
                proof {
                    let kw = seq!['f' as u8, 'o' as u8, 'r' as u8];
                    assert(self.source@.subrange(self.start as int, self.start + 2) =~= kw.subrange(0, 2));
                    lemma_keyword_rest(self.source@, self.start as int, self.current as int, 2, kw);
                    assert(kw.subrange(2, 3) =~= seq!['r' as u8]);
                }
                t
            }
                } else if c2 == 'u' as u8 {
                    {
                let rest: &[u8] = &['n' as u8];
                proof {
                    assert(rest@ =~= seq!['n' as u8]);
                }
                let t = self.check_keyword(TokenType::Fun, 2, 1, rest);
                proof {
                    let kw = seq!['f' as u8, 'u' as u8, 'n' as u8];
                    assert(self.source@.subrange(self.start as int, self.start + 2) =~= kw.subrange(0, 2));
                    lemma_keyword_rest(self.source@, self.start as int, self.current as int, 2, kw);
                    assert(kw.subrange(2, 3) =~= seq!['n' as u8]);
                }
                t
            }
                } else {
                    TokenType::Identifier
                }
            } else {
                TokenType::Identifier
            }
        } else if c == 'i' as u8 {
            {
                let rest: &[u8] = &['f' as u8];
                proof {
                    assert(rest@ =~= seq!['f' as u8]);
                }
                let t = self.check_keyword(TokenType::If, 1, 1, rest);
                proof {
                    let kw = seq!['i' as u8, 'f' as u8];
                    assert(self.source@.subrange(self.start as int, self.start + 1) =~= kw.subrange(0, 1));
                    lemma_keyword_rest(self.source@, self.start as int, self.current as int, 1, kw);
                    assert(kw.subrange(1, 2) =~= seq!['f' as u8]);
                }
                t
            }
        } else if c == 'n' as u8 {
            {
                let rest: &[u8] = &['i' as u8, 'l' as u8];
                proof {
                    assert(rest@ =~= seq!['i' as u8, 'l' as u8]);
                }
                let t = self.check_keyword(TokenType::Nil, 1, 2, rest);
                proof {
                    let kw = seq!['n' as u8, 'i' as u8, 'l' as u8];
                    assert(self.source@.subrange(self.start as int, self.start + 1) =~= kw.subrange(0, 1));
                    lemma_keyword_rest(self.source@, self.start as int, self.current as int, 1, kw);
                    assert(kw.subrange(1, 3) =~= seq!['i' as u8, 'l' as u8]);
                }
                t
            }
        } else if c == 'o' as u8 {
            {
                let rest: &[u8] = &['r' as u8];
                proof {
                    assert(rest@ =~= seq!['r' as u8]);
                }
                let t = self.check_keyword(TokenType::Or, 1, 1, rest);
                proof {
                    let kw = seq!['o' as u8, 'r' as u8];
                    assert(self.source@.subrange(self.start as int, self.start + 1) =~= kw.subrange(0, 1));
                    lemma_keyword_rest(self.source@, self.start as int, self.current as int, 1, kw);
                    assert(kw.subrange(1, 2) =~= seq!['r' as u8]);
                }
                t
            }
        } else if c == 'p' as u8 {
            {
                let rest: &[u8] = &['r' as u8, 'i' as u8, 'n' as u8, 't' as u8];
                proof {
                    assert(rest@ =~= seq!['r' as u8, 'i' as u8, 'n' as u8, 't' as u8]);
                }
                let t = self.check_keyword(TokenType::Print, 1, 4, rest);
                proof {
                    let kw = seq!['p' as u8, 'r' as u8, 'i' as u8, 'n' as u8, 't' as u8];
                    assert(self.source@.subrange(self.start as int, self.start + 1) =~= kw.subrange(0, 1));
                    lemma_keyword_rest(self.source@, self.start as int, self.current as int, 1, kw);
                    assert(kw.subrange(1, 5) =~= seq!['r' as u8, 'i' as u8, 'n' as u8, 't' as u8]);
                }
                t
            }
        } else if c == 'r' as u8 {
            {
                let rest: &[u8] = &['e' as u8, 't' as u8, 'u' as u8, 'r' as u8, 'n' as u8];
                proof {
                    assert(rest@ =~= seq!['e' as u8, 't' as u8, 'u' as u8, 'r' as u8, 'n' as u8]);
                }
                let t = self.check_keyword(TokenType::Return, 1, 5, rest);
                proof {
                    let kw = seq!['r' as u8, 'e' as u8, 't' as u8, 'u' as u8, 'r' as u8, 'n' as u8];
                    assert(self.source@.subrange(self.start as int, self.start + 1) =~= kw.subrange(0, 1));
                    lemma_keyword_rest(self.source@, self.start as int, self.current as int, 1, kw);
                    assert(kw.subrange(1, 6) =~= seq!['e' as u8, 't' as u8, 'u' as u8, 'r' as u8, 'n' as u8]);
                }
                t
            }
        } else if c == 's' as u8 {
            {
                let rest: &[u8] = &['u' as u8, 'p' as u8, 'e' as u8, 'r' as u8];
                proof {
                    assert(rest@ =~= seq!['u' as u8, 'p' as u8, 'e' as u8, 'r' as u8]);
                }
                let t = self.check_keyword(TokenType::Super, 1, 4, rest);
                proof {
                    let kw = seq!['s' as u8, 'u' as u8, 'p' as u8, 'e' as u8, 'r' as u8];
                    assert(self.source@.subrange(self.start as int, self.start + 1) =~= kw.subrange(0, 1));
                    lemma_keyword_rest(self.source@, self.start as int, self.current as int, 1, kw);
                    assert(kw.subrange(1, 5) =~= seq!['u' as u8, 'p' as u8, 'e' as u8, 'r' as u8]);
                }
                t
            }
        } else if c == 't' as u8 {
            if self.current - self.start > 1 {
                let c2 = self.source[self.start + 1];
                if c2 == 'h' as u8 {
                    {
                let rest: &[u8] = &['i' as u8, 's' as u8];
                proof {
                    assert(rest@ =~= seq!['i' as u8, 's' as u8]);
                }
                let t = self.check_keyword(TokenType::This, 2, 2, rest);
                proof {
                    let kw = seq!['t' as u8, 'h' as u8, 'i' as u8, 's' as u8];
                    assert(self.source@.subrange(self.start as int, self.start + 2) =~= kw.subrange(0, 2));
                    lemma_keyword_rest(self.source@, self.start as int, self.current as int, 2, kw);
                    assert(kw.subrange(2, 4) =~= seq!['i' as u8, 's' as u8]);
                }
                t
            }
                } else if c2 == 'r' as u8 {
                    {
                let rest: &[u8] = &['u' as u8, 'e' as u8];
                proof {
                    assert(rest@ =~= seq!['u' as u8, 'e' as u8]);
                }
                let t = self.check_keyword(TokenType::True, 2, 2, rest);
                proof {
                    let kw = seq!['t' as u8, 'r' as u8, 'u' as u8, 'e' as u8];
                    assert(self.source@.subrange(self.start as int, self.start + 2) =~= kw.subrange(0, 2));
                    lemma_keyword_rest(self.source@, self.start as int, self.current as int, 2, kw);
                    assert(kw.subrange(2, 4) =~= seq!['u' as u8, 'e' as u8]);
                }
                t
            }
                } else {
                    TokenType::Identifier
                }
            } else {
                TokenType::Identifier
            }
        } else if c == 'v' as u8 {
            {
                let rest: &[u8] = &['a' as u8, 'r' as u8];
                proof {
                    assert(rest@ =~= seq!['a' as u8, 'r' as u8]);
                }
                let t = self.check_keyword(TokenType::Var, 1, 2, rest);
                proof {
                    let kw = seq!['v' as u8, 'a' as u8, 'r' as u8];
                    assert(self.source@.subrange(self.start as int, self.start + 1) =~= kw.subrange(0, 1));
                    lemma_keyword_rest(self.source@, self.start as int, self.current as int, 1, kw);
                    assert(kw.subrange(1, 3) =~= seq!['a' as u8, 'r' as u8]);
                }
                t
            }
        } else if c == 'w' as u8 {
            {
                let rest: &[u8] = &['h' as u8, 'i' as u8, 'l' as u8, 'e' as u8];
                proof {
                    assert(rest@ =~= seq!['h' as u8, 'i' as u8, 'l' as u8, 'e' as u8]);
                }
                let t = self.check_keyword(TokenType::While, 1, 4, rest);
                proof {
                    let kw = seq!['w' as u8, 'h' as u8, 'i' as u8, 'l' as u8, 'e' as u8];
                    assert(self.source@.subrange(self.start as int, self.start + 1) =~= kw.subrange(0, 1));
                    lemma_keyword_rest(self.source@, self.start as int, self.current as int, 1, kw);
                    assert(kw.subrange(1, 5) =~= seq!['h' as u8, 'i' as u8, 'l' as u8, 'e' as u8]);
                }
                t
            }
        } else {
            TokenType::Identifier
        }
    }

    fn check_keyword(&self, token_type: TokenType, start: usize, length: usize, rest: &[u8]) -> (t:
        TokenType)
        requires
            self.wf(),
            self.start < self.current,
            rest@.len() == length,
            start + length < usize::MAX,
        ensures
            t == if self.current - self.start == start + length && self.source@.subrange(
                self.start + start,
                self.start + start + length,
            ) == rest@ {
                token_type
            } else {
                TokenType::Identifier
            },
    {
        if self.current - self.start != start + length {
            return TokenType::Identifier;
        }
        let base = self.start + start;
        let mut i: usize = 0;
        while i < length
            invariant
                self.wf(),
                rest@.len() == length,
                base == self.start + start,
                base + length == self.current,
                i <= length,
                forall|k: int| 0 <= k < i ==> self.source@[base + k] == rest@[k],
            decreases length - i,
        {
            if self.source[base + i] != rest[i] {
                proof {
                    assert(self.source@.subrange(base as int, base + length)[i as int]
                        != rest@[i as int]);
                }
                return TokenType::Identifier;
            }
            i += 1;
        }
        proof {
            assert(self.source@.subrange(base as int, base + length) =~= rest@);
        }
        token_type
    }
}

} // verus!
