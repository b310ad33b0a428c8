use rlox::compiler::scanner::Scanner;
use rlox::compiler::token::{infix_binding_power, prefix_binding_power, Token, TokenType};

fn text<'a>(t: &Token<'a>) -> &'a [u8] {
    &t.start[..t.length]
}

fn scan_all(source: &str) -> Vec<(TokenType, Vec<u8>, i32)> {
    let mut sc = Scanner::new(source);
    let mut out = Vec::new();
    loop {
        let t = sc.scan_token();
        out.push((t.token_type, text(&t).to_vec(), t.line));
        if t.token_type == TokenType::Eof {
            return out;
        }
    }
}

#[test]
fn scans_a_declaration() {
    let toks = scan_all("var x = 1.5;\0");
    let kinds: Vec<TokenType> = toks.iter().map(|t| t.0).collect();
    assert_eq!(
        kinds,
        vec![
            TokenType::Var,
            TokenType::Identifier,
            TokenType::Equal,
            TokenType::Number,
            TokenType::Semicolon,
            TokenType::Eof
        ]
    );
    assert_eq!(toks[1].1, b"x".to_vec());
    assert_eq!(toks[3].1, b"1.5".to_vec());
    assert_eq!(toks[5].1, Vec::<u8>::new());
}

#[test]
fn scans_every_keyword() {
    let toks = scan_all(
        "and class else false for fun if nil or print return super this true var while\0",
    );
    let kinds: Vec<TokenType> = toks.iter().map(|t| t.0).collect();
    assert_eq!(
        kinds,
        vec![
            TokenType::And,
            TokenType::Class,
            TokenType::Else,
            TokenType::False,
            TokenType::For,
            TokenType::Fun,
            TokenType::If,
            TokenType::Nil,
            TokenType::Or,
            TokenType::Print,
            TokenType::Return,
            TokenType::Super,
            TokenType::This,
            TokenType::True,
            TokenType::Var,
            TokenType::While,
            TokenType::Eof
        ]
    );
}

#[test]
fn near_keywords_are_identifiers() {
    for word in ["fo", "forx", "t", "th", "tr", "f", "an", "classy", "whilee", "_and", "Var", "x1"] {
        let src = format!("{}\0", word);
        let toks = scan_all(&src);
        assert_eq!(toks[0].0, TokenType::Identifier, "{}", word);
        assert_eq!(toks[0].1, word.as_bytes().to_vec());
    }
}

#[test]
fn scans_operators_of_one_and_two_bytes() {
    let toks = scan_all("(){},.-+;/* ! != = == < <= > >=\0");
    let kinds: Vec<TokenType> = toks.iter().map(|t| t.0).collect();
    assert_eq!(
        kinds,
        vec![
            TokenType::LeftParen,
            TokenType::RightParen,
            TokenType::LeftBrace,
            TokenType::RightBrace,
            TokenType::Comma,
            TokenType::Dot,
            TokenType::Minus,
            TokenType::Plus,
            TokenType::Semicolon,
            TokenType::Slash,
            TokenType::Star,
            TokenType::Bang,
            TokenType::BangEqual,
            TokenType::Equal,
            TokenType::EqualEqual,
            TokenType::Less,
            TokenType::LessEqual,
            TokenType::Greater,
            TokenType::GreaterEqual,
            TokenType::Eof
        ]
    );
}

#[test]
fn counts_lines_across_comments_and_strings() {
    let toks = scan_all("// note\nprint \"a\nb\";\n  x\0");
    assert_eq!(toks[0].0, TokenType::Print);
    assert_eq!(toks[0].2, 2);
    assert_eq!(toks[1].0, TokenType::String);
    assert_eq!(toks[1].1, b"\"a\nb\"".to_vec());
    assert_eq!(toks[1].2, 3);
    assert_eq!(toks[2].0, TokenType::Semicolon);
    assert_eq!(toks[3].0, TokenType::Identifier);
    assert_eq!(toks[3].2, 4);
    assert_eq!(toks[4].0, TokenType::Eof);
}

#[test]
fn number_needs_a_digit_after_the_dot() {
    let toks = scan_all("12.\0");
    assert_eq!(toks[0].0, TokenType::Number);
    assert_eq!(toks[0].1, b"12".to_vec());
    assert_eq!(toks[1].0, TokenType::Dot);
    let toks = scan_all("3.25.5\0");
    assert_eq!(toks[0].1, b"3.25".to_vec());
    assert_eq!(toks[1].0, TokenType::Dot);
    assert_eq!(toks[2].1, b"5".to_vec());
}

#[test]
fn reports_an_unexpected_character() {
    let toks = scan_all("@ 1\0");
    assert_eq!(toks[0].0, TokenType::Error);
    assert_eq!(toks[0].1, b"Unexpected character.".to_vec());
    assert_eq!(toks[1].0, TokenType::Number);
}

#[test]
fn reports_an_unterminated_string() {
    let toks = scan_all("\"abc\ndef\0");
    assert_eq!(toks[0].0, TokenType::Error);
    assert_eq!(toks[0].1, b"Unterminated string.".to_vec());
    assert_eq!(toks[0].2, 2);
    assert_eq!(toks[1].0, TokenType::Eof);
}

#[test]
fn eof_repeats_at_the_end() {
    let mut sc = Scanner::new("  \0");
    let a = sc.scan_token();
    let pos = sc.current;
    let b = sc.scan_token();
    assert_eq!(a.token_type, TokenType::Eof);
    assert_eq!(b.token_type, TokenType::Eof);
    assert_eq!(sc.current, pos);
}

#[test]
fn scanning_stops_at_the_first_nul() {
    let toks = scan_all("1\0 2\0");
    assert_eq!(toks.len(), 2);
    assert_eq!(toks[1].0, TokenType::Eof);
}

#[test]
fn error_and_default_tokens() {
    let e = Token::error("boom", 7);
    assert_eq!(e.token_type, TokenType::Error);
    assert_eq!(e.start, b"boom");
    assert_eq!(e.length, 4);
    assert_eq!(e.line, 7);
    let d = Token::default();
    assert_eq!(d.token_type, TokenType::Eof);
    assert_eq!(d.length, 0);
    assert_eq!(d.line, 0);
}

#[test]
fn binding_powers() {
    assert_eq!(infix_binding_power(TokenType::EqualEqual), (4, 5));
    assert_eq!(infix_binding_power(TokenType::BangEqual), (4, 5));
    assert_eq!(infix_binding_power(TokenType::Less), (5, 6));
    assert_eq!(infix_binding_power(TokenType::GreaterEqual), (5, 6));
    assert_eq!(infix_binding_power(TokenType::Plus), (6, 7));
    assert_eq!(infix_binding_power(TokenType::Minus), (6, 7));
    assert_eq!(infix_binding_power(TokenType::Star), (7, 8));
    assert_eq!(infix_binding_power(TokenType::Slash), (7, 8));
    assert_eq!(infix_binding_power(TokenType::Bang), (0, 0));
    assert_eq!(infix_binding_power(TokenType::Eof), (0, 0));
    assert_eq!(prefix_binding_power(TokenType::Minus), 8);
    assert_eq!(prefix_binding_power(TokenType::Bang), 8);
    assert_eq!(prefix_binding_power(TokenType::Plus), 0);
}
