use expect_test::{Expect, Position};
use tip_syntax::{is_whitespace, tokenize, Cursor, SyntaxKind, TipLanguage, TokenKind};

fn check_lexing(input: &str, expect: Expect) {
    let actual: String = tokenize(input)
        .iter()
        .map(|token| format!("{:?}\n", token))
        .collect();
    expect.assert_eq(&actual)
}

fn kinds(input: &str) -> Vec<TokenKind> {
    tokenize(input).iter().map(|t| t.kind).collect()
}

#[test]
fn smoke_test() {
    check_lexing(
        "iterate(n) {
    var f;
    f = 1;
    while (n > 0) {
        f = f * n;
        n = n - 1;
    }
    return f;",
        Expect {
            position: Position {
                file: "tests/lexer.rs",
                line: 26,
                column: 9,
            },
            data: r#"
            Token { kind: Ident, len: 7 }
            Token { kind: OpenParen, len: 1 }
            Token { kind: Ident, len: 1 }
            Token { kind: CloseParen, len: 1 }
            Token { kind: Whitespace, len: 1 }
            Token { kind: OpenBrace, len: 1 }
            Token { kind: Whitespace, len: 5 }
            Token { kind: Var, len: 3 }
            Token { kind: Whitespace, len: 1 }
            Token { kind: Ident, len: 1 }
            Token { kind: Semi, len: 1 }
            Token { kind: Whitespace, len: 5 }
            Token { kind: Ident, len: 1 }
            Token { kind: Whitespace, len: 1 }
            Token { kind: Eq, len: 1 }
            Token { kind: Whitespace, len: 1 }
            Token { kind: Int, len: 1 }
            Token { kind: Semi, len: 1 }
            Token { kind: Whitespace, len: 5 }
            Token { kind: While, len: 5 }
            Token { kind: Whitespace, len: 1 }
            Token { kind: OpenParen, len: 1 }
            Token { kind: Ident, len: 1 }
            Token { kind: Whitespace, len: 1 }
            Token { kind: Gt, len: 1 }
            Token { kind: Whitespace, len: 1 }
            Token { kind: Int, len: 1 }
            Token { kind: CloseParen, len: 1 }
            Token { kind: Whitespace, len: 1 }
            Token { kind: OpenBrace, len: 1 }
            Token { kind: Whitespace, len: 9 }
            Token { kind: Ident, len: 1 }
            Token { kind: Whitespace, len: 1 }
            Token { kind: Eq, len: 1 }
            Token { kind: Whitespace, len: 1 }
            Token { kind: Ident, len: 1 }
            Token { kind: Whitespace, len: 1 }
            Token { kind: Star, len: 1 }
            Token { kind: Whitespace, len: 1 }
            Token { kind: Ident, len: 1 }
            Token { kind: Semi, len: 1 }
            Token { kind: Whitespace, len: 9 }
            Token { kind: Ident, len: 1 }
            Token { kind: Whitespace, len: 1 }
            Token { kind: Eq, len: 1 }
            Token { kind: Whitespace, len: 1 }
            Token { kind: Ident, len: 1 }
            Token { kind: Whitespace, len: 1 }
            Token { kind: Minus, len: 1 }
            Token { kind: Whitespace, len: 1 }
            Token { kind: Int, len: 1 }
            Token { kind: Semi, len: 1 }
            Token { kind: Whitespace, len: 5 }
            Token { kind: CloseBrace, len: 1 }
            Token { kind: Whitespace, len: 5 }
            Token { kind: Return, len: 6 }
            Token { kind: Whitespace, len: 1 }
            Token { kind: Ident, len: 1 }
            Token { kind: Semi, len: 1 }
        "#,
            indent: true,
        },
    )
}

#[test]
fn lexes_assignment_with_subtraction() {
    let input = "f = 1 - 1;";
    let tokens = tokenize(input);
    let got: Vec<TokenKind> = tokens.iter().map(|t| t.kind).collect();
    assert_eq!(
        got,
        vec![
            TokenKind::Ident,
            TokenKind::Whitespace,
            TokenKind::Eq,
            TokenKind::Whitespace,
            TokenKind::Int,
            TokenKind::Whitespace,
            TokenKind::Minus,
            TokenKind::Whitespace,
            TokenKind::Int,
            TokenKind::Semi,
        ]
    );
    let total: u32 = tokens.iter().map(|t| t.len).sum();
    assert_eq!(total as usize, input.len());
}

#[test]
fn empty_input_has_no_tokens() {
    assert!(tokenize("").is_empty());
}

#[test]
fn double_equals_is_one_token() {
    assert_eq!(kinds("=="), vec![TokenKind::EqEq]);
    assert_eq!(kinds("==="), vec![TokenKind::EqEq, TokenKind::Eq]);
    assert_eq!(kinds("= ="), vec![TokenKind::Eq, TokenKind::Whitespace, TokenKind::Eq]);
    assert_eq!(kinds("x="), vec![TokenKind::Ident, TokenKind::Eq]);
}

#[test]
fn keywords_and_identifiers() {
    assert_eq!(
        kinds("input output if else while return var alloc null"),
        vec![
            TokenKind::Input,
            TokenKind::Whitespace,
            TokenKind::Output,
            TokenKind::Whitespace,
            TokenKind::If,
            TokenKind::Whitespace,
            TokenKind::Else,
            TokenKind::Whitespace,
            TokenKind::While,
            TokenKind::Whitespace,
            TokenKind::Return,
            TokenKind::Whitespace,
            TokenKind::Var,
            TokenKind::Whitespace,
            TokenKind::Alloc,
            TokenKind::Whitespace,
            TokenKind::Null,
        ]
    );
    assert_eq!(kinds("iff"), vec![TokenKind::Ident]);
    assert_eq!(kinds("nul"), vec![TokenKind::Ident]);
    let t = tokenize("returned");
    assert_eq!(t.len(), 1);
    assert_eq!(t[0].kind, TokenKind::Ident);
    assert_eq!(t[0].len, 8);
}

#[test]
fn whitespace_runs_coalesce() {
    let t = tokenize(" \t\r\n  x");
    assert_eq!(t.len(), 2);
    assert_eq!(t[0].kind, TokenKind::Whitespace);
    assert_eq!(t[0].len, 6);
    assert!(is_whitespace('\t'));
    assert!(is_whitespace('\r'));
    assert!(!is_whitespace('x'));
}

#[test]
fn integers_are_maximal_runs() {
    let t = tokenize("1234x");
    assert_eq!(t.len(), 2);
    assert_eq!(t[0].kind, TokenKind::Int);
    assert_eq!(t[0].len, 4);
    assert_eq!(t[1].kind, TokenKind::Ident);
}

#[test]
fn unrecognized_characters_are_single_tokens() {
    assert_eq!(kinds("#"), vec![TokenKind::Unknown]);
    assert_eq!(kinds("X"), vec![TokenKind::Unknown]);
    let t = tokenize("é!");
    assert_eq!(t.len(), 2);
    assert_eq!(t[0].kind, TokenKind::Unknown);
    assert_eq!(t[0].len, 2);
    let t = tokenize("∀𝔸");
    assert_eq!(t.len(), 2);
    assert_eq!(t[0].len, 3);
    assert_eq!(t[1].len, 4);
    assert_eq!(t[1].kind, TokenKind::Unknown);
}

#[test]
fn symbols() {
    assert_eq!(
        kinds(",.;:&+-*/>(){}"),
        vec![
            TokenKind::Comma,
            TokenKind::Dot,
            TokenKind::Semi,
            TokenKind::Colon,
            TokenKind::And,
            TokenKind::Plus,
            TokenKind::Minus,
            TokenKind::Star,
            TokenKind::Slash,
            TokenKind::Gt,
            TokenKind::OpenParen,
            TokenKind::CloseParen,
            TokenKind::OpenBrace,
            TokenKind::CloseBrace,
        ]
    );
}

#[test]
fn cursor_reports_end_of_input() {
    let mut c = Cursor::new("ab");
    let t = c.advance_token();
    assert_eq!(t.kind, TokenKind::Ident);
    assert_eq!(t.len, 2);
    let e = c.advance_token();
    assert_eq!(e.kind, TokenKind::Eof);
    assert_eq!(e.len, 0);
    let e = c.advance_token();
    assert_eq!(e.kind, TokenKind::Eof);
}

#[test]
fn syntax_kind_from_token_kind() {
    assert_eq!(SyntaxKind::from(TokenKind::Ident), SyntaxKind::IDENT);
    assert_eq!(SyntaxKind::from(TokenKind::EqEq), SyntaxKind::EQEQ);
    assert_eq!(SyntaxKind::from(TokenKind::Unknown), SyntaxKind::ERROR);
    assert_eq!(SyntaxKind::from(TokenKind::Eof), SyntaxKind::EOF);
    assert_eq!(SyntaxKind::from(TokenKind::Whitespace), SyntaxKind::WHITESPACE);
}

#[test]
fn raw_kinds_round_trip() {
    assert_eq!(TipLanguage::kind_to_raw(SyntaxKind::ERROR), 0);
    assert_eq!(TipLanguage::kind_to_raw(SyntaxKind::CLOSE_BRACE), 29);
    assert_eq!(TipLanguage::kind_to_raw(SyntaxKind::FUN), 30);
    assert_eq!(TipLanguage::kind_to_raw(SyntaxKind::PROGRAM), 49);
    for raw in 0u16..=49 {
        let kind = TipLanguage::kind_from_raw(raw).unwrap();
        assert_eq!(TipLanguage::kind_to_raw(kind), raw);
    }
    assert_eq!(TipLanguage::kind_from_raw(50), None);
    assert_eq!(TipLanguage::kind_from_raw(u16::MAX), None);
    assert!(SyntaxKind::CLOSE_BRACE.is_token());
    assert!(SyntaxKind::IDENT.is_token());
    assert!(!SyntaxKind::FUN.is_token());
    assert!(!SyntaxKind::PROGRAM.is_token());
}

#[test]
fn spellings_look_up_their_kinds() {
    assert_eq!(SyntaxKind::from_spelling("while"), Some(SyntaxKind::WHILE));
    assert_eq!(SyntaxKind::from_spelling("null"), Some(SyntaxKind::NULL));
    assert_eq!(SyntaxKind::from_spelling("=="), Some(SyntaxKind::EQEQ));
    assert_eq!(SyntaxKind::from_spelling("="), Some(SyntaxKind::EQ));
    assert_eq!(SyntaxKind::from_spelling("("), Some(SyntaxKind::OPEN_PAREN));
    assert_eq!(SyntaxKind::from_spelling("}"), Some(SyntaxKind::CLOSE_BRACE));
    assert_eq!(SyntaxKind::from_spelling("whilex"), None);
    assert_eq!(SyntaxKind::from_spelling(""), None);
    assert_eq!(SyntaxKind::from_spelling("==="), None);
    assert_eq!(SyntaxKind::from_spelling("f"), None);
}

#[test]
fn token_lengths_cut_text_on_char_boundaries() {
    let input = "f(é, ∀) = 𝔸;";
    let mut offset = 0usize;
    let mut pieces = String::new();
    for token in tokenize(input) {
        let end = offset + token.len as usize;
        assert!(input.is_char_boundary(end));
        pieces.push_str(&input[offset..end]);
        offset = end;
    }
    assert_eq!(offset, input.len());
    assert_eq!(pieces, input);
}
