use vstd::prelude::*;

use crate::lexer::{chars_of, spells, TokenKind};

verus! {

/// Every terminal and non-terminal tag of the language. All token kinds come
/// before all node kinds: a kind is a token exactly when its raw value is at
/// most `LAST_TOKEN_RAW`.
#[allow(non_camel_case_types)]
#[derive(Debug, Clone, Copy, PartialEq, Eq, PartialOrd, Ord, Hash, Structural)]
pub enum SyntaxKind {
    /// Error token: an unrecognized character.
    ERROR,
    /// End of input.
    EOF,
    WHITESPACE,
    IDENT,
    INT,
    /// "input"
    INPUT,
    /// "output"
    OUTPUT,
    /// "if"
    IF,
    /// "else"
    ELSE,
    /// "while"
    WHILE,
    /// "return"
    RETURN,
    /// "var"
    VAR,
    /// "alloc"
    ALLOC,
    /// "null"
    NULL,
    /// ","
    COMMA,
    /// "."
    DOT,
    /// ";"
    SEMI,
    /// ":"
    COLON,
    /// "&"
    AND,
    /// "+"
    PLUS,
    /// "-"
    MINUS,
    /// "*"
    STAR,
    /// "/"
    SLASH,
    /// ">"
    GT,
    /// "="
    EQ,
    /// "=="
    EQEQ,
    /// "("
    OPEN_PAREN,
    /// ")"
    CLOSE_PAREN,
    /// "{"
    OPEN_BRACE,
    /// "}"
    CLOSE_BRACE,
    // Composite nodes.
    FUN,
    ASSIGN_STM,
    OUTPUT_STM,
    IF_STM,
    WHILE_STM,
    BIN_EXP,
    PAREN_EXP,
    CALL_EXP,
    ALLOC_EXP,
    REF_EXP,
    PREFIX_EXP,
    RECORD_EXP,
    FIELD_EXP,
    ARG_LIST,
    PARAM_LIST,
    DECL_LIST,
    FIELD_LIST,
    STM_LIST,
    FIELD,
    PROGRAM,
}

/// Raw value of the last token kind, `CLOSE_BRACE`.
pub const LAST_TOKEN_RAW: u16 = 29;

/// Raw value of the last kind, `PROGRAM`.
pub const LAST_RAW: u16 = 49;

/// The raw numeric value of a kind: its position in the declaration.
pub open spec fn raw_of(k: SyntaxKind) -> nat {
    match k {
        SyntaxKind::ERROR => 0,
        SyntaxKind::EOF => 1,
        SyntaxKind::WHITESPACE => 2,
        SyntaxKind::IDENT => 3,
        SyntaxKind::INT => 4,
        SyntaxKind::INPUT => 5,
        SyntaxKind::OUTPUT => 6,
        SyntaxKind::IF => 7,
        SyntaxKind::ELSE => 8,
        SyntaxKind::WHILE => 9,
        SyntaxKind::RETURN => 10,
        SyntaxKind::VAR => 11,
        SyntaxKind::ALLOC => 12,
        SyntaxKind::NULL => 13,
        SyntaxKind::COMMA => 14,
        SyntaxKind::DOT => 15,
        SyntaxKind::SEMI => 16,
        SyntaxKind::COLON => 17,
        SyntaxKind::AND => 18,
        SyntaxKind::PLUS => 19,
        SyntaxKind::MINUS => 20,
        SyntaxKind::STAR => 21,
        SyntaxKind::SLASH => 22,
        SyntaxKind::GT => 23,
        SyntaxKind::EQ => 24,
        SyntaxKind::EQEQ => 25,
        SyntaxKind::OPEN_PAREN => 26,
        SyntaxKind::CLOSE_PAREN => 27,
        SyntaxKind::OPEN_BRACE => 28,
        SyntaxKind::CLOSE_BRACE => 29,
        SyntaxKind::FUN => 30,
        SyntaxKind::ASSIGN_STM => 31,
        SyntaxKind::OUTPUT_STM => 32,
        SyntaxKind::IF_STM => 33,
        SyntaxKind::WHILE_STM => 34,
        SyntaxKind::BIN_EXP => 35,
        SyntaxKind::PAREN_EXP => 36,
        SyntaxKind::CALL_EXP => 37,
        SyntaxKind::ALLOC_EXP => 38,
        SyntaxKind::REF_EXP => 39,
        SyntaxKind::PREFIX_EXP => 40,
        SyntaxKind::RECORD_EXP => 41,
        SyntaxKind::FIELD_EXP => 42,
        SyntaxKind::ARG_LIST => 43,
        SyntaxKind::PARAM_LIST => 44,
        SyntaxKind::DECL_LIST => 45,
        SyntaxKind::FIELD_LIST => 46,
        SyntaxKind::STM_LIST => 47,
        SyntaxKind::FIELD => 48,
        SyntaxKind::PROGRAM => 49,
    }
}

/// A kind is a token kind (a terminal) when it comes before every node kind.
pub open spec fn is_token_kind(k: SyntaxKind) -> bool {
    raw_of(k) <= LAST_TOKEN_RAW
}

/// The kind in the unified space that a lexer token kind stands for.
pub open spec fn kind_of_token(t: TokenKind) -> SyntaxKind {
    match t {
        TokenKind::Whitespace => SyntaxKind::WHITESPACE,
        TokenKind::Ident => SyntaxKind::IDENT,
        TokenKind::Int => SyntaxKind::INT,
        TokenKind::Input => SyntaxKind::INPUT,
        TokenKind::Output => SyntaxKind::OUTPUT,
        TokenKind::If => SyntaxKind::IF,
        TokenKind::Else => SyntaxKind::ELSE,
        TokenKind::While => SyntaxKind::WHILE,
        TokenKind::Return => SyntaxKind::RETURN,
        TokenKind::Var => SyntaxKind::VAR,
        TokenKind::Alloc => SyntaxKind::ALLOC,
        TokenKind::Null => SyntaxKind::NULL,
        TokenKind::Comma => SyntaxKind::COMMA,
        TokenKind::Dot => SyntaxKind::DOT,
        TokenKind::Semi => SyntaxKind::SEMI,
        TokenKind::Colon => SyntaxKind::COLON,
        TokenKind::And => SyntaxKind::AND,
        TokenKind::Plus => SyntaxKind::PLUS,
        TokenKind::Minus => SyntaxKind::MINUS,
        TokenKind::Star => SyntaxKind::STAR,
        TokenKind::Slash => SyntaxKind::SLASH,
        TokenKind::Gt => SyntaxKind::GT,
        TokenKind::Eq => SyntaxKind::EQ,
        TokenKind::EqEq => SyntaxKind::EQEQ,
        TokenKind::OpenParen => SyntaxKind::OPEN_PAREN,
        TokenKind::CloseParen => SyntaxKind::CLOSE_PAREN,
        TokenKind::OpenBrace => SyntaxKind::OPEN_BRACE,
        TokenKind::CloseBrace => SyntaxKind::CLOSE_BRACE,
        TokenKind::Unknown => SyntaxKind::ERROR,
        TokenKind::Eof => SyntaxKind::EOF,
    }
}

impl SyntaxKind {
    /// The raw numeric value of this kind.
    pub fn to_raw(self) -> (r: u16)
        ensures
            r as nat == raw_of(self),
    {
        match self {
            SyntaxKind::ERROR => 0,
            SyntaxKind::EOF => 1,
            SyntaxKind::WHITESPACE => 2,
            SyntaxKind::IDENT => 3,
            SyntaxKind::INT => 4,
            SyntaxKind::INPUT => 5,
            SyntaxKind::OUTPUT => 6,
            SyntaxKind::IF => 7,
            SyntaxKind::ELSE => 8,
            SyntaxKind::WHILE => 9,
            SyntaxKind::RETURN => 10,
            SyntaxKind::VAR => 11,
            SyntaxKind::ALLOC => 12,
            SyntaxKind::NULL => 13,
            SyntaxKind::COMMA => 14,
            SyntaxKind::DOT => 15,
            SyntaxKind::SEMI => 16,
            SyntaxKind::COLON => 17,
            SyntaxKind::AND => 18,
            SyntaxKind::PLUS => 19,
            SyntaxKind::MINUS => 20,
            SyntaxKind::STAR => 21,
            SyntaxKind::SLASH => 22,
            SyntaxKind::GT => 23,
            SyntaxKind::EQ => 24,
            SyntaxKind::EQEQ => 25,
            SyntaxKind::OPEN_PAREN => 26,
            SyntaxKind::CLOSE_PAREN => 27,
            SyntaxKind::OPEN_BRACE => 28,
            SyntaxKind::CLOSE_BRACE => 29,
            SyntaxKind::FUN => 30,
            SyntaxKind::ASSIGN_STM => 31,
            SyntaxKind::OUTPUT_STM => 32,
            SyntaxKind::IF_STM => 33,
            SyntaxKind::WHILE_STM => 34,
            SyntaxKind::BIN_EXP => 35,
            SyntaxKind::PAREN_EXP => 36,
            SyntaxKind::CALL_EXP => 37,
            SyntaxKind::ALLOC_EXP => 38,
            SyntaxKind::REF_EXP => 39,
            SyntaxKind::PREFIX_EXP => 40,
            SyntaxKind::RECORD_EXP => 41,
            SyntaxKind::FIELD_EXP => 42,
            SyntaxKind::ARG_LIST => 43,
            SyntaxKind::PARAM_LIST => 44,
            SyntaxKind::DECL_LIST => 45,
            SyntaxKind::FIELD_LIST => 46,
            SyntaxKind::STM_LIST => 47,
            SyntaxKind::FIELD => 48,
            SyntaxKind::PROGRAM => 49,
        }
    }

    /// The kind with raw value `raw`, if there is one.
    pub fn from_raw(raw: u16) -> (r: Option<SyntaxKind>)
        ensures
            r matches Some(k) ==> raw_of(k) == raw as nat,
            r is Some <==> raw <= LAST_RAW,
    {
        match raw {
            0 => Some(SyntaxKind::ERROR),
            1 => Some(SyntaxKind::EOF),
            2 => Some(SyntaxKind::WHITESPACE),
            3 => Some(SyntaxKind::IDENT),
            4 => Some(SyntaxKind::INT),
            5 => Some(SyntaxKind::INPUT),
            6 => Some(SyntaxKind::OUTPUT),
            7 => Some(SyntaxKind::IF),
            8 => Some(SyntaxKind::ELSE),
            9 => Some(SyntaxKind::WHILE),
            10 => Some(SyntaxKind::RETURN),
            11 => Some(SyntaxKind::VAR),
            12 => Some(SyntaxKind::ALLOC),
            13 => Some(SyntaxKind::NULL),
            14 => Some(SyntaxKind::COMMA),
            15 => Some(SyntaxKind::DOT),
            16 => Some(SyntaxKind::SEMI),
            17 => Some(SyntaxKind::COLON),
            18 => Some(SyntaxKind::AND),
            19 => Some(SyntaxKind::PLUS),
            20 => Some(SyntaxKind::MINUS),
            21 => Some(SyntaxKind::STAR),
            22 => Some(SyntaxKind::SLASH),
            23 => Some(SyntaxKind::GT),
            24 => Some(SyntaxKind::EQ),
            25 => Some(SyntaxKind::EQEQ),
            26 => Some(SyntaxKind::OPEN_PAREN),
            27 => Some(SyntaxKind::CLOSE_PAREN),
            28 => Some(SyntaxKind::OPEN_BRACE),
            29 => Some(SyntaxKind::CLOSE_BRACE),
            30 => Some(SyntaxKind::FUN),
            31 => Some(SyntaxKind::ASSIGN_STM),
            32 => Some(SyntaxKind::OUTPUT_STM),
            33 => Some(SyntaxKind::IF_STM),
            34 => Some(SyntaxKind::WHILE_STM),
            35 => Some(SyntaxKind::BIN_EXP),
            36 => Some(SyntaxKind::PAREN_EXP),
            37 => Some(SyntaxKind::CALL_EXP),
            38 => Some(SyntaxKind::ALLOC_EXP),
            39 => Some(SyntaxKind::REF_EXP),
            40 => Some(SyntaxKind::PREFIX_EXP),
            41 => Some(SyntaxKind::RECORD_EXP),
            42 => Some(SyntaxKind::FIELD_EXP),
            43 => Some(SyntaxKind::ARG_LIST),
            44 => Some(SyntaxKind::PARAM_LIST),
            45 => Some(SyntaxKind::DECL_LIST),
            46 => Some(SyntaxKind::FIELD_LIST),
            47 => Some(SyntaxKind::STM_LIST),
            48 => Some(SyntaxKind::FIELD),
            49 => Some(SyntaxKind::PROGRAM),
            _ => None,
        }
    }

    /// Whether this kind is a token kind.
    pub fn is_token(self) -> (r: bool)
        ensures
            r == is_token_kind(self),
    {
        self.to_raw() <= LAST_TOKEN_RAW
    }
}

impl From<TokenKind> for SyntaxKind {
    fn from(token_kind: TokenKind) -> (r: SyntaxKind) {
        match token_kind {
            TokenKind::Whitespace => SyntaxKind::WHITESPACE,
            TokenKind::Ident => SyntaxKind::IDENT,
            TokenKind::Int => SyntaxKind::INT,
            TokenKind::Input => SyntaxKind::INPUT,
            TokenKind::Output => SyntaxKind::OUTPUT,
            TokenKind::If => SyntaxKind::IF,
            TokenKind::Else => SyntaxKind::ELSE,
            TokenKind::While => SyntaxKind::WHILE,
            TokenKind::Return => SyntaxKind::RETURN,
            TokenKind::Var => SyntaxKind::VAR,
            TokenKind::Alloc => SyntaxKind::ALLOC,
            TokenKind::Null => SyntaxKind::NULL,
            TokenKind::Comma => SyntaxKind::COMMA,
            TokenKind::Dot => SyntaxKind::DOT,
            TokenKind::Semi => SyntaxKind::SEMI,
            TokenKind::Colon => SyntaxKind::COLON,
            TokenKind::And => SyntaxKind::AND,
            TokenKind::Plus => SyntaxKind::PLUS,
            TokenKind::Minus => SyntaxKind::MINUS,
            TokenKind::Star => SyntaxKind::STAR,
            TokenKind::Slash => SyntaxKind::SLASH,
            TokenKind::Gt => SyntaxKind::GT,
            TokenKind::Eq => SyntaxKind::EQ,
            TokenKind::EqEq => SyntaxKind::EQEQ,
            TokenKind::OpenParen => SyntaxKind::OPEN_PAREN,
            TokenKind::CloseParen => SyntaxKind::CLOSE_PAREN,
            TokenKind::OpenBrace => SyntaxKind::OPEN_BRACE,
            TokenKind::CloseBrace => SyntaxKind::CLOSE_BRACE,
            TokenKind::Unknown => SyntaxKind::ERROR,
            TokenKind::Eof => SyntaxKind::EOF,
        }
    }
}

impl vstd::std_specs::convert::FromSpecImpl<TokenKind> for SyntaxKind {
    open spec fn obeys_from_spec() -> bool {
        true
    }

    open spec fn from_spec(token_kind: TokenKind) -> SyntaxKind {
        kind_of_token(token_kind)
    }
}

/// The fixed spelling of a keyword or punctuation kind; `None` for the
/// kinds that have no single spelling.
pub open spec fn spelling(k: SyntaxKind) -> Option<Seq<char>> {
    match k {
        SyntaxKind::INPUT => Some(seq!['i', 'n', 'p', 'u', 't']),
        SyntaxKind::OUTPUT => Some(seq!['o', 'u', 't', 'p', 'u', 't']),
        SyntaxKind::IF => Some(seq!['i', 'f']),
        SyntaxKind::ELSE => Some(seq!['e', 'l', 's', 'e']),
        SyntaxKind::WHILE => Some(seq!['w', 'h', 'i', 'l', 'e']),
        SyntaxKind::RETURN => Some(seq!['r', 'e', 't', 'u', 'r', 'n']),
        SyntaxKind::VAR => Some(seq!['v', 'a', 'r']),
        SyntaxKind::ALLOC => Some(seq!['a', 'l', 'l', 'o', 'c']),
        SyntaxKind::NULL => Some(seq!['n', 'u', 'l', 'l']),
        SyntaxKind::COMMA => Some(seq![',']),
        SyntaxKind::DOT => Some(seq!['.']),
        SyntaxKind::SEMI => Some(seq![';']),
        SyntaxKind::COLON => Some(seq![':']),
        SyntaxKind::AND => Some(seq!['&']),
        SyntaxKind::PLUS => Some(seq!['+']),
        SyntaxKind::MINUS => Some(seq!['-']),
        SyntaxKind::STAR => Some(seq!['*']),
        SyntaxKind::SLASH => Some(seq!['/']),
        SyntaxKind::GT => Some(seq!['>']),
        SyntaxKind::EQ => Some(seq!['=']),
        SyntaxKind::EQEQ => Some(seq!['=', '=']),
        SyntaxKind::OPEN_PAREN => Some(seq!['(']),
        SyntaxKind::CLOSE_PAREN => Some(seq![')']),
        SyntaxKind::OPEN_BRACE => Some(seq!['{']),
        SyntaxKind::CLOSE_BRACE => Some(seq!['}']),
        _ => None,
    }
}

impl SyntaxKind {
    /// Looks up the kind whose fixed spelling is `s`: a keyword or a
    /// punctuation symbol.
    pub fn from_spelling(s: &str) -> (r: Option<SyntaxKind>)
        ensures
            r matches Some(k) ==> spelling(k) == Some(s@),
            r is None ==> forall|k: SyntaxKind| spelling(k) != Some(s@),
    {
        let chars = chars_of(s);
        let n = chars.len();
        assert(chars@.subrange(0, n as int) =~= s@);
        let w0 = ['i', 'n', 'p', 'u', 't'];
        assert(w0@ =~= seq!['i', 'n', 'p', 'u', 't']);
        if spells(&chars, 0, n, &w0) {
            return Some(SyntaxKind::INPUT);
        }
        let w1 = ['o', 'u', 't', 'p', 'u', 't'];
        assert(w1@ =~= seq!['o', 'u', 't', 'p', 'u', 't']);
        if spells(&chars, 0, n, &w1) {
            return Some(SyntaxKind::OUTPUT);
        }
        let w2 = ['i', 'f'];
        assert(w2@ =~= seq!['i', 'f']);
        if spells(&chars, 0, n, &w2) {
            return Some(SyntaxKind::IF);
        }
        let w3 = ['e', 'l', 's', 'e'];
        assert(w3@ =~= seq!['e', 'l', 's', 'e']);
        if spells(&chars, 0, n, &w3) {
            return Some(SyntaxKind::ELSE);
        }
        let w4 = ['w', 'h', 'i', 'l', 'e'];
        assert(w4@ =~= seq!['w', 'h', 'i', 'l', 'e']);
        if spells(&chars, 0, n, &w4) {
            return Some(SyntaxKind::WHILE);
        }
        let w5 = ['r', 'e', 't', 'u', 'r', 'n'];
        assert(w5@ =~= seq!['r', 'e', 't', 'u', 'r', 'n']);
        if spells(&chars, 0, n, &w5) {
            return Some(SyntaxKind::RETURN);
        }
        let w6 = ['v', 'a', 'r'];
        assert(w6@ =~= seq!['v', 'a', 'r']);
        if spells(&chars, 0, n, &w6) {
            return Some(SyntaxKind::VAR);
        }
        let w7 = ['a', 'l', 'l', 'o', 'c'];
        assert(w7@ =~= seq!['a', 'l', 'l', 'o', 'c']);
        if spells(&chars, 0, n, &w7) {
            return Some(SyntaxKind::ALLOC);
        }
        let w8 = ['n', 'u', 'l', 'l'];
        assert(w8@ =~= seq!['n', 'u', 'l', 'l']);
        if spells(&chars, 0, n, &w8) {
            return Some(SyntaxKind::NULL);
        }
        let w9 = [','];
        assert(w9@ =~= seq![',']);
        if spells(&chars, 0, n, &w9) {
            return Some(SyntaxKind::COMMA);
        }
        let w10 = ['.'];
        assert(w10@ =~= seq!['.']);
        if spells(&chars, 0, n, &w10) {
            return Some(SyntaxKind::DOT);
        }
        let w11 = [';'];
        assert(w11@ =~= seq![';']);
        if spells(&chars, 0, n, &w11) {
            return Some(SyntaxKind::SEMI);
        }
        let w12 = [':'];
        assert(w12@ =~= seq![':']);
        if spells(&chars, 0, n, &w12) {
            return Some(SyntaxKind::COLON);
        }
        let w13 = ['&'];
        assert(w13@ =~= seq!['&']);
        if spells(&chars, 0, n, &w13) {
            return Some(SyntaxKind::AND);
        }
        let w14 = ['+'];
        assert(w14@ =~= seq!['+']);
        if spells(&chars, 0, n, &w14) {
            return Some(SyntaxKind::PLUS);
        }
        let w15 = ['-'];
        assert(w15@ =~= seq!['-']);
        if spells(&chars, 0, n, &w15) {
            return Some(SyntaxKind::MINUS);
        }
        let w16 = ['*'];
        assert(w16@ =~= seq!['*']);
        if spells(&chars, 0, n, &w16) {
            return Some(SyntaxKind::STAR);
        }
        let w17 = ['/'];
        assert(w17@ =~= seq!['/']);
        if spells(&chars, 0, n, &w17) {
            return Some(SyntaxKind::SLASH);
        }
        let w18 = ['>'];
        assert(w18@ =~= seq!['>']);
        if spells(&chars, 0, n, &w18) {
            return Some(SyntaxKind::GT);
        }
        let w19 = ['='];
        assert(w19@ =~= seq!['=']);
        if spells(&chars, 0, n, &w19) {
            return Some(SyntaxKind::EQ);
        }
        let w20 = ['=', '='];
        assert(w20@ =~= seq!['=', '=']);
        if spells(&chars, 0, n, &w20) {
            return Some(SyntaxKind::EQEQ);
        }
        let w21 = ['('];
        assert(w21@ =~= seq!['(']);
        if spells(&chars, 0, n, &w21) {
            return Some(SyntaxKind::OPEN_PAREN);
        }
        let w22 = [')'];
        assert(w22@ =~= seq![')']);
        if spells(&chars, 0, n, &w22) {
            return Some(SyntaxKind::CLOSE_PAREN);
        }
        let w23 = ['{'];
        assert(w23@ =~= seq!['{']);
        if spells(&chars, 0, n, &w23) {
            return Some(SyntaxKind::OPEN_BRACE);
        }
        let w24 = ['}'];
        assert(w24@ =~= seq!['}']);
        if spells(&chars, 0, n, &w24) {
            return Some(SyntaxKind::CLOSE_BRACE);
        }
        None
    }
}

/// Every lexer token kind lands among the token kinds.
pub proof fn lemma_kind_of_token_is_token(t: TokenKind)
    ensures
        is_token_kind(kind_of_token(t)),
{
}

/// The language tag under which trees of this crate are built.
#[derive(Debug, Clone, Copy, PartialEq, Eq, PartialOrd, Ord, Hash)]
pub struct TipLanguage;

impl TipLanguage {
    /// The kind of a raw tag, checked: `None` for a value past the last kind.
    pub fn kind_from_raw(raw: u16) -> (r: Option<SyntaxKind>)
        ensures
            r matches Some(k) ==> raw_of(k) == raw as nat,
            r is Some <==> raw <= LAST_RAW,
    {
        SyntaxKind::from_raw(raw)
    }

    /// The raw tag of a kind.
    pub fn kind_to_raw(kind: SyntaxKind) -> (r: u16)
        ensures
            r as nat == raw_of(kind),
    {
        kind.to_raw()
    }
}

} // verus!
