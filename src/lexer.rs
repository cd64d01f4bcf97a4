use vstd::prelude::*;
use vstd::string::StringSliceAdditionalSpecFns;
use vstd::utf8::{encode_scalar, encode_utf8};

verus! {

/// Kinds of tokens produced by the lexer.
#[derive(Clone, Copy, Debug, PartialEq, Eq, Structural)]
pub enum TokenKind {
    /// A sequence of whitespace characters.
    Whitespace,
    /// An identifier.
    Ident,
    /// An integer.
    Int,
    /// "input"
    Input,
    /// "output"
    Output,
    /// "if"
    If,
    /// "else"
    Else,
    /// "while"
    While,
    /// "return"
    Return,
    /// "var"
    Var,
    /// "alloc"
    Alloc,
    /// "null"
    Null,
    /// ","
    Comma,
    /// "."
    Dot,
    /// ";"
    Semi,
    /// ":"
    Colon,
    /// "&"
    And,
    /// "+"
    Plus,
    /// "-"
    Minus,
    /// "*"
    Star,
    /// "/"
    Slash,
    /// ">"
    Gt,
    /// "="
    Eq,
    /// "=="
    EqEq,
    /// "("
    OpenParen,
    /// ")"
    CloseParen,
    /// "{"
    OpenBrace,
    /// "}"
    CloseBrace,
    /// Unknown token, unrecognized by the lexer.
    Unknown,
    /// End of input.
    Eof,
}

/// A lexed token: its kind and its length in bytes of UTF-8, so that the
/// lengths cut the text on character boundaries.
#[derive(Debug)]
pub struct Token {
    pub kind: TokenKind,
    pub len: u32,
}

/// A lexed token measured in characters, which is how the tree builder cuts
/// the text into leaves.
#[derive(Debug)]
pub struct Lexeme {
    pub kind: TokenKind,
    pub len: u32,
}

pub open spec fn lexeme_view(t: Lexeme) -> (TokenKind, nat) {
    (t.kind, t.len as nat)
}

/// The length in bytes of the UTF-8 encoding of some characters.
pub open spec fn byte_len(s: Seq<char>) -> nat {
    encode_utf8(s).len()
}

/// The number of bytes that UTF-8 takes for one character.
pub open spec fn char_width(c: char) -> nat {
    let v = c as u32;
    if v <= 0x7F {
        1
    } else if v <= 0x7FF {
        2
    } else if v <= 0xFFFF {
        3
    } else {
        4
    }
}

proof fn lemma_encode_concat(a: Seq<char>, b: Seq<char>)
    ensures
        encode_utf8(a + b) == encode_utf8(a) + encode_utf8(b),
    decreases a.len(),
{
    if a.len() == 0 {
        assert(a + b =~= b);
        assert(encode_utf8(a) =~= Seq::<u8>::empty());
        assert(encode_utf8(a) + encode_utf8(b) =~= encode_utf8(b));
    } else {
        assert((a + b).drop_first() =~= a.drop_first() + b);
        assert((a + b)[0] == a[0]);
        lemma_encode_concat(a.drop_first(), b);
        assert(encode_utf8(a + b) =~= encode_utf8(a) + encode_utf8(b));
    }
}

proof fn lemma_char_width(c: char)
    ensures
        byte_len(seq![c]) == char_width(c),
        1 <= char_width(c) <= 4,
{
    broadcast use vstd::utf8::char_is_scalar;
    assert(seq![c].drop_first() =~= Seq::<char>::empty());
    assert(encode_utf8(Seq::<char>::empty()) =~= Seq::<u8>::empty());
    assert(encode_utf8(seq![c]) =~= encode_scalar(c as u32) + encode_utf8(Seq::<char>::empty()));
}

proof fn lemma_byte_len_concat(a: Seq<char>, b: Seq<char>)
    ensures
        byte_len(a + b) == byte_len(a) + byte_len(b),
{
    lemma_encode_concat(a, b);
}

/// A text takes at least one byte per character.
pub proof fn lemma_byte_len_at_least(s: Seq<char>)
    ensures
        byte_len(s) >= s.len(),
    decreases s.len(),
{
    if s.len() > 0 {
        lemma_byte_len_at_least(s.drop_last());
        assert(s =~= s.drop_last() + seq![s.last()]);
        lemma_byte_len_concat(s.drop_last(), seq![s.last()]);
        lemma_char_width(s.last());
    } else {
        assert(encode_utf8(s) =~= Seq::<u8>::empty());
    }
}

/// The bytes of a text are those of its parts.
proof fn lemma_byte_len_split(s: Seq<char>, i: int, j: int)
    requires
        0 <= i <= j <= s.len(),
    ensures
        byte_len(s) == byte_len(s.subrange(0, i)) + byte_len(s.subrange(i, j)) + byte_len(
            s.subrange(j, s.len() as int),
        ),
{
    assert(s =~= s.subrange(0, i) + s.subrange(i, j) + s.subrange(j, s.len() as int));
    lemma_byte_len_concat(s.subrange(0, i), s.subrange(i, j));
    lemma_byte_len_concat(s.subrange(0, i) + s.subrange(i, j), s.subrange(j, s.len() as int));
}

fn width(c: char) -> (r: u32)
    ensures
        r == char_width(c),
{
    let v = c as u32;
    if v <= 0x7F {
        1
    } else if v <= 0x7FF {
        2
    } else if v <= 0xFFFF {
        3
    } else {
        4
    }
}

impl Token {
    fn new(kind: TokenKind, len: u32) -> (r: Token)
        ensures
            r.kind == kind,
            r.len == len,
    {
        Token { kind, len }
    }
}

pub open spec fn is_ws(c: char) -> bool {
    c == ' ' || c == '\n' || c == '\t' || c == '\r'
}

pub open spec fn is_lower(c: char) -> bool {
    'a' <= c && c <= 'z'
}

pub open spec fn is_digit(c: char) -> bool {
    '0' <= c && c <= '9'
}

/// Number of consecutive characters of `s`, from index `i` on, that satisfy `p`.
pub open spec fn run_len(s: Seq<char>, i: int, p: spec_fn(char) -> bool) -> nat
    decreases s.len() - i,
{
    if 0 <= i < s.len() && p(s[i]) {
        1 + run_len(s, i + 1, p)
    } else {
        0
    }
}

/// The keyword spelled by `w`, or `Ident` when `w` is no keyword.
pub open spec fn keyword_of(w: Seq<char>) -> TokenKind {
    if w == seq!['i', 'n', 'p', 'u', 't'] {
        TokenKind::Input
    } else if w == seq!['o', 'u', 't', 'p', 'u', 't'] {
        TokenKind::Output
    } else if w == seq!['i', 'f'] {
        TokenKind::If
    } else if w == seq!['e', 'l', 's', 'e'] {
        TokenKind::Else
    } else if w == seq!['w', 'h', 'i', 'l', 'e'] {
        TokenKind::While
    } else if w == seq!['r', 'e', 't', 'u', 'r', 'n'] {
        TokenKind::Return
    } else if w == seq!['v', 'a', 'r'] {
        TokenKind::Var
    } else if w == seq!['a', 'l', 'l', 'o', 'c'] {
        TokenKind::Alloc
    } else if w == seq!['n', 'u', 'l', 'l'] {
        TokenKind::Null
    } else {
        TokenKind::Ident
    }
}

/// The kind of a one-character token; `Unknown` for a character that starts no token.
pub open spec fn symbol_of(c: char) -> TokenKind {
    if c == ',' {
        TokenKind::Comma
    } else if c == '.' {
        TokenKind::Dot
    } else if c == ':' {
        TokenKind::Colon
    } else if c == ';' {
        TokenKind::Semi
    } else if c == '&' {
        TokenKind::And
    } else if c == '+' {
        TokenKind::Plus
    } else if c == '-' {
        TokenKind::Minus
    } else if c == '*' {
        TokenKind::Star
    } else if c == '/' {
        TokenKind::Slash
    } else if c == '>' {
        TokenKind::Gt
    } else if c == '(' {
        TokenKind::OpenParen
    } else if c == '{' {
        TokenKind::OpenBrace
    } else if c == ')' {
        TokenKind::CloseParen
    } else if c == '}' {
        TokenKind::CloseBrace
    } else {
        TokenKind::Unknown
    }
}

/// The longest-match token that starts at index `i` of `s`, as (kind, length).
pub open spec fn token_at(s: Seq<char>, i: int) -> (TokenKind, nat) {
    let c = s[i];
    if is_ws(c) {
        (TokenKind::Whitespace, 1 + run_len(s, i + 1, |x: char| is_ws(x)))
    } else if is_lower(c) {
        let n = 1 + run_len(s, i + 1, |x: char| is_lower(x));
        (keyword_of(s.subrange(i, i + n)), n)
    } else if is_digit(c) {
        (TokenKind::Int, 1 + run_len(s, i + 1, |x: char| is_digit(x)))
    } else if c == '=' {
        if i + 1 < s.len() && s[i + 1] == '=' {
            (TokenKind::EqEq, 2)
        } else {
            (TokenKind::Eq, 1)
        }
    } else {
        (symbol_of(c), 1)
    }
}

/// The token stream of `s` from index `i` on (no token is empty, see
/// `lemma_token_at_bound`).
pub open spec fn lex_from(s: Seq<char>, i: int) -> Seq<(TokenKind, nat)>
    decreases s.len() - i,
{
    if 0 <= i < s.len() && 0 < token_at(s, i).1 <= s.len() - i {
        seq![token_at(s, i)] + lex_from(s, i + token_at(s, i).1)
    } else {
        seq![]
    }
}

/// The token stream of a whole text.
pub open spec fn lex(s: Seq<char>) -> Seq<(TokenKind, nat)> {
    lex_from(s, 0)
}

/// The token stream of `s` from index `i` on, each token measured in bytes.
pub open spec fn lex_bytes_from(s: Seq<char>, i: int) -> Seq<(TokenKind, nat)>
    decreases s.len() - i,
{
    if 0 <= i < s.len() && 0 < token_at(s, i).1 <= s.len() - i {
        seq![(token_at(s, i).0, byte_len(s.subrange(i, i + token_at(s, i).1)))] + lex_bytes_from(
            s,
            i + token_at(s, i).1,
        )
    } else {
        seq![]
    }
}

/// The token stream of a whole text, each token measured in bytes.
pub open spec fn lex_bytes(s: Seq<char>) -> Seq<(TokenKind, nat)> {
    lex_bytes_from(s, 0)
}

/// Sum of the lengths of a token sequence.
pub open spec fn total_len(t: Seq<(TokenKind, nat)>) -> nat
    decreases t.len(),
{
    if t.len() == 0 {
        0
    } else {
        t[0].1 + total_len(t.drop_first())
    }
}

pub open spec fn token_view(t: Token) -> (TokenKind, nat) {
    (t.kind, t.len as nat)
}

pub proof fn lemma_run_len_bound(s: Seq<char>, i: int, p: spec_fn(char) -> bool)
    requires
        0 <= i <= s.len(),
    ensures
        run_len(s, i, p) <= s.len() - i,
    decreases s.len() - i,
{
    if i < s.len() && p(s[i]) {
        lemma_run_len_bound(s, i + 1, p);
    }
}

pub proof fn lemma_token_at_bound(s: Seq<char>, i: int)
    requires
        0 <= i < s.len(),
    ensures
        1 <= token_at(s, i).1 <= s.len() - i,
{
    lemma_run_len_bound(s, i + 1, |x: char| is_ws(x));
    lemma_run_len_bound(s, i + 1, |x: char| is_lower(x));
    lemma_run_len_bound(s, i + 1, |x: char| is_digit(x));
}

/// The token lengths of the stream from `i` add up to the rest of the text.
pub proof fn lemma_lex_from_total(s: Seq<char>, i: int)
    requires
        0 <= i <= s.len(),
    ensures
        total_len(lex_from(s, i)) == s.len() - i,
        forall|k: int| 0 <= k < lex_from(s, i).len() ==> #[trigger] lex_from(s, i)[k].1 >= 1,
    decreases s.len() - i,
{
    if i < s.len() {
        lemma_token_at_bound(s, i);
        let t = token_at(s, i);
        lemma_lex_from_total(s, i + t.1);
        let rest = lex_from(s, i + t.1);
        assert((seq![t] + rest).drop_first() =~= rest);
        assert forall|k: int| 0 <= k < lex_from(s, i).len() implies #[trigger] lex_from(s, i)[k].1 >= 1 by {
            if k > 0 {
                assert(lex_from(s, i)[k] == rest[k - 1]);
            }
        }
    }
}

/// Lexing is lossless: the token lengths of a text add up to its length,
/// and no token is empty.
pub proof fn lemma_lex_covers_input(s: Seq<char>)
    ensures
        total_len(lex(s)) == s.len(),
        forall|k: int| 0 <= k < lex(s).len() ==> #[trigger] lex(s)[k].1 >= 1,
{
    lemma_lex_from_total(s, 0);
}

/// Measured in bytes, the tokens from `i` on cover the rest of the text, none
/// is empty, and they have the kinds of the stream measured in characters.
pub proof fn lemma_lex_bytes_from(s: Seq<char>, i: int)
    requires
        0 <= i <= s.len(),
    ensures
        total_len(lex_bytes_from(s, i)) == byte_len(s.subrange(i, s.len() as int)),
        lex_bytes_from(s, i).len() == lex_from(s, i).len(),
        forall|k: int|
            0 <= k < lex_bytes_from(s, i).len() ==> #[trigger] lex_bytes_from(s, i)[k].1 >= 1
                && lex_bytes_from(s, i)[k].0 == lex_from(s, i)[k].0,
    decreases s.len() - i,
{
    if i < s.len() {
        lemma_token_at_bound(s, i);
        let n = token_at(s, i).1 as int;
        lemma_lex_bytes_from(s, i + n);
        let t = (token_at(s, i).0, byte_len(s.subrange(i, i + n)));
        let rest = lex_bytes_from(s, i + n);
        assert((seq![t] + rest).drop_first() =~= rest);
        let r = s.subrange(i, s.len() as int);
        lemma_byte_len_split(r, 0, n);
        assert(r.subrange(0, n) =~= s.subrange(i, i + n));
        assert(r.subrange(n, r.len() as int) =~= s.subrange(i + n, s.len() as int));
        assert(r.subrange(0, 0) =~= Seq::<char>::empty());
        assert(encode_utf8(Seq::<char>::empty()) =~= Seq::<u8>::empty());
        lemma_byte_len_at_least(s.subrange(i, i + n));
        assert forall|k: int| 0 <= k < lex_bytes_from(s, i).len() implies #[trigger] lex_bytes_from(
            s,
            i,
        )[k].1 >= 1 && lex_bytes_from(s, i)[k].0 == lex_from(s, i)[k].0 by {
            if k > 0 {
                assert(lex_bytes_from(s, i)[k] == rest[k - 1]);
                assert(lex_from(s, i)[k] == lex_from(s, i + n)[k - 1]);
            }
        }
    } else {
        assert(s.subrange(i, s.len() as int) =~= Seq::<char>::empty());
        assert(encode_utf8(Seq::<char>::empty()) =~= Seq::<u8>::empty());
    }
}

/// No token of a lexed stream is the end of input.
pub proof fn lemma_lex_from_no_eof(s: Seq<char>, i: int)
    ensures
        forall|k: int| 0 <= k < lex_from(s, i).len() ==> #[trigger] lex_from(s, i)[k].0 != TokenKind::Eof,
    decreases s.len() - i,
{
    if 0 <= i < s.len() && 0 < token_at(s, i).1 <= s.len() - i {
        lemma_lex_from_no_eof(s, i + token_at(s, i).1);
        let rest = lex_from(s, i + token_at(s, i).1);
        assert forall|k: int| 0 <= k < lex_from(s, i).len() implies #[trigger] lex_from(s, i)[k].0
            != TokenKind::Eof by {
            if k > 0 {
                assert(lex_from(s, i)[k] == rest[k - 1]);
            }
        }
    }
}

/// Lexing is lossless in bytes: the token lengths of a text add up to the
/// length of its UTF-8 encoding, no token is empty, and the kinds are those
/// of the stream measured in characters.
pub proof fn lemma_tokens_cover_input(s: Seq<char>)
    ensures
        total_len(lex_bytes(s)) == byte_len(s),
        lex_bytes(s).len() == lex(s).len(),
        forall|k: int|
            0 <= k < lex_bytes(s).len() ==> #[trigger] lex_bytes(s)[k].1 >= 1 && lex_bytes(s)[k].0
                == lex(s)[k].0,
{
    lemma_lex_bytes_from(s, 0);
    assert(s.subrange(0, s.len() as int) =~= s);
}

pub fn is_whitespace(c: char) -> (r: bool)
    ensures
        r == is_ws(c),
{
    c == ' ' || c == '\n' || c == '\t' || c == '\r'
}

/// A cursor over the characters of a text.
pub struct Cursor {
    chars: Vec<char>,
    pos: usize,
    token_start: usize,
}

impl Cursor {
    pub closed spec fn text(&self) -> Seq<char> {
        self.chars@
    }

    pub closed spec fn position(&self) -> int {
        self.pos as int
    }

    pub closed spec fn wf(&self) -> bool {
        &&& self.token_start == self.pos
        &&& self.pos <= self.chars@.len()
        &&& self.chars@.len() < u32::MAX
        &&& byte_len(self.chars@) < u32::MAX
    }

    pub fn new(input: &str) -> (r: Cursor)
        requires
            byte_len(input@) < u32::MAX,
        ensures
            r.wf(),
            r.text() == input@,
            r.position() == 0,
            0 <= r.position() <= r.text().len(),
    {
        let chars = chars_of(input);
        proof {
            lemma_byte_len_at_least(input@);
        }
        Cursor { chars, pos: 0, token_start: 0 }
    }

    /// The next token, measured in bytes; `Eof` of length 0 at the end.
    pub fn advance_token(&mut self) -> (t: Token)
        requires
            old(self).wf(),
        ensures
            final(self).wf(),
            final(self).text() == old(self).text(),
            0 <= final(self).position() <= final(self).text().len(),
            old(self).position() == old(self).text().len() ==> t.kind == TokenKind::Eof && t.len
                == 0 && final(self).position() == old(self).position(),
            old(self).position() < old(self).text().len() ==> t.kind == token_at(
                old(self).text(),
                old(self).position(),
            ).0 && final(self).position() == old(self).position() + token_at(
                old(self).text(),
                old(self).position(),
            ).1 && t.len == byte_len(
                old(self).text().subrange(old(self).position(), final(self).position()),
            ),
    {
        let start = self.pos;
        let l = self.next_lexeme();
        if l.kind == TokenKind::Eof {
            return Token::new(TokenKind::Eof, 0);
        }
        let len = self.bytes_between(start, self.pos);
        Token::new(l.kind, len)
    }

    /// The UTF-8 length of the characters from `from` to `to`.
    fn bytes_between(&self, from: usize, to: usize) -> (r: u32)
        requires
            self.wf(),
            from <= to <= self.chars@.len(),
        ensures
            r == byte_len(self.chars@.subrange(from as int, to as int)),
    {
        let ghost s = self.chars@;
        proof {
            lemma_byte_len_split(s, from as int, to as int);
        }
        let mut acc: u32 = 0;
        let mut k: usize = from;
        assert(s.subrange(from as int, from as int) =~= Seq::<char>::empty());
        assert(encode_utf8(Seq::<char>::empty()) =~= Seq::<u8>::empty());
        while k < to
            invariant
                from <= k <= to <= s.len(),
                s == self.chars@,
                byte_len(s) < u32::MAX,
                byte_len(s) == byte_len(s.subrange(0, from as int)) + byte_len(
                    s.subrange(from as int, to as int),
                ) + byte_len(s.subrange(to as int, s.len() as int)),
                acc == byte_len(s.subrange(from as int, k as int)),
            decreases to - k,
        {
            let c = self.chars[k];
            proof {
                assert(s.subrange(from as int, k + 1) =~= s.subrange(from as int, k as int) + seq![c]);
                lemma_byte_len_concat(s.subrange(from as int, k as int), seq![c]);
                lemma_char_width(c);
                lemma_byte_len_split(s.subrange(from as int, to as int), 0, (k + 1 - from) as int);
                assert(s.subrange(from as int, to as int).subrange(0, (k + 1 - from) as int)
                    =~= s.subrange(from as int, k + 1));
            }
            acc = acc + width(c);
            k = k + 1;
        }
        acc
    }

    /// The next token, measured in characters; `Eof` of length 0 at the end.
    pub fn next_lexeme(&mut self) -> (t: Lexeme)
        requires
            old(self).wf(),
        ensures
            final(self).wf(),
            final(self).text() == old(self).text(),
            0 <= final(self).position() <= final(self).text().len(),
            old(self).position() == old(self).text().len() ==> t.kind == TokenKind::Eof && t.len
                == 0 && final(self).position() == old(self).position(),
            old(self).position() < old(self).text().len() ==> lexeme_view(t) == token_at(
                old(self).text(),
                old(self).position(),
            ) && final(self).position() == old(self).position() + t.len,
    {
        if self.pos >= self.chars.len() {
            return Lexeme { kind: TokenKind::Eof, len: 0 };
        }
        let first_char = self.chars[self.pos];
        self.pos = self.pos + 1;
        let token_kind = if is_whitespace(first_char) {
            self.whitespace()
        } else if 'a' <= first_char && first_char <= 'z' {
            self.ident_or_keyword()
        } else if '0' <= first_char && first_char <= '9' {
            self.integer()
        } else if first_char == '=' {
            if self.pos < self.chars.len() && self.chars[self.pos] == '=' {
                self.pos = self.pos + 1;
                TokenKind::EqEq
            } else {
                TokenKind::Eq
            }
        } else {
            symbol(first_char)
        };
        let len = (self.pos - self.token_start) as u32;
        self.token_start = self.pos;
        Lexeme { kind: token_kind, len }
    }

    /// Eats characters while `class` holds of them; `class` picks whitespace,
    /// lower-case letters or digits.
    fn eat_while(&mut self, class: CharClass)
        requires
            old(self).token_start < old(self).pos <= old(self).chars@.len(),
            old(self).chars@.len() < u32::MAX,
        ensures
            final(self).chars == old(self).chars,
            final(self).token_start == old(self).token_start,
            old(self).pos <= final(self).pos <= final(self).chars@.len(),
            final(self).pos == old(self).pos + run_len(
                old(self).chars@,
                old(self).pos as int,
                class_spec(class),
            ),
    {
        let ghost start = self.pos as int;
        proof {
            lemma_run_len_bound(self.chars@, start, class_spec(class));
        }
        while self.pos < self.chars.len() && class_holds(class, self.chars[self.pos])
            invariant
                self.chars == old(self).chars,
                self.token_start == old(self).token_start,
                start <= self.pos <= self.chars@.len(),
                run_len(self.chars@, start, class_spec(class)) == (self.pos - start) + run_len(
                    self.chars@,
                    self.pos as int,
                    class_spec(class),
                ),
            decreases self.chars@.len() - self.pos,
        {
            self.pos = self.pos + 1;
        }
    }

    fn whitespace(&mut self) -> (k: TokenKind)
        requires
            old(self).token_start + 1 == old(self).pos <= old(self).chars@.len(),
            old(self).chars@.len() < u32::MAX,
            is_ws(old(self).chars@[old(self).token_start as int]),
        ensures
            final(self).chars == old(self).chars,
            final(self).token_start == old(self).token_start,
            old(self).pos <= final(self).pos <= final(self).chars@.len(),
            token_at(old(self).chars@, old(self).token_start as int) == (
                k,
                (final(self).pos - final(self).token_start) as nat,
            ),
    {
        self.eat_while(CharClass::Space);
        proof {
            assert(class_spec(CharClass::Space) == |x: char| is_ws(x));
        }
        TokenKind::Whitespace
    }

    fn integer(&mut self) -> (k: TokenKind)
        requires
            old(self).token_start + 1 == old(self).pos <= old(self).chars@.len(),
            old(self).chars@.len() < u32::MAX,
            is_digit(old(self).chars@[old(self).token_start as int]),
        ensures
            final(self).chars == old(self).chars,
            final(self).token_start == old(self).token_start,
            old(self).pos <= final(self).pos <= final(self).chars@.len(),
            token_at(old(self).chars@, old(self).token_start as int) == (
                k,
                (final(self).pos - final(self).token_start) as nat,
            ),
    {
        self.eat_while(CharClass::Digit);
        proof {
            assert(class_spec(CharClass::Digit) == |x: char| is_digit(x));
        }
        TokenKind::Int
    }

    fn ident_or_keyword(&mut self) -> (k: TokenKind)
        requires
            old(self).token_start + 1 == old(self).pos <= old(self).chars@.len(),
            old(self).chars@.len() < u32::MAX,
            is_lower(old(self).chars@[old(self).token_start as int]),
        ensures
            final(self).chars == old(self).chars,
            final(self).token_start == old(self).token_start,
            old(self).pos <= final(self).pos <= final(self).chars@.len(),
            token_at(old(self).chars@, old(self).token_start as int) == (
                k,
                (final(self).pos - final(self).token_start) as nat,
            ),
    {
        self.eat_while(CharClass::Lower);
        proof {
            assert(class_spec(CharClass::Lower) == |x: char| is_lower(x));
        }
        keyword(&self.chars, self.token_start, self.pos)
    }
}

/// The character classes whose runs form a single token.
#[derive(Clone, Copy, PartialEq, Eq, Structural)]
pub enum CharClass {
    Space,
    Lower,
    Digit,
}

pub open spec fn class_spec(class: CharClass) -> spec_fn(char) -> bool {
    match class {
        CharClass::Space => |x: char| is_ws(x),
        CharClass::Lower => |x: char| is_lower(x),
        CharClass::Digit => |x: char| is_digit(x),
    }
}

fn class_holds(class: CharClass, c: char) -> (r: bool)
    ensures
        r == class_spec(class)(c),
{
    match class {
        CharClass::Space => is_whitespace(c),
        CharClass::Lower => 'a' <= c && c <= 'z',
        CharClass::Digit => '0' <= c && c <= '9',
    }
}

fn symbol(c: char) -> (k: TokenKind)
    ensures
        k == symbol_of(c),
{
    match c {
        ',' => TokenKind::Comma,
        '.' => TokenKind::Dot,
        ':' => TokenKind::Colon,
        ';' => TokenKind::Semi,
        '&' => TokenKind::And,
        '+' => TokenKind::Plus,
        '-' => TokenKind::Minus,
        '*' => TokenKind::Star,
        '/' => TokenKind::Slash,
        '>' => TokenKind::Gt,
        '(' => TokenKind::OpenParen,
        '{' => TokenKind::OpenBrace,
        ')' => TokenKind::CloseParen,
        '}' => TokenKind::CloseBrace,
        _ => TokenKind::Unknown,
    }
}

/// Whether `s[start..end]` spells exactly `w`.
pub(crate) fn spells(s: &Vec<char>, start: usize, end: usize, w: &[char]) -> (r: bool)
    requires
        start <= end <= s@.len(),
    ensures
        r == (s@.subrange(start as int, end as int) == w@),
{
    if end - start != w.len() {
        proof {
            assert(s@.subrange(start as int, end as int).len() != w@.len());
        }
        return false;
    }
    let mut i: usize = 0;
    while i < w.len()
        invariant
            end - start == w@.len(),
            start <= end <= s@.len(),
            i <= w@.len(),
            forall|j: int| 0 <= j < i ==> s@[start + j] == w@[j],
        decreases w@.len() - i,
    {
        if s[start + i] != w[i] {
            proof {
                assert(s@.subrange(start as int, end as int)[i as int] != w@[i as int]);
            }
            return false;
        }
        i = i + 1;
    }
    assert(s@.subrange(start as int, end as int) =~= w@);
    true
}

/// The keyword spelled by `s[start..end]`, or `Ident`.
fn keyword(s: &Vec<char>, start: usize, end: usize) -> (k: TokenKind)
    requires
        start <= end <= s@.len(),
    ensures
        k == keyword_of(s@.subrange(start as int, end as int)),
{
    let input_w = ['i', 'n', 'p', 'u', 't'];
    let output_w = ['o', 'u', 't', 'p', 'u', 't'];
    let if_w = ['i', 'f'];
    let else_w = ['e', 'l', 's', 'e'];
    let while_w = ['w', 'h', 'i', 'l', 'e'];
    let return_w = ['r', 'e', 't', 'u', 'r', 'n'];
    let var_w = ['v', 'a', 'r'];
    let alloc_w = ['a', 'l', 'l', 'o', 'c'];
    let null_w = ['n', 'u', 'l', 'l'];
    assert(input_w@ =~= seq!['i', 'n', 'p', 'u', 't']);
    assert(output_w@ =~= seq!['o', 'u', 't', 'p', 'u', 't']);
    assert(if_w@ =~= seq!['i', 'f']);
    assert(else_w@ =~= seq!['e', 'l', 's', 'e']);
    assert(while_w@ =~= seq!['w', 'h', 'i', 'l', 'e']);
    assert(return_w@ =~= seq!['r', 'e', 't', 'u', 'r', 'n']);
    assert(var_w@ =~= seq!['v', 'a', 'r']);
    assert(alloc_w@ =~= seq!['a', 'l', 'l', 'o', 'c']);
    assert(null_w@ =~= seq!['n', 'u', 'l', 'l']);
    if spells(s, start, end, &input_w) {
        TokenKind::Input
    } else if spells(s, start, end, &output_w) {
        TokenKind::Output
    } else if spells(s, start, end, &if_w) {
        TokenKind::If
    } else if spells(s, start, end, &else_w) {
        TokenKind::Else
    } else if spells(s, start, end, &while_w) {
        TokenKind::While
    } else if spells(s, start, end, &return_w) {
        TokenKind::Return
    } else if spells(s, start, end, &var_w) {
        TokenKind::Var
    } else if spells(s, start, end, &alloc_w) {
        TokenKind::Alloc
    } else if spells(s, start, end, &null_w) {
        TokenKind::Null
    } else {
        TokenKind::Ident
    }
}

/// The characters of a text, in order.
pub(crate) fn chars_of(input: &str) -> (r: Vec<char>)
    ensures
        r@ == input@,
{
    let n = input.unicode_len();
    let mut v: Vec<char> = Vec::new();
    let mut i: usize = 0;
    while i < n
        invariant
            n == input@.len(),
            i <= n,
            v@ == input@.subrange(0, i as int),
        decreases n - i,
    {
        v.push(input.get_char(i));
        i = i + 1;
        assert(v@ =~= input@.subrange(0, i as int));
    }
    assert(input@.subrange(0, n as int) =~= input@);
    v
}

/// Splits `input` into its tokens measured in characters, whitespace included.
pub fn lexemes(input: &str) -> (r: Vec<Lexeme>)
    requires
        byte_len(input@) < u32::MAX,
    ensures
        r@.map_values(|t: Lexeme| lexeme_view(t)) == lex(input@),
{
    let mut cursor = Cursor::new(input);
    let mut out: Vec<Lexeme> = Vec::new();
    loop
        invariant
            cursor.wf(),
            cursor.text() == input@,
            0 <= cursor.position() <= input@.len(),
            out@.map_values(|t: Lexeme| lexeme_view(t)) + lex_from(input@, cursor.position()) == lex(
                input@,
            ),
        decreases input@.len() - cursor.position(),
    {
        let ghost before = cursor.position();
        let token = cursor.next_lexeme();
        if token.kind == TokenKind::Eof {
            proof {
                assert(lex_from(input@, before) =~= seq![]);
                assert(out@.map_values(|t: Lexeme| lexeme_view(t)) + seq![] =~= out@.map_values(
                    |t: Lexeme| lexeme_view(t),
                ));
            }
            return out;
        }
        proof {
            lemma_token_at_bound(input@, before);
        }
        let ghost old_out = out@;
        out.push(token);
        proof {
            assert(out@.map_values(|t: Lexeme| lexeme_view(t)) =~= old_out.map_values(
                |t: Lexeme| lexeme_view(t),
            ).push(lexeme_view(token)));
            assert(lex_from(input@, before) =~= seq![lexeme_view(token)] + lex_from(
                input@,
                cursor.position(),
            ));
            assert(out@.map_values(|t: Lexeme| lexeme_view(t)) + lex_from(input@, cursor.position())
                =~= old_out.map_values(|t: Lexeme| lexeme_view(t)) + lex_from(input@, before));
        }
    }
}

/// Splits `input` into its tokens, whitespace included, each measured in
/// bytes: the lengths add up to `input.len()`. The end of input is never
/// itself part of the result.
pub fn tokenize(input: &str) -> (r: Vec<Token>)
    requires
        byte_len(input@) < u32::MAX,
    ensures
        r@.map_values(|t: Token| token_view(t)) == lex_bytes(input@),
        total_len(r@.map_values(|t: Token| token_view(t))) == input.len(),
{
    let mut cursor = Cursor::new(input);
    let mut out: Vec<Token> = Vec::new();
    proof {
        lemma_tokens_cover_input(input@);
        assert(input.spec_bytes() == encode_utf8(input@));
    }
    loop
        invariant
            cursor.wf(),
            cursor.text() == input@,
            0 <= cursor.position() <= input@.len(),
            out@.map_values(|t: Token| token_view(t)) + lex_bytes_from(input@, cursor.position())
                == lex_bytes(input@),
            total_len(lex_bytes(input@)) == input.len(),
        decreases input@.len() - cursor.position(),
    {
        let ghost before = cursor.position();
        let token = cursor.advance_token();
        if token.kind == TokenKind::Eof {
            proof {
                assert(lex_bytes_from(input@, before) =~= seq![]);
                assert(out@.map_values(|t: Token| token_view(t)) + seq![] =~= out@.map_values(
                    |t: Token| token_view(t),
                ));
            }
            return out;
        }
        proof {
            lemma_token_at_bound(input@, before);
        }
        let ghost old_out = out@;
        out.push(token);
        proof {
            assert(out@.map_values(|t: Token| token_view(t)) =~= old_out.map_values(
                |t: Token| token_view(t),
            ).push(token_view(token)));
            assert(lex_bytes_from(input@, before) =~= seq![token_view(token)] + lex_bytes_from(
                input@,
                cursor.position(),
            ));
            assert(out@.map_values(|t: Token| token_view(t)) + lex_bytes_from(
                input@,
                cursor.position(),
            ) =~= old_out.map_values(|t: Token| token_view(t)) + lex_bytes_from(input@, before));
        }
    }
}

} // verus!
