use vstd::prelude::*;

use crate::error::CompileError;

verus! {

// ---------------------------------------------------------------------------
// Tokens
// ---------------------------------------------------------------------------

/// A lexical token: the keyword vocabulary, the four operator glyphs, a
/// named global slot with its fixed index, literals, punctuation and the
/// end-of-input sentinel. A numeric literal carries its exact spelling;
/// the compiler receives the double bit pattern of each spelling from the
/// driver.
#[derive(Debug)]
pub enum Token {
    Lock,
    In,
    Its,
    Over,
    Tralalero,
    Tralala,
    Fanumtax,
    Fr,
    Diddle,
    Say,
    Touchy,
    Retreat,
    Youshallnotpass,
    Ongod,
    No,
    Cap,
    Deadass,
    Skibidi,
    Rizzup,
    Ring,
    Yas,
    Add,
    Subtract,
    Multiply,
    Divide,
    Braincell(u8),
    Num(String),
    Str(String),
    Identifier(String),
    LParen,
    RParen,
    Comma,
    Eof,
}

/// The mathematical shape of a token: literal payloads as character
/// sequences.
pub enum TokenV {
    Lock,
    In,
    Its,
    Over,
    Tralalero,
    Tralala,
    Fanumtax,
    Fr,
    Diddle,
    Say,
    Touchy,
    Retreat,
    Youshallnotpass,
    Ongod,
    No,
    Cap,
    Deadass,
    Skibidi,
    Rizzup,
    Ring,
    Yas,
    Add,
    Subtract,
    Multiply,
    Divide,
    Braincell(u8),
    Num(Seq<char>),
    Str(Seq<char>),
    Identifier(Seq<char>),
    LParen,
    RParen,
    Comma,
    Eof,
}

impl View for Token {
    type V = TokenV;

    open spec fn view(&self) -> TokenV {
        match self {
            Token::Lock => TokenV::Lock,
            Token::In => TokenV::In,
            Token::Its => TokenV::Its,
            Token::Over => TokenV::Over,
            Token::Tralalero => TokenV::Tralalero,
            Token::Tralala => TokenV::Tralala,
            Token::Fanumtax => TokenV::Fanumtax,
            Token::Fr => TokenV::Fr,
            Token::Diddle => TokenV::Diddle,
            Token::Say => TokenV::Say,
            Token::Touchy => TokenV::Touchy,
            Token::Retreat => TokenV::Retreat,
            Token::Youshallnotpass => TokenV::Youshallnotpass,
            Token::Ongod => TokenV::Ongod,
            Token::No => TokenV::No,
            Token::Cap => TokenV::Cap,
            Token::Deadass => TokenV::Deadass,
            Token::Skibidi => TokenV::Skibidi,
            Token::Rizzup => TokenV::Rizzup,
            Token::Ring => TokenV::Ring,
            Token::Yas => TokenV::Yas,
            Token::Add => TokenV::Add,
            Token::Subtract => TokenV::Subtract,
            Token::Multiply => TokenV::Multiply,
            Token::Divide => TokenV::Divide,
            Token::Braincell(i) => TokenV::Braincell(*i),
            Token::Num(t) => TokenV::Num(t@),
            Token::Str(t) => TokenV::Str(t@),
            Token::Identifier(t) => TokenV::Identifier(t@),
            Token::LParen => TokenV::LParen,
            Token::RParen => TokenV::RParen,
            Token::Comma => TokenV::Comma,
            Token::Eof => TokenV::Eof,
        }
    }
}

pub open spec fn toks_v(s: Seq<Token>) -> Seq<TokenV> {
    s.map_values(|t: Token| t@)
}

// ---------------------------------------------------------------------------
// Character classes and the glyph vocabulary
// ---------------------------------------------------------------------------

/// Whitespace by the Unicode definition (the White_Space property).
pub open spec fn spec_is_ws(c: char) -> bool {
    let u = c as u32;
    (0x09 <= u && u <= 0x0D) || u == 0x20 || u == 0x85 || u == 0xA0 || u == 0x1680 || (0x2000 <= u
        && u <= 0x200A) || u == 0x2028 || u == 0x2029 || u == 0x202F || u == 0x205F || u == 0x3000
}

pub open spec fn spec_is_digit(c: char) -> bool {
    let u = c as u32;
    0x30 <= u && u <= 0x39
}

pub open spec fn spec_is_letter(c: char) -> bool {
    let u = c as u32;
    (0x41 <= u && u <= 0x5A) || (0x61 <= u && u <= 0x7A)
}

fn is_ws(c: char) -> (r: bool)
    ensures
        r == spec_is_ws(c),
{
    let u = c as u32;
    (0x09 <= u && u <= 0x0D) || u == 0x20 || u == 0x85 || u == 0xA0 || u == 0x1680 || (0x2000 <= u
        && u <= 0x200A) || u == 0x2028 || u == 0x2029 || u == 0x202F || u == 0x205F || u == 0x3000
}

fn is_digit(c: char) -> (r: bool)
    ensures
        r == spec_is_digit(c),
{
    let u = c as u32;
    0x30 <= u && u <= 0x39
}

fn is_letter(c: char) -> (r: bool)
    ensures
        r == spec_is_letter(c),
{
    let u = c as u32;
    (0x41 <= u && u <= 0x5A) || (0x61 <= u && u <= 0x7A)
}

// ---------------------------------------------------------------------------
// Positions for diagnostics
// ---------------------------------------------------------------------------

/// One-based line number of character position `p`.
pub open spec fn line_of(s: Seq<char>, p: int) -> nat
    decreases p,
{
    if p <= 0 {
        1
    } else {
        line_of(s, p - 1) + (if 0 < p <= s.len() && s[p - 1] == '\n' {
            1nat
        } else {
            0nat
        })
    }
}

/// One-based column number of character position `p`.
pub open spec fn col_of(s: Seq<char>, p: int) -> nat
    decreases p,
{
    if p <= 0 {
        1
    } else if 0 < p <= s.len() && s[p - 1] == '\n' {
        1
    } else {
        col_of(s, p - 1) + 1
    }
}

// ---------------------------------------------------------------------------
// The scanner, mathematically
// ---------------------------------------------------------------------------

/// Number of characters from `i` up to and including the next newline
/// (or to the end).
pub open spec fn line_rest(s: Seq<char>, i: nat) -> nat
    decreases s.len() - i,
{
    if i >= s.len() {
        0
    } else if s[i as int] == '\n' {
        1
    } else {
        1 + line_rest(s, i + 1)
    }
}

proof fn lemma_line_rest_le(s: Seq<char>, i: nat)
    requires
        i <= s.len(),
    ensures
        i + line_rest(s, i) <= s.len(),
    decreases s.len() - i,
{
    if i < s.len() && s[i as int] != '\n' {
        lemma_line_rest_le(s, i + 1);
    }
}

/// First position at or after `pos` that is neither whitespace nor inside
/// a comment line introduced by the comment glyph.
pub open spec fn skip_blank(s: Seq<char>, pos: nat) -> nat
    decreases s.len() - pos,
        via skip_blank_decreases
{
    if pos >= s.len() {
        pos
    } else if spec_is_ws(s[pos as int]) {
        skip_blank(s, pos + 1)
    } else if s[pos as int] == '\u{1F595}' {
        skip_blank(s, pos + 1 + line_rest(s, pos + 1))
    } else {
        pos
    }
}

#[via_fn]
proof fn skip_blank_decreases(s: Seq<char>, pos: nat) {
    if pos < s.len() {
        lemma_line_rest_le(s, pos + 1);
    }
}

proof fn lemma_skip_blank_ge(s: Seq<char>, pos: nat)
    ensures
        skip_blank(s, pos) >= pos,
    decreases s.len() - pos,
{
    if pos < s.len() {
        if spec_is_ws(s[pos as int]) {
            lemma_skip_blank_ge(s, pos + 1);
        } else if s[pos as int] == '\u{1F595}' {
            lemma_line_rest_le(s, pos + 1);
            lemma_skip_blank_ge(s, pos + 1 + line_rest(s, pos + 1));
        }
    }
}

/// Count of consecutive decimal digits starting at `i`.
pub open spec fn digits_len(s: Seq<char>, i: nat) -> nat
    decreases s.len() - i,
{
    if i >= s.len() || !spec_is_digit(s[i as int]) {
        0
    } else {
        1 + digits_len(s, i + 1)
    }
}

/// Count of consecutive ASCII letters starting at `i`.
pub open spec fn letters_len(s: Seq<char>, i: nat) -> nat
    decreases s.len() - i,
{
    if i >= s.len() || !spec_is_letter(s[i as int]) {
        0
    } else {
        1 + letters_len(s, i + 1)
    }
}

/// End position of a numeric literal starting at `p` (which holds a
/// digit): the digits, then optionally a point and more digits.
pub open spec fn num_end(s: Seq<char>, p: nat) -> nat {
    let q = p + digits_len(s, p);
    if q < s.len() && s[q as int] == '.' {
        q + 1 + digits_len(s, q + 1)
    } else {
        q
    }
}

/// Scanning the inside of a string literal from `i` (just past a quote or
/// consumed escape): the accumulated content and the position after the
/// closing quote, or a diagnostic at a position.
pub enum StrScanV {
    Done(Seq<char>, nat),
    Fail(Seq<char>, nat),
}

pub open spec fn scan_str(s: Seq<char>, i: nat) -> StrScanV
    decreases s.len() - i,
{
    if i >= s.len() {
        StrScanV::Fail("unterminated string"@, s.len())
    } else if s[i as int] == '"' {
        StrScanV::Done(Seq::empty(), i + 1)
    } else if s[i as int] == '\\' {
        if i + 1 >= s.len() {
            StrScanV::Fail("unexpected end of string"@, s.len())
        } else {
            let c = s[i as int + 1];
            if c == 'n' || c == 't' || c == '"' || c == '\\' {
                let decoded = if c == 'n' {
                    '\n'
                } else if c == 't' {
                    '\t'
                } else {
                    c
                };
                match scan_str(s, i + 2) {
                    StrScanV::Done(content, end) => StrScanV::Done(seq![decoded] + content, end),
                    StrScanV::Fail(m, p) => StrScanV::Fail(m, p),
                }
            } else {
                StrScanV::Fail("unknown escape sequence: \\"@.push(c), i + 1)
            }
        }
    } else {
        match scan_str(s, i + 1) {
            StrScanV::Done(content, end) => StrScanV::Done(seq![s[i as int]] + content, end),
            StrScanV::Fail(m, p) => StrScanV::Fail(m, p),
        }
    }
}

/// What an identifier word means: a keyword, a global slot name, or a
/// plain identifier.
pub open spec fn word_token(w: Seq<char>) -> TokenV {
    if w == "LOCK"@ {
        TokenV::Lock
    } else if w == "IN"@ {
        TokenV::In
    } else if w == "ITS"@ {
        TokenV::Its
    } else if w == "OVER"@ {
        TokenV::Over
    } else if w == "TRALALERO"@ {
        TokenV::Tralalero
    } else if w == "TRALALA"@ {
        TokenV::Tralala
    } else if w == "FANUMTAX"@ {
        TokenV::Fanumtax
    } else if w == "FR"@ {
        TokenV::Fr
    } else if w == "DIDDLE"@ {
        TokenV::Diddle
    } else if w == "SAY"@ {
        TokenV::Say
    } else if w == "TOUCHY"@ {
        TokenV::Touchy
    } else if w == "RETREAT"@ {
        TokenV::Retreat
    } else if w == "YOUSHALLNOTPASS"@ {
        TokenV::Youshallnotpass
    } else if w == "ONGOD"@ {
        TokenV::Ongod
    } else if w == "NO"@ {
        TokenV::No
    } else if w == "CAP"@ {
        TokenV::Cap
    } else if w == "DEADASS"@ {
        TokenV::Deadass
    } else if w == "SKIBIDI"@ {
        TokenV::Skibidi
    } else if w == "RIZZUP"@ {
        TokenV::Rizzup
    } else if w == "RING"@ {
        TokenV::Ring
    } else if w == "YAS"@ {
        TokenV::Yas
    } else if w == "aura"@ {
        TokenV::Braincell(0)
    } else if w == "peak"@ {
        TokenV::Braincell(1)
    } else if w == "goon"@ {
        TokenV::Braincell(2)
    } else if w == "mog"@ {
        TokenV::Braincell(3)
    } else if w == "npc"@ {
        TokenV::Braincell(4)
    } else if w == "sigma"@ {
        TokenV::Braincell(5)
    } else if w == "gyatt"@ {
        TokenV::Braincell(6)
    } else {
        TokenV::Identifier(w)
    }
}

/// The next token from position `pos`: the token and the position after
/// it, the end of input, or a diagnostic at a position.
pub enum NextV {
    Tok(TokenV, nat),
    End,
    Fail(Seq<char>, nat),
}

pub open spec fn spec_next(s: Seq<char>, pos: nat) -> NextV {
    let p = skip_blank(s, pos);
    if p >= s.len() {
        NextV::End
    } else {
        let c = s[p as int];
        if c == '\u{1F480}' {
            NextV::Tok(TokenV::Add, p + 1)
        } else if c == '\u{1F62D}' {
            NextV::Tok(TokenV::Subtract, p + 1)
        } else if c == '\u{1F60F}' {
            NextV::Tok(TokenV::Multiply, p + 1)
        } else if c == '\u{1F6A1}' {
            NextV::Tok(TokenV::Divide, p + 1)
        } else if c == '"' {
            match scan_str(s, p + 1) {
                StrScanV::Done(content, end) => NextV::Tok(TokenV::Str(content), end),
                StrScanV::Fail(m, ep) => NextV::Fail(m, ep),
            }
        } else if c == '(' {
            NextV::Tok(TokenV::LParen, p + 1)
        } else if c == ')' {
            NextV::Tok(TokenV::RParen, p + 1)
        } else if c == ',' {
            NextV::Tok(TokenV::Comma, p + 1)
        } else if spec_is_digit(c) {
            NextV::Tok(TokenV::Num(s.subrange(p as int, num_end(s, p) as int)), num_end(s, p))
        } else if spec_is_letter(c) {
            NextV::Tok(
                word_token(s.subrange(p as int, (p + letters_len(s, p)) as int)),
                p + letters_len(s, p),
            )
        } else {
            NextV::Fail("unexpected character: "@.push(c), p)
        }
    }
}


proof fn lemma_scan_str_advances(s: Seq<char>, i: nat)
    ensures
        scan_str(s, i) matches StrScanV::Done(_, end) ==> i < end <= s.len(),
    decreases s.len() - i,
{
    if i < s.len() && s[i as int] != '"' {
        if s[i as int] == '\\' {
            if i + 1 < s.len() {
                lemma_scan_str_advances(s, i + 2);
            }
        } else {
            lemma_scan_str_advances(s, i + 1);
        }
    }
}

proof fn lemma_digits_le(s: Seq<char>, i: nat)
    requires
        i <= s.len(),
    ensures
        i + digits_len(s, i) <= s.len(),
    decreases s.len() - i,
{
    if i < s.len() && spec_is_digit(s[i as int]) {
        lemma_digits_le(s, i + 1);
    }
}

proof fn lemma_letters_le(s: Seq<char>, i: nat)
    requires
        i <= s.len(),
    ensures
        i + letters_len(s, i) <= s.len(),
    decreases s.len() - i,
{
    if i < s.len() && spec_is_letter(s[i as int]) {
        lemma_letters_le(s, i + 1);
    }
}

proof fn lemma_next_advances(s: Seq<char>, pos: nat)
    ensures
        spec_next(s, pos) matches NextV::Tok(_, p2) ==> pos < p2 <= s.len(),
    decreases s.len() - pos,
{
    lemma_skip_blank_ge(s, pos);
    let p = skip_blank(s, pos);
    if p < s.len() {
        let c = s[p as int];
        if c == '"' {
            lemma_scan_str_advances(s, p + 1);
        }
        if spec_is_digit(c) {
            lemma_digits_le(s, p);
            let q = p + digits_len(s, p);
            if q < s.len() && s[q as int] == '.' {
                lemma_digits_le(s, q + 1);
            }
        }
        if spec_is_letter(c) {
            lemma_letters_le(s, p);
        }
    }
}

/// The whole token stream from `pos`: the tokens ending with the sentinel,
/// or the first diagnostic.
pub enum LexOutV {
    Toks(Seq<TokenV>),
    Fail(Seq<char>, nat),
}

pub open spec fn spec_tokenize(s: Seq<char>, pos: nat) -> LexOutV
    decreases s.len() - pos,
        via spec_tokenize_decreases
{
    match spec_next(s, pos) {
        NextV::End => LexOutV::Toks(seq![TokenV::Eof]),
        NextV::Fail(m, ep) => LexOutV::Fail(m, ep),
        NextV::Tok(t, p2) => match spec_tokenize(s, p2) {
            LexOutV::Toks(rest) => LexOutV::Toks(seq![t] + rest),
            LexOutV::Fail(m, ep) => LexOutV::Fail(m, ep),
        },
    }
}

#[via_fn]
proof fn spec_tokenize_decreases(s: Seq<char>, pos: nat) {
    lemma_next_advances(s, pos);
}


// ---------------------------------------------------------------------------
// The scanner, executably
// ---------------------------------------------------------------------------

/// First position at or after `pos` that is not whitespace.
pub open spec fn ws_end(s: Seq<char>, pos: nat) -> nat
    decreases s.len() - pos,
{
    if pos < s.len() && spec_is_ws(s[pos as int]) {
        ws_end(s, pos + 1)
    } else {
        pos
    }
}

/// The scanner state: the source as characters, the cursor, and the
/// position bookkeeping for diagnostics.
pub struct Lexer {
    pub chars: Vec<char>,
    pub position: usize,
    pub line: usize,
    pub col: usize,
    pub filename: String,
}

impl Lexer {
    /// Position bookkeeping is faithful to the character prefix read so
    /// far; lines and columns stay within machine range.
    pub open spec fn wf(self) -> bool {
        &&& self.position <= self.chars@.len()
        &&& self.line as nat == line_of(self.chars@, self.position as int)
        &&& self.col as nat == col_of(self.chars@, self.position as int)
        &&& self.chars@.len() < 0x7FFF_FFFF
    }

    pub fn new(chars: Vec<char>, filename: &str) -> (lx: Lexer)
        requires
            chars@.len() < 0x7FFF_FFFF,
        ensures
            lx.wf(),
            lx.chars@ == chars@,
            lx.position == 0,
            lx.filename@ == filename@,
    {
        Lexer { chars, position: 0, line: 1, col: 1, filename: filename.to_owned() }
    }

    pub fn current_char(&self) -> (c: char)
        requires
            self.position < self.chars@.len(),
        ensures
            c == self.chars@[self.position as int],
    {
        self.chars[self.position]
    }

    /// Steps past one character, keeping the line and column faithful.
    pub fn advance(&mut self)
        requires
            old(self).wf(),
            old(self).position < old(self).chars@.len(),
        ensures
            final(self).wf(),
            final(self).chars@ == old(self).chars@,
            final(self).filename@ == old(self).filename@,
            final(self).position == old(self).position + 1,
    {
        proof {
            vstd::arithmetic::power2::lemma2_to64_rest();
            lemma_line_col_bounds(self.chars@, self.position as int);
        }
        let ch = self.chars[self.position];
        if ch == '\n' {
            self.line = self.line + 1;
            self.col = 1;
        } else {
            self.col = self.col + 1;
        }
        self.position = self.position + 1;
    }

    /// Skips the whitespace under the cursor.
    pub fn skip_whitespace(&mut self)
        requires
            old(self).wf(),
        ensures
            final(self).wf(),
            final(self).chars@ == old(self).chars@,
            final(self).filename@ == old(self).filename@,
            final(self).position as nat == ws_end(old(self).chars@, old(self).position as nat),
    {
        while self.position < self.chars.len() && is_ws(self.chars[self.position])
            invariant
                self.wf(),
                self.chars@ == old(self).chars@,
                self.filename@ == old(self).filename@,
                ws_end(old(self).chars@, old(self).position as nat) == ws_end(
                    self.chars@,
                    self.position as nat,
                ),
            decreases self.chars@.len() - self.position,
        {
            self.advance();
        }
    }

    /// Skips up to and through the next line break.
    pub fn skip_line(&mut self)
        requires
            old(self).wf(),
        ensures
            final(self).wf(),
            final(self).chars@ == old(self).chars@,
            final(self).filename@ == old(self).filename@,
            final(self).position as nat == old(self).position as nat + line_rest(
                old(self).chars@,
                old(self).position as nat,
            ),
    {
        while self.position < self.chars.len() && self.chars[self.position] != '\n'
            invariant
                self.wf(),
                self.chars@ == old(self).chars@,
                self.filename@ == old(self).filename@,
                old(self).position as nat + line_rest(old(self).chars@, old(self).position as nat)
                    == self.position as nat + line_rest(self.chars@, self.position as nat),
            decreases self.chars@.len() - self.position,
        {
            self.advance();
        }
        if self.position < self.chars.len() {
            proof {
                assert(line_rest(self.chars@, self.position as nat) == 1);
            }
            self.advance();
        }
    }

    fn lex_error(&self, message: &str) -> (e: CompileError)
        ensures
            e.message@ == message@,
            e.line == self.line,
            e.col == self.col,
            e.filename@ == self.filename@,
    {
        CompileError::new(self.filename.as_str(), self.line, self.col, message)
    }
}

/// The bounds every faithful line and column obey: neither can exceed the
/// position it was reached at.
proof fn lemma_line_col_bounds(s: Seq<char>, p: int)
    requires
        0 <= p <= s.len(),
    ensures
        line_of(s, p) <= p + 1,
        col_of(s, p) <= p + 1,
    decreases p,
{
    if p > 0 {
        lemma_line_col_bounds(s, p - 1);
    }
}


proof fn lemma_ws_end(s: Seq<char>, pos: nat)
    requires
        pos <= s.len(),
    ensures
        pos <= ws_end(s, pos) <= s.len(),
        ws_end(s, pos) < s.len() ==> !spec_is_ws(s[ws_end(s, pos) as int]),
    decreases s.len() - pos,
{
    if pos < s.len() && spec_is_ws(s[pos as int]) {
        lemma_ws_end(s, pos + 1);
    }
}

proof fn lemma_skip_blank_ws(s: Seq<char>, pos: nat)
    requires
        pos <= s.len(),
    ensures
        skip_blank(s, pos) == skip_blank(s, ws_end(s, pos)),
    decreases s.len() - pos,
{
    if pos < s.len() && spec_is_ws(s[pos as int]) {
        lemma_skip_blank_ws(s, pos + 1);
    }
}

impl Lexer {
    /// Reads a string literal: the cursor is on the opening quote. The
    /// four escapes for newline, tab, quote and backslash are decoded; any
    /// other escape and a missing closing quote are lexical errors.
    #[verifier::loop_isolation(false)]
    pub fn read_string(&mut self) -> (r: Result<Token, CompileError>)
        requires
            old(self).wf(),
            old(self).position < old(self).chars@.len(),
            old(self).chars@[old(self).position as int] == '"',
        ensures
            final(self).wf(),
            final(self).chars@ == old(self).chars@,
            final(self).filename@ == old(self).filename@,
            final(self).position >= old(self).position,
            match r {
                Ok(tok) => (match scan_str(old(self).chars@, old(self).position as nat + 1) {
                    StrScanV::Done(content, end) => tok@ == TokenV::Str(content)
                        && final(self).position as nat == end,
                    StrScanV::Fail(_, _) => false,
                }),
                Err(e) => (match scan_str(old(self).chars@, old(self).position as nat + 1) {
                    StrScanV::Done(_, _) => false,
                    StrScanV::Fail(m, ep) => e.message@ == m && e.line as nat == line_of(
                        old(self).chars@,
                        ep as int,
                    ) && e.col as nat == col_of(old(self).chars@, ep as int) && e.filename@ == old(self).filename@,
                }),
            },
    {
        let ghost s = self.chars@;
        self.advance();
        let ghost i0 = self.position as nat;
        let mut result = String::new();
        while self.position < self.chars.len() && self.chars[self.position] != '"'
            invariant
                self.wf(),
                self.chars@ == s,
                self.filename@ == old(self).filename@,
                i0 <= self.position as nat,
                match scan_str(s, self.position as nat) {
                    StrScanV::Done(c2, e) => scan_str(s, i0) == StrScanV::Done(result@ + c2, e),
                    StrScanV::Fail(m, p) => scan_str(s, i0) == StrScanV::Fail(m, p),
                },
            decreases s.len() - self.position,
        {
            let ch = self.chars[self.position];
            let ghost i = self.position as nat;
            if ch == '\\' {
                self.advance();
                if self.position >= self.chars.len() {
                    return Err(self.lex_error("unexpected end of string"));
                }
                let esc = self.chars[self.position];
                let decoded = if esc == 'n' {
                    '\n'
                } else if esc == 't' {
                    '\t'
                } else if esc == '"' {
                    '"'
                } else if esc == '\\' {
                    '\\'
                } else {
                    let mut msg = "unknown escape sequence: \\".to_owned();
                    crate::text::push_char(&mut msg, esc);
                    return Err(self.lex_error(msg.as_str()));
                };
                let ghost r0 = result@;
                crate::text::push_char(&mut result, decoded);
                self.advance();
                proof {
                    if scan_str(s, self.position as nat) is Done {
                        let c2 = scan_str(s, self.position as nat)->Done_0;
                        assert(scan_str(s, i) == StrScanV::Done(
                            seq![decoded] + c2,
                            scan_str(s, self.position as nat)->Done_1,
                        ));
                        assert(r0 + (seq![decoded] + c2) =~= result@ + c2);
                    }
                }
            } else {
                let ghost r0 = result@;
                crate::text::push_char(&mut result, ch);
                self.advance();
                proof {
                    if scan_str(s, self.position as nat) is Done {
                        let c2 = scan_str(s, self.position as nat)->Done_0;
                        assert(scan_str(s, i) == StrScanV::Done(
                            seq![ch] + c2,
                            scan_str(s, self.position as nat)->Done_1,
                        ));
                        assert(r0 + (seq![ch] + c2) =~= result@ + c2);
                    }
                }
            }
        }
        if self.position >= self.chars.len() {
            return Err(self.lex_error("unterminated string"));
        }
        self.advance();
        proof {
            assert(result@ + Seq::<char>::empty() =~= result@);
        }
        Ok(Token::Str(result))
    }

    /// Reads a numeric literal's exact spelling: digits, optionally a
    /// point and more digits. The cursor is on the first digit.
    #[verifier::loop_isolation(false)]
    pub fn read_number(&mut self) -> (r: Result<Token, CompileError>)
        requires
            old(self).wf(),
            old(self).position < old(self).chars@.len(),
            spec_is_digit(old(self).chars@[old(self).position as int]),
        ensures
            final(self).wf(),
            final(self).chars@ == old(self).chars@,
            final(self).filename@ == old(self).filename@,
            final(self).position >= old(self).position,
            r matches Ok(tok) && tok@ == TokenV::Num(
                old(self).chars@.subrange(
                    old(self).position as int,
                    num_end(old(self).chars@, old(self).position as nat) as int,
                ),
            ) && final(self).position as nat == num_end(
                old(self).chars@,
                old(self).position as nat,
            ),
    {
        let ghost s = self.chars@;
        let ghost start = self.position as nat;
        let mut text = String::new();
        proof {
            assert(text@ =~= s.subrange(start as int, start as int));
        }
        while self.position < self.chars.len() && is_digit(self.chars[self.position])
            invariant
                self.wf(),
                self.chars@ == s,
                self.filename@ == old(self).filename@,
                start <= self.position as nat,
                text@ == s.subrange(start as int, self.position as int),
                digits_len(s, start) == (self.position as nat - start) + digits_len(
                    s,
                    self.position as nat,
                ),
            decreases s.len() - self.position,
        {
            proof {
                assert(s.subrange(start as int, self.position as int + 1) =~= s.subrange(
                    start as int,
                    self.position as int,
                ).push(s[self.position as int]));
            }
            crate::text::push_char(&mut text, self.chars[self.position]);
            self.advance();
        }
        proof {
            assert(digits_len(s, self.position as nat) == 0);
        }
        if self.position < self.chars.len() && self.chars[self.position] == '.' {
            proof {
                assert(s.subrange(start as int, self.position as int + 1) =~= s.subrange(
                    start as int,
                    self.position as int,
                ).push(s[self.position as int]));
            }
            crate::text::push_char(&mut text, '.');
            self.advance();
            let ghost q1 = self.position as nat;
            while self.position < self.chars.len() && is_digit(self.chars[self.position])
                invariant
                    self.wf(),
                    self.chars@ == s,
                    self.filename@ == old(self).filename@,
                    q1 <= self.position as nat,
                    text@ == s.subrange(start as int, self.position as int),
                    digits_len(s, q1) == (self.position as nat - q1) + digits_len(
                        s,
                        self.position as nat,
                    ),
                decreases s.len() - self.position,
            {
                proof {
                    assert(s.subrange(start as int, self.position as int + 1) =~= s.subrange(
                        start as int,
                        self.position as int,
                    ).push(s[self.position as int]));
                }
                crate::text::push_char(&mut text, self.chars[self.position]);
                self.advance();
            }
            proof {
                assert(digits_len(s, self.position as nat) == 0);
            }
        }
        Ok(Token::Num(text))
    }

    /// Reads an identifier word and classifies it: keyword, global slot
    /// name, or plain identifier.
    #[verifier::loop_isolation(false)]
    pub fn read_identifier(&mut self) -> (r: Result<Token, CompileError>)
        requires
            old(self).wf(),
            old(self).position < old(self).chars@.len(),
            spec_is_letter(old(self).chars@[old(self).position as int]),
        ensures
            final(self).wf(),
            final(self).chars@ == old(self).chars@,
            final(self).filename@ == old(self).filename@,
            final(self).position >= old(self).position,
            r matches Ok(tok) && tok@ == word_token(
                old(self).chars@.subrange(
                    old(self).position as int,
                    old(self).position as int + letters_len(
                        old(self).chars@,
                        old(self).position as nat,
                    ) as int,
                ),
            ) && final(self).position as nat == old(self).position as nat + letters_len(
                old(self).chars@,
                old(self).position as nat,
            ),
    {
        let ghost s = self.chars@;
        let ghost start = self.position as nat;
        let mut word = String::new();
        proof {
            assert(word@ =~= s.subrange(start as int, start as int));
        }
        while self.position < self.chars.len() && is_letter(self.chars[self.position])
            invariant
                self.wf(),
                self.chars@ == s,
                self.filename@ == old(self).filename@,
                start <= self.position as nat,
                word@ == s.subrange(start as int, self.position as int),
                letters_len(s, start) == (self.position as nat - start) + letters_len(
                    s,
                    self.position as nat,
                ),
            decreases s.len() - self.position,
        {
            proof {
                assert(s.subrange(start as int, self.position as int + 1) =~= s.subrange(
                    start as int,
                    self.position as int,
                ).push(s[self.position as int]));
            }
            crate::text::push_char(&mut word, self.chars[self.position]);
            self.advance();
        }
        proof {
            assert(letters_len(s, self.position as nat) == 0);
        }
        let w = word.as_str();
        let tok = if crate::text::str_eq(w, "LOCK") {
            Token::Lock
        } else if crate::text::str_eq(w, "IN") {
            Token::In
        } else if crate::text::str_eq(w, "ITS") {
            Token::Its
        } else if crate::text::str_eq(w, "OVER") {
            Token::Over
        } else if crate::text::str_eq(w, "TRALALERO") {
            Token::Tralalero
        } else if crate::text::str_eq(w, "TRALALA") {
            Token::Tralala
        } else if crate::text::str_eq(w, "FANUMTAX") {
            Token::Fanumtax
        } else if crate::text::str_eq(w, "FR") {
            Token::Fr
        } else if crate::text::str_eq(w, "DIDDLE") {
            Token::Diddle
        } else if crate::text::str_eq(w, "SAY") {
            Token::Say
        } else if crate::text::str_eq(w, "TOUCHY") {
            Token::Touchy
        } else if crate::text::str_eq(w, "RETREAT") {
            Token::Retreat
        } else if crate::text::str_eq(w, "YOUSHALLNOTPASS") {
            Token::Youshallnotpass
        } else if crate::text::str_eq(w, "ONGOD") {
            Token::Ongod
        } else if crate::text::str_eq(w, "NO") {
            Token::No
        } else if crate::text::str_eq(w, "CAP") {
            Token::Cap
        } else if crate::text::str_eq(w, "DEADASS") {
            Token::Deadass
        } else if crate::text::str_eq(w, "SKIBIDI") {
            Token::Skibidi
        } else if crate::text::str_eq(w, "RIZZUP") {
            Token::Rizzup
        } else if crate::text::str_eq(w, "RING") {
            Token::Ring
        } else if crate::text::str_eq(w, "YAS") {
            Token::Yas
        } else if crate::text::str_eq(w, "aura") {
            Token::Braincell(0)
        } else if crate::text::str_eq(w, "peak") {
            Token::Braincell(1)
        } else if crate::text::str_eq(w, "goon") {
            Token::Braincell(2)
        } else if crate::text::str_eq(w, "mog") {
            Token::Braincell(3)
        } else if crate::text::str_eq(w, "npc") {
            Token::Braincell(4)
        } else if crate::text::str_eq(w, "sigma") {
            Token::Braincell(5)
        } else if crate::text::str_eq(w, "gyatt") {
            Token::Braincell(6)
        } else {
            Token::Identifier(word)
        };
        Ok(tok)
    }

    /// Scans the next token: skips whitespace and comment lines, then
    /// reads exactly what [`spec_next`] describes at the cursor.
    pub fn next_token(&mut self) -> (r: Result<Token, CompileError>)
        requires
            old(self).wf(),
        ensures
            final(self).wf(),
            final(self).chars@ == old(self).chars@,
            final(self).filename@ == old(self).filename@,
            final(self).position >= old(self).position,
            match r {
                Ok(tok) => (match spec_next(old(self).chars@, old(self).position as nat) {
                    NextV::Tok(tv, p2) => tok@ == tv && final(self).position as nat == p2,
                    NextV::End => tok@ == TokenV::Eof,
                    NextV::Fail(_, _) => false,
                }),
                Err(e) => (match spec_next(old(self).chars@, old(self).position as nat) {
                    NextV::Fail(m, ep) => e.message@ == m && e.line as nat == line_of(
                        old(self).chars@,
                        ep as int,
                    ) && e.col as nat == col_of(old(self).chars@, ep as int) && e.filename@ == old(self).filename@,
                    _ => false,
                }),
            },
        decreases old(self).chars@.len() - old(self).position,
    {
        let ghost s = self.chars@;
        let ghost pos0 = self.position as nat;
        self.skip_whitespace();
        proof {
            lemma_ws_end(s, pos0);
            lemma_skip_blank_ws(s, pos0);
        }
        if self.position >= self.chars.len() {
            return Ok(Token::Eof);
        }
        let ch = self.chars[self.position];
        if ch == '\u{1F595}' {
            let ghost q = self.position as nat;
            self.skip_line();
            proof {
                assert(line_rest(s, q) == 1 + line_rest(s, q + 1));
                assert(skip_blank(s, q) == skip_blank(s, q + 1 + line_rest(s, q + 1)));
                lemma_skip_blank_ge(s, self.position as nat);
            }
            return self.next_token();
        }
        proof {
            assert(skip_blank(s, self.position as nat) == self.position as nat);
            assert(skip_blank(s, pos0) == self.position as nat);
        }
        if ch == '\u{1F480}' {
            self.advance();
            return Ok(Token::Add);
        }
        if ch == '\u{1F62D}' {
            self.advance();
            return Ok(Token::Subtract);
        }
        if ch == '\u{1F60F}' {
            self.advance();
            return Ok(Token::Multiply);
        }
        if ch == '\u{1F6A1}' {
            self.advance();
            return Ok(Token::Divide);
        }
        if ch == '"' {
            return self.read_string();
        }
        if ch == '(' {
            self.advance();
            return Ok(Token::LParen);
        }
        if ch == ')' {
            self.advance();
            return Ok(Token::RParen);
        }
        if ch == ',' {
            self.advance();
            return Ok(Token::Comma);
        }
        if is_digit(ch) {
            return self.read_number();
        }
        if is_letter(ch) {
            return self.read_identifier();
        }
        let mut msg = "unexpected character: ".to_owned();
        crate::text::push_char(&mut msg, ch);
        Err(self.lex_error(msg.as_str()))
    }
}

/// Scans the whole source into tokens ending with the sentinel, or stops
/// at the first lexical error with its position.
#[verifier::loop_isolation(false)]
pub fn tokenize(input: &str, filename: &str) -> (r: Result<Vec<Token>, CompileError>)
    requires
        input@.len() < 0x7FFF_FFFF,
    ensures
        match r {
            Ok(toks) => spec_tokenize(input@, 0) == LexOutV::Toks(toks_v(toks@)),
            Err(e) => spec_tokenize(input@, 0) matches LexOutV::Fail(m, ep) && e.message@ == m
                && e.line as nat == line_of(input@, ep as int) && e.col as nat == col_of(
                input@,
                ep as int,
            ) && e.filename@ == filename@,
        },
{
    let n = input.unicode_len();
    let mut chars: Vec<char> = Vec::new();
    let mut i: usize = 0;
    while i < n
        invariant
            i <= n,
            n == input@.len(),
            chars@ == input@.take(i as int),
        decreases n - i,
    {
        proof {
            assert(input@.take(i as int + 1) =~= input@.take(i as int).push(input@[i as int]));
        }
        chars.push(input.get_char(i));
        i = i + 1;
    }
    proof {
        assert(input@.take(n as int) =~= input@);
    }
    let ghost s = input@;
    let mut lexer = Lexer::new(chars, filename);
    let mut tokens: Vec<Token> = Vec::new();
    let mut done = false;
    while !done
        invariant
            lexer.wf(),
            lexer.chars@ == s,
            lexer.filename@ == filename@,
            !done ==> (match spec_tokenize(s, lexer.position as nat) {
                LexOutV::Toks(rest) => spec_tokenize(s, 0) == LexOutV::Toks(
                    toks_v(tokens@) + rest,
                ),
                LexOutV::Fail(m, p) => spec_tokenize(s, 0) == LexOutV::Fail(m, p),
            }),
            done ==> spec_tokenize(s, 0) == LexOutV::Toks(toks_v(tokens@)),
        decreases s.len() - lexer.position + (if done {
            0int
        } else {
            1int
        }),
    {
        let ghost posb = lexer.position as nat;
        let token = match lexer.next_token() {
            Ok(t) => t,
            Err(e) => {
                return Err(e);
            },
        };
        proof {
            lemma_next_advances(s, posb);
        }
        let is_eof = match &token {
            Token::Eof => true,
            _ => false,
        };
        let ghost t0 = tokens@;
        tokens.push(token);
        proof {
            assert(toks_v(tokens@) =~= toks_v(t0).push(tokens@.last()@));
        }
        if is_eof {
            proof {
                assert(spec_tokenize(s, posb) == LexOutV::Toks(seq![TokenV::Eof]));
                assert(toks_v(t0) + seq![TokenV::Eof] =~= toks_v(tokens@));
            }
            done = true;
        } else {
            proof {
                let p2 = spec_next(s, posb)->Tok_1;
                if spec_tokenize(s, p2) is Toks {
                    let rest2 = spec_tokenize(s, p2)->Toks_0;
                    assert(spec_tokenize(s, posb) == LexOutV::Toks(
                        seq![tokens@.last()@] + rest2,
                    ));
                    assert(toks_v(t0) + (seq![tokens@.last()@] + rest2) =~= toks_v(tokens@)
                        + rest2);
                }
            }
        }
    }
    Ok(tokens)
}


/// A token the scanner can produce: a slot token carries one of the seven
/// indices, and an identifier never spells a slot name.
pub open spec fn tokv_wf(t: TokenV) -> bool {
    match t {
        TokenV::Braincell(b) => b < 7,
        TokenV::Identifier(n) => crate::compiler::spec_braincell_index(n) is None,
        _ => true,
    }
}

proof fn lemma_word_token_wf(w: Seq<char>)
    ensures
        tokv_wf(word_token(w)),
{
}

proof fn lemma_next_wf(s: Seq<char>, pos: nat)
    ensures
        spec_next(s, pos) matches NextV::Tok(t, _) ==> tokv_wf(t),
{
    let p = skip_blank(s, pos);
    if p < s.len() && spec_is_letter(s[p as int]) {
        lemma_word_token_wf(s.subrange(p as int, (p + letters_len(s, p)) as int));
    }
}

/// Every token of a successful scan is well formed.
pub proof fn lemma_tokenize_wf(s: Seq<char>, pos: nat)
    ensures
        spec_tokenize(s, pos) is Toks ==> forall|k: int|
            0 <= k < spec_tokenize(s, pos)->Toks_0.len() ==> tokv_wf(
                #[trigger] spec_tokenize(s, pos)->Toks_0[k],
            ),
    decreases s.len() - pos,
{
    lemma_next_advances(s, pos);
    match spec_next(s, pos) {
        NextV::End => {
        },
        NextV::Fail(_, _) => {
        },
        NextV::Tok(t, p2) => {
            lemma_next_wf(s, pos);
            lemma_tokenize_wf(s, p2);
            if spec_tokenize(s, p2) is Toks {
                let rest = spec_tokenize(s, p2)->Toks_0;
                assert forall|k: int| 0 <= k < (seq![t] + rest).len() implies tokv_wf(
                    #[trigger] (seq![t] + rest)[k],
                ) by {
                    if k > 0 {
                        assert((seq![t] + rest)[k] == rest[k - 1]);
                    }
                }
            }
        },
    }
}

} // verus!
