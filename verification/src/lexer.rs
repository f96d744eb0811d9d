//! The lexer: turns source text into a stream of tokens, tracking a source
//! location through every character.

use vstd::prelude::*;
use vstd::string::StringExecFns;

use crate::loc::Loc;

verus! {

/// One token, tagged with the position it starts at.
#[derive(Debug)]
pub struct Token {
    pub loc: Loc,
    pub data: TokenData,
}

/// What a token is.
#[derive(Debug)]
pub enum TokenData {
    Name(String),
    LParen,
    RParen,
    StrLit(String),
    Semicolon,
    Let,
    Equals,
    Int(usize),
    Plus,
    Minus,
    Mult,
    Div,
    Less,
    EqEq,
    Greater,
    LtEq,
    GtEq,
    If,
    LCurly,
    RCurly,
    Else,
    Unless,
    While,
    Comma,
    Fun,
    Buf,
    Bang,
    Amp,
    Return,
}

/// The mathematical model of a [`TokenData`].
pub enum TokenDataV {
    Name(Seq<char>),
    LParen,
    RParen,
    StrLit(Seq<char>),
    Semicolon,
    Let,
    Equals,
    Int(nat),
    Plus,
    Minus,
    Mult,
    Div,
    Less,
    EqEq,
    Greater,
    LtEq,
    GtEq,
    If,
    LCurly,
    RCurly,
    Else,
    Unless,
    While,
    Comma,
    Fun,
    Buf,
    Bang,
    Amp,
    Return,
}

impl View for TokenData {
    type V = TokenDataV;

    open spec fn view(&self) -> TokenDataV {
        match self {
            TokenData::Name(s) => TokenDataV::Name(s.view()),
            TokenData::LParen => TokenDataV::LParen,
            TokenData::RParen => TokenDataV::RParen,
            TokenData::StrLit(s) => TokenDataV::StrLit(s.view()),
            TokenData::Semicolon => TokenDataV::Semicolon,
            TokenData::Let => TokenDataV::Let,
            TokenData::Equals => TokenDataV::Equals,
            TokenData::Int(n) => TokenDataV::Int(*n as nat),
            TokenData::Plus => TokenDataV::Plus,
            TokenData::Minus => TokenDataV::Minus,
            TokenData::Mult => TokenDataV::Mult,
            TokenData::Div => TokenDataV::Div,
            TokenData::Less => TokenDataV::Less,
            TokenData::EqEq => TokenDataV::EqEq,
            TokenData::Greater => TokenDataV::Greater,
            TokenData::LtEq => TokenDataV::LtEq,
            TokenData::GtEq => TokenDataV::GtEq,
            TokenData::If => TokenDataV::If,
            TokenData::LCurly => TokenDataV::LCurly,
            TokenData::RCurly => TokenDataV::RCurly,
            TokenData::Else => TokenDataV::Else,
            TokenData::Unless => TokenDataV::Unless,
            TokenData::While => TokenDataV::While,
            TokenData::Comma => TokenDataV::Comma,
            TokenData::Fun => TokenDataV::Fun,
            TokenData::Buf => TokenDataV::Buf,
            TokenData::Bang => TokenDataV::Bang,
            TokenData::Amp => TokenDataV::Amp,
            TokenData::Return => TokenDataV::Return,
        }
    }
}

// ---------------------------------------------------------------------------
// What the lexer produces, as a function of the input
// ---------------------------------------------------------------------------

/// An identifier may start with an alphabetic character or an underscore.
pub open spec fn name_start_char(c: char) -> bool {
    alpha_char(c) || c == '_'
}

/// After its first character, an identifier continues with alphanumeric
/// characters and underscores.
pub open spec fn name_cont_char(c: char) -> bool {
    alnum_char(c) || c == '_'
}

/// An ASCII decimal digit.
pub open spec fn digit_char(c: char) -> bool {
    48 <= c as u32 <= 57
}

/// The value of one decimal digit character.
pub open spec fn digit_char_val(c: char) -> nat {
    (c as u32 - 48) as nat
}

/// The value of a run of decimal digit characters, most significant first.
pub open spec fn digits_val(s: Seq<char>) -> nat
    decreases s,
{
    if s.len() == 0 {
        0
    } else {
        10 * digits_val(s.drop_last()) + digit_char_val(s.last())
    }
}

/// The first position at or after `p` that does not continue an identifier.
pub open spec fn name_end(code: Seq<char>, p: int) -> int
    decreases code.len() - p,
{
    if 0 <= p < code.len() && name_cont_char(code[p]) {
        name_end(code, p + 1)
    } else {
        p
    }
}

/// The first position at or after `p` that is not a decimal digit.
pub open spec fn digit_end(code: Seq<char>, p: int) -> int
    decreases code.len() - p,
{
    if 0 <= p < code.len() && digit_char(code[p]) {
        digit_end(code, p + 1)
    } else {
        p
    }
}

/// The position of the closing quote at or after `p`, or the end of the
/// input if the literal is unterminated.
pub open spec fn str_end(code: Seq<char>, p: int) -> int
    decreases code.len() - p,
{
    if 0 <= p < code.len() && code[p] != '"' {
        str_end(code, p + 1)
    } else {
        p
    }
}

/// Which keyword an identifier is, if any; anything else is a plain name.
pub open spec fn keyword_of(text: Seq<char>) -> TokenDataV {
    if text == "let".view() {
        TokenDataV::Let
    } else if text == "if".view() {
        TokenDataV::If
    } else if text == "else".view() {
        TokenDataV::Else
    } else if text == "unless".view() {
        TokenDataV::Unless
    } else if text == "while".view() {
        TokenDataV::While
    } else if text == "fun".view() {
        TokenDataV::Fun
    } else if text == "buf".view() {
        TokenDataV::Buf
    } else if text == "return".view() {
        TokenDataV::Return
    } else {
        TokenDataV::Name(text)
    }
}

/// What scanning from position `pos` yields: the end of the input, one
/// token (its start, its data, and the position just past it), or a lexical
/// error (its position and its message).
pub enum ScanResult {
    End,
    Tok(int, TokenDataV, int),
    Fail(int, Seq<char>),
}

/// Scan past whitespace and comments to the next token, then read it.
/// Two-character operators are single tokens; identifier, digit and
/// string-literal runs are maximal; a string literal at the end of the
/// input is closed implicitly; a digit run whose value exceeds a machine
/// word, or a character that starts no token, is a lexical error.
pub open spec fn scan(code: Seq<char>, pos: int) -> ScanResult
    decreases code.len() - pos,
{
    if !(0 <= pos < code.len()) {
        ScanResult::End
    } else if space_char(code[pos]) {
        scan(code, pos + 1)
    } else if code[pos] == '/' && pos + 1 < code.len() && code[pos + 1] == '/' {
        scan_comment(code, pos + 2)
    } else {
        let c = code[pos];
        if c == '(' {
            ScanResult::Tok(pos, TokenDataV::LParen, pos + 1)
        } else if c == ')' {
            ScanResult::Tok(pos, TokenDataV::RParen, pos + 1)
        } else if c == ';' {
            ScanResult::Tok(pos, TokenDataV::Semicolon, pos + 1)
        } else if c == '+' {
            ScanResult::Tok(pos, TokenDataV::Plus, pos + 1)
        } else if c == '-' {
            ScanResult::Tok(pos, TokenDataV::Minus, pos + 1)
        } else if c == '*' {
            ScanResult::Tok(pos, TokenDataV::Mult, pos + 1)
        } else if c == '{' {
            ScanResult::Tok(pos, TokenDataV::LCurly, pos + 1)
        } else if c == '}' {
            ScanResult::Tok(pos, TokenDataV::RCurly, pos + 1)
        } else if c == ',' {
            ScanResult::Tok(pos, TokenDataV::Comma, pos + 1)
        } else if c == '!' {
            ScanResult::Tok(pos, TokenDataV::Bang, pos + 1)
        } else if c == '&' {
            ScanResult::Tok(pos, TokenDataV::Amp, pos + 1)
        } else if c == '=' {
            if pos + 1 < code.len() && code[pos + 1] == '=' {
                ScanResult::Tok(pos, TokenDataV::EqEq, pos + 2)
            } else {
                ScanResult::Tok(pos, TokenDataV::Equals, pos + 1)
            }
        } else if c == '<' {
            if pos + 1 < code.len() && code[pos + 1] == '=' {
                ScanResult::Tok(pos, TokenDataV::LtEq, pos + 2)
            } else {
                ScanResult::Tok(pos, TokenDataV::Less, pos + 1)
            }
        } else if c == '>' {
            if pos + 1 < code.len() && code[pos + 1] == '=' {
                ScanResult::Tok(pos, TokenDataV::GtEq, pos + 2)
            } else {
                ScanResult::Tok(pos, TokenDataV::Greater, pos + 1)
            }
        } else if c == '/' {
            ScanResult::Tok(pos, TokenDataV::Div, pos + 1)
        } else if c == '"' {
            let close = str_end(code, pos + 1);
            let next = if close < code.len() {
                close + 1
            } else {
                close
            };
            ScanResult::Tok(pos, TokenDataV::StrLit(code.subrange(pos + 1, close)), next)
        } else if name_start_char(c) {
            let end = name_end(code, pos + 1);
            ScanResult::Tok(pos, keyword_of(code.subrange(pos, end)), end)
        } else if digit_char(c) {
            let end = digit_end(code, pos + 1);
            let value = digits_val(code.subrange(pos, end));
            if value <= usize::MAX {
                ScanResult::Tok(pos, TokenDataV::Int(value), end)
            } else {
                ScanResult::Fail(pos, "Integer literal too large".view())
            }
        } else {
            ScanResult::Fail(pos, "Invalid char: ".view() + seq![c])
        }
    }
}

/// Skip a comment: everything to the end of the line produces no token.
pub open spec fn scan_comment(code: Seq<char>, pos: int) -> ScanResult
    decreases code.len() - pos,
{
    if !(0 <= pos < code.len()) {
        ScanResult::End
    } else if code[pos] == '\n' {
        scan(code, pos + 1)
    } else {
        scan_comment(code, pos + 1)
    }
}

/// The line (one-based) that the `n`-th character of the input starts.
pub open spec fn line_of(code: Seq<char>, n: int) -> int
    decreases n,
{
    if n <= 0 {
        1
    } else if code[n - 1] == '\n' {
        line_of(code, n - 1) + 1
    } else {
        line_of(code, n - 1)
    }
}

/// The column (one-based) of the `n`-th character of the input.
pub open spec fn col_of(code: Seq<char>, n: int) -> int
    decreases n,
{
    if n <= 0 {
        1
    } else if code[n - 1] == '\n' {
        1
    } else {
        col_of(code, n - 1) + 1
    }
}

/// Whether a character counts as alphabetic for identifiers.
pub uninterp spec fn alpha_char(c: char) -> bool;

/// Whether a character counts as alphanumeric for identifiers.
pub uninterp spec fn alnum_char(c: char) -> bool;

/// Whether a character is whitespace.
pub uninterp spec fn space_char(c: char) -> bool;

/// Relies on char::is_alphabetic: whether the character has the Unicode
/// Alphabetic property. The result depends on the character alone.
#[verifier::external_body]
fn is_alphabetic_char(c: char) -> (r: bool)
    ensures
        r == alpha_char(c),
{
    c.is_alphabetic()
}

/// Relies on char::is_alphanumeric: whether the character is Unicode
/// alphanumeric. The result depends on the character alone.
#[verifier::external_body]
fn is_alphanumeric_char(c: char) -> (r: bool)
    ensures
        r == alnum_char(c),
{
    c.is_alphanumeric()
}

/// Relies on char::is_whitespace: whether the character has the Unicode
/// White_Space property. The result depends on the character alone.
#[verifier::external_body]
fn is_whitespace_char(c: char) -> (r: bool)
    ensures
        r == space_char(c),
{
    c.is_whitespace()
}

/// Relies on String::from_iter over a character iterator: the string holds
/// exactly the given characters, in order.
#[verifier::external_body]
fn chars_to_string(v: &Vec<char>) -> (r: String)
    ensures
        r.view() == v.view(),
{
    v.iter().collect()
}

/// The keywords of the language; anything else is a plain name.
fn keyword_or_name(name: String) -> (r: TokenData)
    ensures
        r.view() == keyword_of(name.view()),
{
    if name == "let".to_owned() {
        TokenData::Let
    } else if name == "if".to_owned() {
        TokenData::If
    } else if name == "else".to_owned() {
        TokenData::Else
    } else if name == "unless".to_owned() {
        TokenData::Unless
    } else if name == "while".to_owned() {
        TokenData::While
    } else if name == "fun".to_owned() {
        TokenData::Fun
    } else if name == "buf".to_owned() {
        TokenData::Buf
    } else if name == "return".to_owned() {
        TokenData::Return
    } else {
        TokenData::Name(name)
    }
}

/// The lexer's state: the source as characters, the position of the next
/// character to read, and the source location that position corresponds to.
pub struct Lexer {
    pub loc: Loc,
    pub code: Vec<char>,
    pub pos: usize,
}

impl Lexer {
    /// The position sits inside the source, and the tracked location agrees
    /// with it, with room to advance.
    pub open spec fn wf(&self) -> bool {
        &&& self.pos <= self.code.view().len()
        &&& self.code.view().len() <= usize::MAX - 2
        &&& self.loc.offset == self.pos
        &&& self.loc.line == line_of(self.code.view(), self.pos as int)
        &&& self.loc.col == col_of(self.code.view(), self.pos as int)
        &&& self.loc.line <= self.pos + 1
        &&& self.loc.col <= self.pos + 1
    }

    /// Start lexing the given characters of the file at `path`.
    pub fn from_iter(path: &String, iter: Vec<char>) -> (r: Lexer)
        requires
            iter.view().len() <= usize::MAX - 2,
        ensures
            r.wf(),
            r.pos == 0,
            r.code.view() == iter.view(),
    {
        Lexer { loc: Loc::new(path), code: iter, pos: 0 }
    }

    /// Consume one character, stepping the location past it.
    fn bump(&mut self) -> (c: char)
        requires
            old(self).wf(),
            old(self).pos < old(self).code.view().len(),
        ensures
            final(self).wf(),
            final(self).pos == old(self).pos + 1,
            final(self).code == old(self).code,
            final(self).loc.path == old(self).loc.path,
            c == old(self).code.view()[old(self).pos as int],
    {
        let c = self.code[self.pos];
        self.loc.advance(c);
        self.pos = self.pos + 1;
        c
    }

    /// The next character, if any, without consuming it.
    fn peek_char(&self) -> (r: Option<char>)
        requires
            self.wf(),
        ensures
            match r {
                Some(c) => self.pos < self.code.view().len() && c == self.code.view()[self.pos as int],
                None => self.pos == self.code.view().len(),
            },
    {
        if self.pos < self.code.len() {
            Some(self.code[self.pos])
        } else {
            None
        }
    }

    /// Produce the next token, exactly as [`scan`] reads it from the
    /// current position: whitespace and comments yield no token, `None`
    /// comes exactly at the end of the input, and a produced token or error
    /// carries the location of its first character.
    #[verifier::loop_isolation(false)]
    #[verifier::rlimit(100)]
    pub fn next_token(&mut self) -> (r: Option<Result<Token, (Loc, String)>>)
        requires
            old(self).wf(),
        ensures
            final(self).wf(),
            final(self).code == old(self).code,
            final(self).loc.path == old(self).loc.path,
            r is Some ==> final(self).pos > old(self).pos,
            r is None ==> final(self).pos == final(self).code.view().len(),
            match r {
                None => scan(old(self).code.view(), old(self).pos as int) is End,
                Some(Ok(t)) => scan(old(self).code.view(), old(self).pos as int) matches
                    ScanResult::Tok(start, td, next) && t.data.view() == td && t.loc.path == old(
                    self,
                ).loc.path && t.loc.offset == start && t.loc.line == line_of(
                    old(self).code.view(),
                    start,
                ) && t.loc.col == col_of(old(self).code.view(), start) && final(self).pos == next,
                Some(Err(e)) => scan(old(self).code.view(), old(self).pos as int) matches
                    ScanResult::Fail(start, m) && e.1.view() == m && e.0.path == old(
                    self,
                ).loc.path && e.0.offset == start && e.0.line == line_of(
                    old(self).code.view(),
                    start,
                ) && e.0.col == col_of(old(self).code.view(), start),
            },
    {
        loop
            invariant
                self.wf(),
                self.code == old(self).code,
                self.loc.path == old(self).loc.path,
                self.pos >= old(self).pos,
                scan(self.code.view(), old(self).pos as int) == scan(
                    self.code.view(),
                    self.pos as int,
                ),
            decreases self.code.view().len() - self.pos,
        {
            let ghost pos0 = self.pos as int;
            let c = match self.peek_char() {
                None => {
                    return None;
                },
                Some(c) => c,
            };
            if is_whitespace_char(c) {
                self.bump();
            } else {
                let tok_loc = self.loc.clone();
                let ch = self.bump();
                let data: TokenData = match ch {
                    '(' => TokenData::LParen,
                    ')' => TokenData::RParen,
                    ';' => TokenData::Semicolon,
                    '+' => TokenData::Plus,
                    '-' => TokenData::Minus,
                    '*' => TokenData::Mult,
                    '{' => TokenData::LCurly,
                    '}' => TokenData::RCurly,
                    ',' => TokenData::Comma,
                    '!' => TokenData::Bang,
                    '&' => TokenData::Amp,
                    '=' => {
                        if let Some('=') = self.peek_char() {
                            self.bump();
                            TokenData::EqEq
                        } else {
                            TokenData::Equals
                        }
                    },
                    '<' => {
                        if let Some('=') = self.peek_char() {
                            self.bump();
                            TokenData::LtEq
                        } else {
                            TokenData::Less
                        }
                    },
                    '>' => {
                        if let Some('=') = self.peek_char() {
                            self.bump();
                            TokenData::GtEq
                        } else {
                            TokenData::Greater
                        }
                    },
                    '/' => {
                        if let Some('/') = self.peek_char() {
                            // a comment runs to the end of the line
                            self.bump();
                            loop
                                invariant
                                    self.wf(),
                                    self.code == old(self).code,
                                    self.loc.path == old(self).loc.path,
                                    self.pos > pos0,
                                    self.pos > old(self).pos,
                                    scan(self.code.view(), pos0) == scan_comment(
                                        self.code.view(),
                                        self.pos as int,
                                    ),
                                decreases self.code.view().len() - self.pos,
                            {
                                match self.peek_char() {
                                    None => {
                                        return None;
                                    },
                                    Some(cc) => {
                                        self.bump();
                                        if cc == '\n' {
                                            break;
                                        }
                                    },
                                }
                            }
                            continue;
                        } else {
                            TokenData::Div
                        }
                    },
                    '"' => {
                        let mut text: Vec<char> = Vec::new();
                        proof {
                            assert(text.view() =~= self.code.view().subrange(
                                pos0 + 1,
                                pos0 + 1,
                            ));
                        }
                        loop
                            invariant
                                self.wf(),
                                self.code == old(self).code,
                                self.loc.path == old(self).loc.path,
                                self.pos > pos0,
                                self.pos > old(self).pos,
                                text.view() == self.code.view().subrange(
                                    pos0 + 1,
                                    self.pos as int,
                                ),
                                str_end(self.code.view(), pos0 + 1) == str_end(
                                    self.code.view(),
                                    self.pos as int,
                                ),
                            decreases self.code.view().len() - self.pos,
                        {
                            match self.peek_char() {
                                None => {
                                    break;
                                },
                                Some(cc) => {
                                    let ghost p = self.pos as int;
                                    self.bump();
                                    if cc == '"' {
                                        break;
                                    }
                                    text.push(cc);
                                    proof {
                                        assert(text.view() =~= self.code.view().subrange(
                                            pos0 + 1,
                                            self.pos as int,
                                        ));
                                    }
                                },
                            }
                        }
                        TokenData::StrLit(chars_to_string(&text))
                    },
                    _ => {
                        if is_alphabetic_char(ch) || ch == '_' {
                            let mut name: Vec<char> = Vec::new();
                            name.push(ch);
                            proof {
                                assert(name.view() =~= self.code.view().subrange(
                                    pos0,
                                    pos0 + 1,
                                ));
                            }
                            loop
                                invariant
                                    self.wf(),
                                    self.code == old(self).code,
                                    self.loc.path == old(self).loc.path,
                                    self.pos > pos0,
                                    self.pos > old(self).pos,
                                    name.view() == self.code.view().subrange(
                                        pos0,
                                        self.pos as int,
                                    ),
                                    name_end(self.code.view(), pos0 + 1) == name_end(
                                        self.code.view(),
                                        self.pos as int,
                                    ),
                                decreases self.code.view().len() - self.pos,
                            {
                                match self.peek_char() {
                                    None => {
                                        break;
                                    },
                                    Some(cc) => {
                                        if is_alphanumeric_char(cc) || cc == '_' {
                                            self.bump();
                                            name.push(cc);
                                            proof {
                                                assert(name.view() =~= self.code.view().subrange(
                                                    pos0,
                                                    self.pos as int,
                                                ));
                                            }
                                        } else {
                                            break;
                                        }
                                    },
                                }
                            }
                            keyword_or_name(chars_to_string(&name))
                        } else if (ch as u32) >= 48 && (ch as u32) <= 57 {
                            let mut value: usize = (ch as u32 as usize) - 48;
                            proof {
                                lemma_digit_end_bounds(self.code.view(), pos0 + 1);
                                assert(self.code.view().subrange(pos0, pos0 + 1).drop_last()
                                    =~= Seq::<char>::empty());
                                assert(self.code.view().subrange(pos0, pos0 + 1).last()
                                    == self.code.view()[pos0]);
                                assert(digits_val(Seq::<char>::empty()) == 0);
                                assert(value as nat == digits_val(
                                    self.code.view().subrange(pos0, pos0 + 1),
                                ));
                            }
                            loop
                                invariant
                                    self.wf(),
                                    self.code == old(self).code,
                                    self.loc.path == old(self).loc.path,
                                    self.pos > pos0,
                                    self.pos > old(self).pos,
                                    value as nat == digits_val(
                                        self.code.view().subrange(pos0, self.pos as int),
                                    ),
                                    digit_end(self.code.view(), pos0 + 1) == digit_end(
                                        self.code.view(),
                                        self.pos as int,
                                    ),
                                decreases self.code.view().len() - self.pos,
                            {
                                match self.peek_char() {
                                    None => {
                                        break;
                                    },
                                    Some(cc) => {
                                        if (cc as u32) >= 48 && (cc as u32) <= 57 {
                                            let d: usize = (cc as u32 as usize) - 48;
                                            let ghost p = self.pos as int;
                                            if value > (usize::MAX - d) / 10 {
                                                proof {
                                                    assert(10 * value + d > usize::MAX)
                                                        by (nonlinear_arith)
                                                        requires
                                                            value > (usize::MAX - d) / 10,
                                                            d <= usize::MAX,
                                                    ;
                                                    assert(self.code.view().subrange(
                                                        pos0,
                                                        p + 1,
                                                    ).drop_last() =~= self.code.view().subrange(
                                                        pos0,
                                                        p,
                                                    ));
                                                    assert(digits_val(
                                                        self.code.view().subrange(pos0, p + 1),
                                                    ) > usize::MAX);
                                                    lemma_digit_end_bounds(
                                                        self.code.view(),
                                                        p + 1,
                                                    );
                                                    lemma_digits_val_grow(
                                                        self.code.view(),
                                                        pos0,
                                                        p + 1,
                                                        digit_end(self.code.view(), p + 1),
                                                    );
                                                }
                                                return Some(
                                                    Err(
                                                        (
                                                            tok_loc,
                                                            "Integer literal too large".to_owned(),
                                                        ),
                                                    ),
                                                );
                                            }
                                            value = value * 10 + d;
                                            self.bump();
                                            proof {
                                                assert(self.code.view().subrange(
                                                    pos0,
                                                    p + 1,
                                                ).drop_last() =~= self.code.view().subrange(
                                                    pos0,
                                                    p,
                                                ));
                                            }
                                        } else {
                                            break;
                                        }
                                    },
                                }
                            }
                            TokenData::Int(value)
                        } else {
                            let mut one: Vec<char> = Vec::new();
                            one.push(ch);
                            let suffix = chars_to_string(&one);
                            let msg = "Invalid char: ".to_owned().concat(suffix.as_str());
                            proof {
                                assert(one.view() =~= seq![ch]);
                                assert(msg.view() == "Invalid char: ".view() + seq![ch]);
                            }
                            return Some(Err((tok_loc, msg)));
                        }
                    },
                };
                return Some(Ok(Token { loc: tok_loc, data }));
            }
        }
    }
}

/// Within a digit run, a longer prefix never has a smaller value.
proof fn lemma_digits_val_grow(code: Seq<char>, s: int, p: int, e: int)
    requires
        0 <= s <= p <= e <= code.len(),
    ensures
        digits_val(code.subrange(s, e)) >= digits_val(code.subrange(s, p)),
    decreases e - p,
{
    if p < e {
        lemma_digits_val_grow(code, s, p + 1, e);
        assert(code.subrange(s, p + 1).drop_last() =~= code.subrange(s, p));
        assert(code.subrange(s, p + 1).last() == code[p]);
    }
}

/// Where a digit run ends lies between its start and the end of the input.
proof fn lemma_digit_end_bounds(code: Seq<char>, p: int)
    requires
        0 <= p <= code.len(),
    ensures
        p <= digit_end(code, p) <= code.len(),
    decreases code.len() - p,
{
    if p < code.len() && digit_char(code[p]) {
        lemma_digit_end_bounds(code, p + 1);
    }
}

} // verus!
