//! The lexical scanner: turns source text into a finite, non-restartable
//! sequence of tokens, tracking line numbers for diagnostics.

use vstd::prelude::*;

verus! {

#[derive(Clone, Copy, Debug, Hash, PartialEq, Eq, Structural)]
pub enum TokenKind {
    Minus,
    Plus,
    Star,
    Slash,
    LParen,
    RParen,
    Number,
    Eof,
}

/// The mathematical content of a token: kind, source line, and lexeme.
pub ghost struct TokenModel {
    pub kind: TokenKind,
    pub line: usize,
    pub lexeme: Seq<char>,
}

/// An atomic lexical unit. The lexeme is the literal text span the token
/// was scanned from.
#[derive(Debug, Clone)]
pub struct Token {
    pub kind: TokenKind,
    pub line: usize,
    pub lexeme: String,
}

impl View for Token {
    type V = TokenModel;

    open spec fn view(&self) -> TokenModel {
        TokenModel { kind: self.kind, line: self.line, lexeme: self.lexeme@ }
    }
}

impl Token {
    pub fn new(kind: TokenKind, line: usize, lexeme: &str) -> (t: Token)
        ensures
            t@ == (TokenModel { kind, line, lexeme: lexeme@ }),
    {
        Token { kind, line, lexeme: lexeme.to_owned() }
    }
}

impl PartialEq for Token {
    fn eq(&self, other: &Token) -> (r: bool) {
        self.kind == other.kind && self.line == other.line && self.lexeme == other.lexeme
    }
}

impl vstd::std_specs::cmp::PartialEqSpecImpl for Token {
    open spec fn obeys_eq_spec() -> bool {
        true
    }

    open spec fn eq_spec(&self, other: &Token) -> bool {
        self.kind == other.kind && self.line == other.line && self.lexeme@ == other.lexeme@
    }
}

pub open spec fn is_digit_char(c: char) -> bool {
    '0' <= c && c <= '9'
}

/// A character that may continue a number lexeme: a digit or a dot.
pub open spec fn is_number_char(c: char) -> bool {
    is_digit_char(c) || c == '.'
}

/// The Unicode white-space code points.
pub open spec fn is_space_char(c: char) -> bool {
    ('\u{9}' <= c && c <= '\u{d}') || c == ' ' || c == '\u{85}' || c == '\u{a0}' || c
        == '\u{1680}' || ('\u{2000}' <= c && c <= '\u{200a}') || c == '\u{2028}' || c == '\u{2029}'
        || c == '\u{202f}' || c == '\u{205f}' || c == '\u{3000}'
}

/// Which single characters form a one-character token, and of which kind.
pub open spec fn single_kind(c: char) -> Option<TokenKind> {
    if c == '-' {
        Some(TokenKind::Minus)
    } else if c == '+' {
        Some(TokenKind::Plus)
    } else if c == '*' {
        Some(TokenKind::Star)
    } else if c == '/' {
        Some(TokenKind::Slash)
    } else if c == '(' {
        Some(TokenKind::LParen)
    } else if c == ')' {
        Some(TokenKind::RParen)
    } else {
        None
    }
}

/// The first position at or after `i` that does not continue a number.
pub open spec fn number_end(s: Seq<char>, i: int) -> int
    recommends
        0 <= i <= s.len(),
    decreases s.len() - i,
{
    if i < 0 || i >= s.len() {
        s.len() as int
    } else if is_number_char(s[i]) {
        number_end(s, i + 1)
    } else {
        i
    }
}

pub proof fn lemma_number_end_bounds(s: Seq<char>, i: int)
    requires
        0 <= i <= s.len(),
    ensures
        i <= number_end(s, i) <= s.len(),
    decreases s.len() - i,
{
    if i < s.len() && is_number_char(s[i]) {
        lemma_number_end_bounds(s, i + 1);
    }
}

/// The scanning state: a cursor into the source, the current line, and
/// whether the terminating token has been produced.
pub ghost struct ScannerModel {
    pub src: Seq<char>,
    pub pos: int,
    pub line: usize,
    pub finished: bool,
}

impl ScannerModel {
    pub open spec fn wf(self) -> bool {
        &&& 0 <= self.pos <= self.src.len()
        &&& self.src.len() + 2 <= usize::MAX
        &&& 1 <= self.line
        &&& !self.finished ==> self.line <= self.pos + 1
    }
}

/// How many more tokens scanning can still produce, at most.
pub open spec fn scan_measure(m: ScannerModel) -> int {
    if m.finished {
        0
    } else {
        m.src.len() - m.pos + 1
    }
}

/// One scanning step: the next token (if any) and the state after it.
///
/// Single characters of the operator set form one-character tokens; a digit
/// starts a number whose lexeme extends through digits and dots; a newline
/// bumps the line counter; other white space is skipped; anything else, or
/// the end of the text, yields the one terminating `Eof` token, whose line
/// is one past the last line seen. After `Eof`, nothing follows.
pub open spec fn spec_scan_next(m: ScannerModel) -> (Option<TokenModel>, ScannerModel)
    recommends
        m.wf(),
    decreases m.src.len() - m.pos,
{
    if m.finished {
        (None, m)
    } else if m.pos < 0 || m.pos >= m.src.len() {
        (
            Some(
                TokenModel {
                    kind: TokenKind::Eof,
                    line: (m.line + 1) as usize,
                    lexeme: Seq::<char>::empty(),
                },
            ),
            ScannerModel { line: (m.line + 1) as usize, finished: true, ..m },
        )
    } else {
        let c = m.src[m.pos];
        match single_kind(c) {
            Some(k) => (
                Some(
                    TokenModel {
                        kind: k,
                        line: m.line,
                        lexeme: m.src.subrange(m.pos, m.pos + 1),
                    },
                ),
                ScannerModel { pos: m.pos + 1, ..m },
            ),
            None => {
                if is_digit_char(c) {
                    let e = number_end(m.src, m.pos + 1);
                    (
                        Some(
                            TokenModel {
                                kind: TokenKind::Number,
                                line: m.line,
                                lexeme: m.src.subrange(m.pos, e),
                            },
                        ),
                        ScannerModel { pos: e, ..m },
                    )
                } else if c == '\n' {
                    spec_scan_next(
                        ScannerModel { pos: m.pos + 1, line: (m.line + 1) as usize, ..m },
                    )
                } else if is_space_char(c) {
                    spec_scan_next(ScannerModel { pos: m.pos + 1, ..m })
                } else {
                    (
                        Some(
                            TokenModel {
                                kind: TokenKind::Eof,
                                line: (m.line + 1) as usize,
                                lexeme: m.src.subrange(m.pos, m.pos + 1),
                            },
                        ),
                        ScannerModel {
                            pos: m.pos + 1,
                            line: (m.line + 1) as usize,
                            finished: true,
                            ..m
                        },
                    )
                }
            },
        }
    }
}

/// Scanning one token keeps the state well-formed and strictly shrinks the
/// measure; a finished scanner yields nothing and stays put.
pub proof fn lemma_scan_next_progress(m: ScannerModel)
    requires
        m.wf(),
    ensures
        ({
            let (t, m2) = spec_scan_next(m);
            &&& m2.wf()
            &&& m2.src == m.src
            &&& !m.finished ==> t is Some && scan_measure(m2) < scan_measure(m)
            &&& m.finished ==> t is None && m2 == m
        }),
    decreases m.src.len() - m.pos,
{
    if !m.finished && 0 <= m.pos < m.src.len() {
        let c = m.src[m.pos];
        if single_kind(c) is None && !is_digit_char(c) && (c == '\n' || is_space_char(c)) {
            if c == '\n' {
                lemma_scan_next_progress(
                    ScannerModel { pos: m.pos + 1, line: (m.line + 1) as usize, ..m },
                );
            } else {
                lemma_scan_next_progress(ScannerModel { pos: m.pos + 1, ..m });
            }
        }
        if single_kind(c) is None && is_digit_char(c) {
            lemma_number_end_bounds(m.src, m.pos + 1);
        }
    }
}

/// The whole token sequence a scanner state still has to give.
pub open spec fn token_stream(m: ScannerModel) -> Seq<TokenModel>
    decreases scan_measure(m),
    when m.wf()
    via token_stream_dec
{
    if m.finished {
        Seq::<TokenModel>::empty()
    } else {
        match spec_scan_next(m) {
            (Some(t), m2) => seq![t] + token_stream(m2),
            (None, m2) => Seq::<TokenModel>::empty(),
        }
    }
}

#[via_fn]
proof fn token_stream_dec(m: ScannerModel) {
    lemma_scan_next_progress(m);
}

/// A scanner produces no more tokens than its measure.
pub proof fn lemma_token_stream_len(m: ScannerModel)
    requires
        m.wf(),
    ensures
        token_stream(m).len() <= scan_measure(m),
    decreases scan_measure(m),
{
    if !m.finished {
        lemma_scan_next_progress(m);
        let (t, m2) = spec_scan_next(m);
        lemma_token_stream_len(m2);
    }
}

fn is_digit(c: char) -> (r: bool)
    ensures
        r == is_digit_char(c),
{
    let u = c as u32;
    48 <= u && u <= 57
}

fn is_number_part(c: char) -> (r: bool)
    ensures
        r == is_number_char(c),
{
    let u = c as u32;
    (48 <= u && u <= 57) || u == 46
}

fn is_space(c: char) -> (r: bool)
    ensures
        r == is_space_char(c),
{
    let u = c as u32;
    (9 <= u && u <= 13) || u == 32 || u == 0x85 || u == 0xa0 || u == 0x1680 || (0x2000 <= u && u
        <= 0x200a) || u == 0x2028 || u == 0x2029 || u == 0x202f || u == 0x205f || u == 0x3000
}

/// The view of an optional token.
pub open spec fn opt_token_view(r: Option<Token>) -> Option<TokenModel> {
    match r {
        Some(t) => Some(t@),
        None => None,
    }
}

/// A lazy, finite, non-restartable producer of tokens. Once the `Eof` token
/// has been handed out, every further call yields `None`; a fresh scanner
/// must be constructed to rescan.
#[derive(Clone)]
pub struct Scanner<'a> {
    source: &'a str,
    pos: usize,
    line: usize,
    finished: bool,
}

impl<'a> View for Scanner<'a> {
    type V = ScannerModel;

    closed spec fn view(&self) -> ScannerModel {
        ScannerModel {
            src: self.source@,
            pos: self.pos as int,
            line: self.line,
            finished: self.finished,
        }
    }
}

impl<'a> Scanner<'a> {
    pub fn new(source: &'a str) -> (s: Scanner<'a>)
        requires
            source@.len() + 2 <= usize::MAX,
        ensures
            s@ == (ScannerModel { src: source@, pos: 0, line: 1, finished: false }),
            s@.wf(),
    {
        Scanner { source, pos: 0, line: 1, finished: false }
    }

    fn make_token(&self, kind: TokenKind, start: usize, end: usize) -> (t: Token)
        requires
            start <= end <= self@.src.len(),
        ensures
            t@ == (TokenModel {
                kind,
                line: self@.line,
                lexeme: self@.src.subrange(start as int, end as int),
            }),
    {
        Token::new(kind, self.line, self.source.substring_char(start, end))
    }

    /// Produce the next token, or `None` once the stream has terminated.
    pub fn next(&mut self) -> (r: Option<Token>)
        requires
            old(self)@.wf(),
        ensures
            final(self)@.wf(),
            opt_token_view(r) == spec_scan_next(old(self)@).0,
            final(self)@ == spec_scan_next(old(self)@).1,
    {
        loop
            invariant
                self@.wf(),
                spec_scan_next(self@) == spec_scan_next(old(self)@),
            decreases self@.src.len() - self@.pos,
        {
            if self.finished {
                return None;
            }
            let n = self.source.unicode_len();
            if self.pos >= n {
                let line2 = self.line + 1;
                self.line = line2;
                self.finished = true;
                proof {
                    reveal_strlit("");
                    assert(""@ =~= Seq::<char>::empty());
                }
                return Some(Token::new(TokenKind::Eof, line2, ""));
            }
            let c = self.source.get_char(self.pos);
            if c == '-' || c == '+' || c == '*' || c == '/' || c == '(' || c == ')' {
                let kind = if c == '-' {
                    TokenKind::Minus
                } else if c == '+' {
                    TokenKind::Plus
                } else if c == '*' {
                    TokenKind::Star
                } else if c == '/' {
                    TokenKind::Slash
                } else if c == '(' {
                    TokenKind::LParen
                } else {
                    TokenKind::RParen
                };
                let t = self.make_token(kind, self.pos, self.pos + 1);
                self.pos = self.pos + 1;
                return Some(t);
            } else if is_digit(c) {
                let start = self.pos;
                let mut e = start + 1;
                while e < n && is_number_part(self.source.get_char(e))
                    invariant
                        start + 1 <= e <= n,
                        n == self@.src.len(),
                        self@.wf(),
                        number_end(self@.src, start + 1) == number_end(self@.src, e as int),
                    decreases n - e,
                {
                    e = e + 1;
                }
                let t = self.make_token(TokenKind::Number, start, e);
                self.pos = e;
                return Some(t);
            } else if c == '\n' {
                self.line = self.line + 1;
                self.pos = self.pos + 1;
            } else if is_space(c) {
                self.pos = self.pos + 1;
            } else {
                let line2 = self.line + 1;
                self.line = line2;
                let t = self.make_token(TokenKind::Eof, self.pos, self.pos + 1);
                self.pos = self.pos + 1;
                self.finished = true;
                return Some(t);
            }
        }
    }
}

} // verus!
