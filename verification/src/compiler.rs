//! The parser/compiler: consumes the token sequence with one-token lookahead
//! and precedence climbing, emitting a flat, ordered instruction list.

use vstd::prelude::*;

use crate::code::{Code, DecLit, Lit, OpCode};
use crate::scanner::{
    is_digit_char, lemma_scan_next_progress, lemma_token_stream_len, scan_measure, token_stream,
    ScannerModel, Scanner, Token, TokenKind, TokenModel,
};
use crate::InterpretError;

verus! {

/// Binding strength, ascending: `+ -` bind at `Term`, `* /` at `Factor`,
/// unary `-` at `Unary`, tighter than any binary operator.
#[derive(Clone, Copy, Debug)]
pub enum Precedence {
    NoBind,
    Assignment,
    Term,
    Factor,
    Unary,
}

/// The numeric rank of a precedence level, used for comparisons and for
/// computing "next higher precedence" by increment.
pub open spec fn spec_rank(p: Precedence) -> u8 {
    match p {
        Precedence::NoBind => 0,
        Precedence::Assignment => 1,
        Precedence::Term => 2,
        Precedence::Factor => 3,
        Precedence::Unary => 4,
    }
}

pub fn rank(p: Precedence) -> (r: u8)
    ensures
        r == spec_rank(p),
{
    match p {
        Precedence::NoBind => 0,
        Precedence::Assignment => 1,
        Precedence::Term => 2,
        Precedence::Factor => 3,
        Precedence::Unary => 4,
    }
}

/// How a token is interpreted when it starts an expression.
#[derive(Clone, Copy, Debug)]
pub enum Rule {
    Unary,
    Grouping,
    Number,
}

/// How one token kind parses: its optional prefix handler, whether it is an
/// infix operator, and its binding strength.
#[derive(Clone, Copy, Debug)]
pub struct ParseRule {
    pub prefix: Option<Rule>,
    pub infix: bool,
    pub precedence: Precedence,
}

impl ParseRule {
    pub fn new(prefix: Option<Rule>, infix: bool, precedence: Precedence) -> (r: ParseRule)
        ensures
            r == (ParseRule { prefix, infix, precedence }),
    {
        ParseRule { prefix, infix, precedence }
    }
}

/// The fixed dispatch table, keyed by token kind.
pub open spec fn spec_rule_of(k: TokenKind) -> ParseRule {
    match k {
        TokenKind::LParen => ParseRule {
            prefix: Some(Rule::Grouping),
            infix: false,
            precedence: Precedence::NoBind,
        },
        TokenKind::RParen => ParseRule {
            prefix: None,
            infix: false,
            precedence: Precedence::NoBind,
        },
        TokenKind::Minus => ParseRule {
            prefix: Some(Rule::Unary),
            infix: true,
            precedence: Precedence::Term,
        },
        TokenKind::Plus => ParseRule { prefix: None, infix: true, precedence: Precedence::Term },
        TokenKind::Star => ParseRule { prefix: None, infix: true, precedence: Precedence::Factor },
        TokenKind::Slash => ParseRule {
            prefix: None,
            infix: true,
            precedence: Precedence::Factor,
        },
        TokenKind::Number => ParseRule {
            prefix: Some(Rule::Number),
            infix: false,
            precedence: Precedence::NoBind,
        },
        TokenKind::Eof => ParseRule { prefix: None, infix: false, precedence: Precedence::NoBind },
    }
}

pub fn rule_of(k: TokenKind) -> (r: ParseRule)
    ensures
        r == spec_rule_of(k),
{
    match k {
        TokenKind::LParen => ParseRule::new(Some(Rule::Grouping), false, Precedence::NoBind),
        TokenKind::RParen => ParseRule::new(None, false, Precedence::NoBind),
        TokenKind::Minus => ParseRule::new(Some(Rule::Unary), true, Precedence::Term),
        TokenKind::Plus => ParseRule::new(None, true, Precedence::Term),
        TokenKind::Star => ParseRule::new(None, true, Precedence::Factor),
        TokenKind::Slash => ParseRule::new(None, true, Precedence::Factor),
        TokenKind::Number => ParseRule::new(Some(Rule::Number), false, Precedence::NoBind),
        TokenKind::Eof => ParseRule::new(None, false, Precedence::NoBind),
    }
}

/// The opcode a binary operator token compiles to.
pub open spec fn opcode_of(k: TokenKind) -> OpCode {
    match k {
        TokenKind::Plus => OpCode::Add,
        TokenKind::Minus => OpCode::Sub,
        TokenKind::Star => OpCode::Mul,
        TokenKind::Slash => OpCode::Div,
        _ => OpCode::Return,
    }
}

fn opcode_for(k: TokenKind) -> (r: OpCode)
    ensures
        r == opcode_of(k),
{
    match k {
        TokenKind::Plus => OpCode::Add,
        TokenKind::Minus => OpCode::Sub,
        TokenKind::Star => OpCode::Mul,
        TokenKind::Slash => OpCode::Div,
        _ => OpCode::Return,
    }
}

pub open spec fn all_digits(s: Seq<char>) -> bool {
    forall|k: int| 0 <= k < s.len() ==> is_digit_char(s[k])
}

/// The number a digit string denotes, most significant digit first.
pub open spec fn digits_val(s: Seq<char>) -> int
    decreases s.len(),
{
    if s.len() == 0 {
        0
    } else {
        digits_val(s.drop_last()) * 10 + (s.last() as int - '0' as int)
    }
}

/// The first position at or after `i` holding a dot, or the length.
pub open spec fn find_dot(s: Seq<char>, i: int) -> int
    decreases s.len() - i,
{
    if i < 0 || i >= s.len() {
        s.len() as int
    } else if s[i] == '.' {
        i
    } else {
        find_dot(s, i + 1)
    }
}

/// The constant a number lexeme denotes: with no dot, an integer; with a
/// dot, a decimal literal split at the first dot. `None` when the shape is
/// not `digit+ ('.' digit*)` or a part does not fit its carrier.
pub open spec fn lit_of(lex: Seq<char>) -> Option<Lit> {
    let d = find_dot(lex, 0);
    if d == lex.len() {
        if lex.len() >= 1 && all_digits(lex) && digits_val(lex) <= i64::MAX {
            Some(Lit::Int(digits_val(lex) as i64))
        } else {
            None
        }
    } else {
        let ip = lex.subrange(0, d);
        let fp = lex.subrange(d + 1, lex.len() as int);
        if ip.len() >= 1 && all_digits(ip) && all_digits(fp) && digits_val(ip) <= u64::MAX
            && digits_val(fp) <= u64::MAX && fp.len() <= u32::MAX {
            Some(
                Lit::Dec(
                    DecLit {
                        ipart: digits_val(ip) as u64,
                        fpart: digits_val(fp) as u64,
                        flen: fp.len() as u32,
                    },
                ),
            )
        } else {
            None
        }
    }
}

/// A digit string's value is non-negative, and no prefix exceeds the whole.
proof fn lemma_digits_prefix_le(s: Seq<char>, j: int)
    requires
        all_digits(s),
        0 <= j <= s.len(),
    ensures
        0 <= digits_val(s.take(j)),
        digits_val(s.take(j)) <= digits_val(s),
    decreases s.len(),
{
    if s.len() == 0 {
        assert(s.take(j) =~= s);
    } else if j == s.len() {
        assert(s.take(j) =~= s);
        lemma_digits_prefix_le(s.drop_last(), j - 1);
    } else {
        assert(s.drop_last().take(j) =~= s.take(j));
        lemma_digits_prefix_le(s.drop_last(), j);
        assert(is_digit_char(s.last()));
        assert(digits_val(s) == digits_val(s.drop_last()) * 10 + (s.last() as int - '0' as int));
    }
}

/// Parse the digits of `s` in `[from, to)` as a number of at most `bound`.
fn parse_digits(s: &str, from: usize, to: usize, bound: u64) -> (r: Option<u64>)
    requires
        from <= to <= s@.len(),
        bound >= 9,
    ensures
        ({
            let part = s@.subrange(from as int, to as int);
            match r {
                Some(v) => all_digits(part) && v == digits_val(part) && v <= bound,
                None => !(all_digits(part) && digits_val(part) <= bound),
            }
        }),
{
    let ghost part = s@.subrange(from as int, to as int);
    let mut acc: u64 = 0;
    let mut k = from;
    while k < to
        invariant
            from <= k <= to <= s@.len(),
            bound >= 9,
            part == s@.subrange(from as int, to as int),
            all_digits(s@.subrange(from as int, k as int)),
            acc == digits_val(s@.subrange(from as int, k as int)),
            acc <= bound,
        decreases to - k,
    {
        let c = s.get_char(k);
        let u = c as u32;
        if !(48 <= u && u <= 57) {
            proof {
                assert(part[k - from] == c);
                assert(!is_digit_char(c));
            }
            return None;
        }
        let d: u64 = (u - 48) as u64;
        proof {
            assert(s@.subrange(from as int, k + 1).drop_last() =~= s@.subrange(
                from as int,
                k as int,
            ));
            assert(s@.subrange(from as int, k + 1).last() == c);
        }
        if acc > (bound - d) / 10 {
            proof {
                let full = digits_val(part);
                assert(digits_val(s@.subrange(from as int, k + 1)) == acc * 10 + d);
                assert(acc * 10 + d > bound);
                if all_digits(part) {
                    assert(part.take(k + 1 - from) =~= s@.subrange(from as int, k + 1));
                    lemma_digits_prefix_le(part, k + 1 - from);
                }
            }
            return None;
        }
        proof {
            assert(acc * 10 + d <= bound) by {
                let q = ((bound - d) / 10) as int;
                assert(10 * q <= bound - d);
                assert(acc <= q);
                assert(10 * (acc as int) <= 10 * q);
            }
        }
        acc = acc * 10 + d;
        k = k + 1;
    }
    proof {
        assert(s@.subrange(from as int, k as int) =~= part);
    }
    Some(acc)
}

/// Convert a number lexeme to the constant it denotes.
fn lit_from_lexeme(lex: &str) -> (r: Option<Lit>)
    ensures
        r == lit_of(lex@),
{
    let n = lex.unicode_len();
    let mut d: usize = 0;
    while d < n && lex.get_char(d) != '.'
        invariant
            0 <= d <= n,
            n == lex@.len(),
            find_dot(lex@, 0) == find_dot(lex@, d as int),
        decreases n - d,
    {
        d = d + 1;
    }
    if d == n {
        if n == 0 {
            return None;
        }
        proof {
            assert(lex@.subrange(0, n as int) =~= lex@);
        }
        match parse_digits(lex, 0, n, 0x7fff_ffff_ffff_ffff) {
            Some(v) => Some(Lit::Int(v as i64)),
            None => None,
        }
    } else {
        let flen_us = n - (d + 1);
        if d == 0 || flen_us > 0xffff_ffff {
            return None;
        }
        match parse_digits(lex, 0, d, u64::MAX) {
            Some(ipv) => match parse_digits(lex, d + 1, n, u64::MAX) {
                Some(fpv) => Some(Lit::Dec(DecLit { ipart: ipv, fpart: fpv, flen: flen_us as u32 })),
                None => None,
            },
            None => None,
        }
    }
}

/// The rank an expression is parsed at by default.
pub const RANK_ASSIGNMENT: u8 = 1;

/// The rank a unary operand is parsed at: tighter than any binary operator.
pub const RANK_UNARY: u8 = 4;

/// The outcome of one parsing step over a token sequence: the instructions
/// it emitted, the index of the next unconsumed token, and the line of the
/// compile failure, if there was one.
pub ghost struct PRes {
    pub emitted: Seq<Code>,
    pub next: int,
    pub err: Option<usize>,
}

/// The source line at a token position, for diagnostics.
pub open spec fn line_at(ts: Seq<TokenModel>, i: int) -> usize {
    if 0 <= i < ts.len() {
        ts[i].line
    } else {
        1
    }
}

/// The token models of a scanned token vector.
pub open spec fn tvs(ts: Seq<Token>) -> Seq<TokenModel> {
    ts.map_values(|t: Token| t@)
}

/// Parse at a minimum binding rank: consume one token, dispatch on its
/// prefix rule (a number, a unary minus, or a group are the only legal
/// expression starters), then fold in infix operators binding at least as
/// tightly as `min`. The fuel only serves the definition; any amount at
/// least three per remaining token is enough.
pub open spec fn sp_prec(ts: Seq<TokenModel>, i: int, min: u8, fuel: nat) -> PRes
    decreases fuel,
{
    if fuel == 0 {
        PRes { emitted: Seq::<Code>::empty(), next: i, err: Some(line_at(ts, i)) }
    } else if i < 0 || i >= ts.len() {
        PRes { emitted: Seq::<Code>::empty(), next: i + 1, err: Some(1usize) }
    } else {
        let t = ts[i];
        let p = match spec_rule_of(t.kind).prefix {
            Some(Rule::Number) => sp_number(ts, i + 1),
            Some(Rule::Unary) => sp_unary(ts, i + 1, (fuel - 1) as nat),
            Some(Rule::Grouping) => sp_grouping(ts, i + 1, (fuel - 1) as nat),
            None => PRes { emitted: Seq::<Code>::empty(), next: i + 1, err: Some(t.line) },
        };
        if p.err is Some {
            p
        } else {
            let q = sp_infix(ts, p.next, min, (fuel - 1) as nat);
            PRes { emitted: p.emitted + q.emitted, next: q.next, err: q.err }
        }
    }
}

/// While the current token is an operator binding at least as tightly as
/// `min`, consume it and compile its right-hand operand.
pub open spec fn sp_infix(ts: Seq<TokenModel>, j: int, min: u8, fuel: nat) -> PRes
    decreases fuel,
{
    if fuel == 0 {
        PRes { emitted: Seq::<Code>::empty(), next: j, err: Some(line_at(ts, j)) }
    } else if j < 0 || j >= ts.len() {
        PRes { emitted: Seq::<Code>::empty(), next: j, err: None }
    } else if spec_rank(spec_rule_of(ts[j].kind).precedence) >= min {
        let b = sp_binary(ts, j + 1, (fuel - 1) as nat);
        if b.err is Some {
            b
        } else {
            let rest = sp_infix(ts, b.next, min, (fuel - 1) as nat);
            PRes { emitted: b.emitted + rest.emitted, next: rest.next, err: rest.err }
        }
    } else {
        PRes { emitted: Seq::<Code>::empty(), next: j, err: None }
    }
}

/// A unary minus: compile the operand at `Unary` rank, then emit `Negate`,
/// tagged with the operator's line. `ts[i1 - 1]` is the minus itself.
pub open spec fn sp_unary(ts: Seq<TokenModel>, i1: int, fuel: nat) -> PRes
    decreases fuel,
{
    if fuel == 0 {
        PRes { emitted: Seq::<Code>::empty(), next: i1, err: Some(line_at(ts, i1)) }
    } else {
        let r = sp_prec(ts, i1, RANK_UNARY, (fuel - 1) as nat);
        if r.err is Some {
            r
        } else {
            PRes {
                emitted: r.emitted + seq![
                    Code { code: OpCode::Negate, line: line_at(ts, i1 - 1) },
                ],
                next: r.next,
                err: None,
            }
        }
    }
}

/// A binary operator: compile the right-hand operand one rank above the
/// operator's own (which makes same-rank operators left-associative), then
/// emit the matching instruction. `ts[j1 - 1]` is the operator.
pub open spec fn sp_binary(ts: Seq<TokenModel>, j1: int, fuel: nat) -> PRes
    decreases fuel,
{
    if fuel == 0 {
        PRes { emitted: Seq::<Code>::empty(), next: j1, err: Some(line_at(ts, j1)) }
    } else {
        let k = line_at(ts, j1 - 1);
        let kind = if 0 <= j1 - 1 < ts.len() {
            ts[j1 - 1].kind
        } else {
            TokenKind::Eof
        };
        let r = sp_prec(ts, j1, (spec_rank(spec_rule_of(kind).precedence) + 1) as u8, (fuel
            - 1) as nat);
        if r.err is Some {
            r
        } else {
            PRes {
                emitted: r.emitted + seq![Code { code: opcode_of(kind), line: k }],
                next: r.next,
                err: None,
            }
        }
    }
}

/// A number token compiles to one `Constant`; a lexeme that denotes no
/// representable constant is a compile failure. `ts[i1 - 1]` is the number.
pub open spec fn sp_number(ts: Seq<TokenModel>, i1: int) -> PRes {
    let line = line_at(ts, i1 - 1);
    let lex = if 0 <= i1 - 1 < ts.len() {
        ts[i1 - 1].lexeme
    } else {
        Seq::<char>::empty()
    };
    match lit_of(lex) {
        Some(l) => PRes {
            emitted: seq![Code { code: OpCode::Constant(l), line: line }],
            next: i1,
            err: None,
        },
        None => PRes { emitted: Seq::<Code>::empty(), next: i1, err: Some(line) },
    }
}

/// A group: compile a full expression, then require and consume the closing
/// parenthesis; the group itself emits nothing.
pub open spec fn sp_grouping(ts: Seq<TokenModel>, i1: int, fuel: nat) -> PRes
    decreases fuel,
{
    if fuel == 0 {
        PRes { emitted: Seq::<Code>::empty(), next: i1, err: Some(line_at(ts, i1)) }
    } else {
        let r = sp_prec(ts, i1, RANK_ASSIGNMENT, (fuel - 1) as nat);
        if r.err is Some {
            r
        } else if 0 <= r.next < ts.len() && ts[r.next].kind == TokenKind::RParen {
            PRes { emitted: r.emitted, next: r.next + 1, err: None }
        } else {
            PRes { emitted: r.emitted, next: r.next, err: Some(line_at(ts, r.next)) }
        }
    }
}

/// Enough fuel to compile any expression over `ts`.
pub open spec fn prog_fuel(ts: Seq<TokenModel>) -> nat {
    (3 * ts.len() + 3) as nat
}

/// The whole compilation of a token stream: an empty stream is just the
/// terminating `Return`; otherwise one full expression must reach the
/// end-of-input token, and the `Return` is tagged with its line.
pub open spec fn sp_program(ts: Seq<TokenModel>) -> Result<Seq<Code>, usize> {
    if ts.len() == 0 {
        Err(1usize)
    } else if ts[0].kind == TokenKind::Eof {
        Ok(seq![Code { code: OpCode::Return, line: ts[0].line }])
    } else {
        let r = sp_prec(ts, 0, RANK_ASSIGNMENT, prog_fuel(ts));
        match r.err {
            Some(line) => Err(line),
            None => {
                if 0 <= r.next < ts.len() && ts[r.next].kind == TokenKind::Eof {
                    Ok(r.emitted + seq![Code { code: OpCode::Return, line: ts[r.next].line }])
                } else {
                    Err(line_at(ts, r.next))
                }
            },
        }
    }
}

/// The scanner state a source text is scanned from.
pub open spec fn scan_init(src: Seq<char>) -> ScannerModel {
    ScannerModel { src, pos: 0, line: 1, finished: false }
}

/// What compiling a source text yields: its instruction sequence, or the
/// line of the failure.
pub open spec fn compile_spec(src: Seq<char>) -> Result<Seq<Code>, usize> {
    sp_program(token_stream(scan_init(src)))
}

/// Splicing: when `b` extends `a` and `c` extends `b`, what `c` adds over
/// `a` is what `b` added, then what `c` added.
proof fn lemma_splice<T>(a: Seq<T>, b: Seq<T>, c: Seq<T>)
    requires
        a.len() <= b.len() <= c.len(),
        b.take(a.len() as int) == a,
        c.take(b.len() as int) == b,
    ensures
        c.take(a.len() as int) == a,
        c.skip(a.len() as int) == b.skip(a.len() as int) + c.skip(b.len() as int),
{
    assert(c.take(a.len() as int) =~= a);
    assert(c.skip(a.len() as int) =~= b.skip(a.len() as int) + c.skip(b.len() as int));
}

fn line_of(ts: &Vec<Token>, i: usize) -> (l: usize)
    ensures
        l == line_at(tvs(ts@), i as int),
{
    if i < ts.len() {
        ts[i].line
    } else {
        1
    }
}

fn number_rule(ts: &Vec<Token>, i1: usize, out: &mut Vec<Code>) -> (r: (usize, Option<usize>))
    requires
        1 <= i1 <= ts@.len(),
    ensures
        final(out)@.len() >= old(out)@.len(),
        final(out)@.take(old(out)@.len() as int) == old(out)@,
        r.0 == i1,
        sp_number(tvs(ts@), i1 as int) == (PRes {
            emitted: final(out)@.skip(old(out)@.len() as int),
            next: r.0 as int,
            err: r.1,
        }),
{
    let t = &ts[i1 - 1];
    let res = lit_from_lexeme(t.lexeme.as_str());
    match res {
        Some(l) => {
            out.push(Code { code: OpCode::Constant(l), line: t.line });
            proof {
                assert(out@.skip(old(out)@.len() as int) =~= seq![
                    Code { code: OpCode::Constant(l), line: t.line },
                ]);
                assert(out@.take(old(out)@.len() as int) =~= old(out)@);
            }
            (i1, None)
        },
        None => {
            proof {
                assert(out@.skip(old(out)@.len() as int) =~= Seq::<Code>::empty());
            }
            (i1, Some(t.line))
        },
    }
}

fn unary_rule(ts: &Vec<Token>, i1: usize, out: &mut Vec<Code>) -> (r: (usize, Option<usize>))
    requires
        1 <= i1 <= ts@.len(),
        ts@.len() + 1 <= usize::MAX,
    ensures
        final(out)@.len() >= old(out)@.len(),
        final(out)@.take(old(out)@.len() as int) == old(out)@,
        i1 < r.0 <= ts@.len() + 1,
        forall|f: nat|
            f >= 3 * (ts@.len() - i1) + 4 ==> sp_unary(tvs(ts@), i1 as int, f) == (PRes {
                emitted: final(out)@.skip(old(out)@.len() as int),
                next: r.0 as int,
                err: r.1,
            }),
    decreases ts@.len() + 1 - i1, 1int,
{
    let op_line = ts[i1 - 1].line;
    let (n2, e) = parse_prec(ts, i1, RANK_UNARY, out);
    if e.is_some() {
        proof {
            assert forall|f: nat| f >= 3 * (ts@.len() - i1) + 4 implies sp_unary(
                tvs(ts@),
                i1 as int,
                f,
            ) == (PRes {
                emitted: out@.skip(old(out)@.len() as int),
                next: n2 as int,
                err: e,
            }) by {
                let g = (f - 1) as nat;
                assert(sp_prec(tvs(ts@), i1 as int, RANK_UNARY, g) == (PRes {
                    emitted: out@.skip(old(out)@.len() as int),
                    next: n2 as int,
                    err: e,
                }));
            }
        }
        return (n2, e);
    }
    let ghost mid = out@;
    out.push(Code { code: OpCode::Negate, line: op_line });
    proof {
        assert(out@.take(old(out)@.len() as int) =~= mid.take(old(out)@.len() as int));
        assert(out@.skip(old(out)@.len() as int) =~= mid.skip(old(out)@.len() as int) + seq![
            Code { code: OpCode::Negate, line: op_line },
        ]);
        assert forall|f: nat| f >= 3 * (ts@.len() - i1) + 4 implies sp_unary(
            tvs(ts@),
            i1 as int,
            f,
        ) == (PRes {
            emitted: out@.skip(old(out)@.len() as int),
            next: n2 as int,
            err: None,
        }) by {
            let g = (f - 1) as nat;
            assert(sp_prec(tvs(ts@), i1 as int, RANK_UNARY, g) == (PRes {
                emitted: mid.skip(old(out)@.len() as int),
                next: n2 as int,
                err: None,
            }));
            assert(line_at(tvs(ts@), i1 - 1) == op_line);
        }
    }
    (n2, None)
}

fn binary_rule(ts: &Vec<Token>, j1: usize, out: &mut Vec<Code>) -> (r: (usize, Option<usize>))
    requires
        1 <= j1 <= ts@.len(),
        ts@.len() + 1 <= usize::MAX,
    ensures
        final(out)@.len() >= old(out)@.len(),
        final(out)@.take(old(out)@.len() as int) == old(out)@,
        j1 < r.0 <= ts@.len() + 1,
        forall|f: nat|
            f >= 3 * (ts@.len() - j1) + 4 ==> sp_binary(tvs(ts@), j1 as int, f) == (PRes {
                emitted: final(out)@.skip(old(out)@.len() as int),
                next: r.0 as int,
                err: r.1,
            }),
    decreases ts@.len() + 1 - j1, 1int,
{
    let op_kind = ts[j1 - 1].kind;
    let op_line = ts[j1 - 1].line;
    let pr = rank(rule_of(op_kind).precedence);
    let (n2, e) = parse_prec(ts, j1, pr + 1, out);
    if e.is_some() {
        proof {
            assert forall|f: nat| f >= 3 * (ts@.len() - j1) + 4 implies sp_binary(
                tvs(ts@),
                j1 as int,
                f,
            ) == (PRes {
                emitted: out@.skip(old(out)@.len() as int),
                next: n2 as int,
                err: e,
            }) by {
                let g = (f - 1) as nat;
                assert(sp_prec(tvs(ts@), j1 as int, (pr + 1) as u8, g) == (PRes {
                    emitted: out@.skip(old(out)@.len() as int),
                    next: n2 as int,
                    err: e,
                }));
            }
        }
        return (n2, e);
    }
    let op = opcode_for(op_kind);
    let ghost mid = out@;
    out.push(Code { code: op, line: op_line });
    proof {
        assert(out@.take(old(out)@.len() as int) =~= mid.take(old(out)@.len() as int));
        assert(out@.skip(old(out)@.len() as int) =~= mid.skip(old(out)@.len() as int) + seq![
            Code { code: op, line: op_line },
        ]);
        assert forall|f: nat| f >= 3 * (ts@.len() - j1) + 4 implies sp_binary(
            tvs(ts@),
            j1 as int,
            f,
        ) == (PRes {
            emitted: out@.skip(old(out)@.len() as int),
            next: n2 as int,
            err: None,
        }) by {
            let g = (f - 1) as nat;
            assert(sp_prec(tvs(ts@), j1 as int, (pr + 1) as u8, g) == (PRes {
                emitted: mid.skip(old(out)@.len() as int),
                next: n2 as int,
                err: None,
            }));
            assert(line_at(tvs(ts@), j1 - 1) == op_line);
        }
    }
    (n2, None)
}

fn grouping_rule(ts: &Vec<Token>, i1: usize, out: &mut Vec<Code>) -> (r: (usize, Option<usize>))
    requires
        1 <= i1 <= ts@.len(),
        ts@.len() + 1 <= usize::MAX,
    ensures
        final(out)@.len() >= old(out)@.len(),
        final(out)@.take(old(out)@.len() as int) == old(out)@,
        i1 < r.0 <= ts@.len() + 1,
        forall|f: nat|
            f >= 3 * (ts@.len() - i1) + 4 ==> sp_grouping(tvs(ts@), i1 as int, f) == (PRes {
                emitted: final(out)@.skip(old(out)@.len() as int),
                next: r.0 as int,
                err: r.1,
            }),
    decreases ts@.len() + 1 - i1, 3int,
{
    let (n2, e) = parse_prec(ts, i1, RANK_ASSIGNMENT, out);
    if e.is_some() {
        proof {
            assert forall|f: nat| f >= 3 * (ts@.len() - i1) + 4 implies sp_grouping(
                tvs(ts@),
                i1 as int,
                f,
            ) == (PRes {
                emitted: out@.skip(old(out)@.len() as int),
                next: n2 as int,
                err: e,
            }) by {
                let g = (f - 1) as nat;
                assert(sp_prec(tvs(ts@), i1 as int, RANK_ASSIGNMENT, g) == (PRes {
                    emitted: out@.skip(old(out)@.len() as int),
                    next: n2 as int,
                    err: e,
                }));
            }
        }
        return (n2, e);
    }
    if n2 < ts.len() {
        let k = ts[n2].kind;
        if k == TokenKind::RParen {
            proof {
                assert forall|f: nat| f >= 3 * (ts@.len() - i1) + 4 implies sp_grouping(
                    tvs(ts@),
                    i1 as int,
                    f,
                ) == (PRes {
                    emitted: out@.skip(old(out)@.len() as int),
                    next: n2 + 1,
                    err: None,
                }) by {
                    let g = (f - 1) as nat;
                    assert(sp_prec(tvs(ts@), i1 as int, RANK_ASSIGNMENT, g) == (PRes {
                        emitted: out@.skip(old(out)@.len() as int),
                        next: n2 as int,
                        err: None,
                    }));
                }
            }
            return (n2 + 1, None);
        }
    }
    proof {
        assert forall|f: nat| f >= 3 * (ts@.len() - i1) + 4 implies sp_grouping(
            tvs(ts@),
            i1 as int,
            f,
        ) == (PRes {
            emitted: out@.skip(old(out)@.len() as int),
            next: n2 as int,
            err: Some(line_at(tvs(ts@), n2 as int)),
        }) by {
            let g = (f - 1) as nat;
            assert(sp_prec(tvs(ts@), i1 as int, RANK_ASSIGNMENT, g) == (PRes {
                emitted: out@.skip(old(out)@.len() as int),
                next: n2 as int,
                err: None,
            }));
        }
    }
    (n2, Some(line_of(ts, n2)))
}

fn infix_loop(ts: &Vec<Token>, j: usize, min: u8, out: &mut Vec<Code>) -> (r: (
    usize,
    Option<usize>,
))
    requires
        j <= ts@.len() + 1,
        ts@.len() + 1 <= usize::MAX,
    ensures
        final(out)@.len() >= old(out)@.len(),
        final(out)@.take(old(out)@.len() as int) == old(out)@,
        j <= r.0 <= ts@.len() + 1,
        forall|f: nat|
            f >= 1 && f >= 3 * (ts@.len() - j) + 3 ==> sp_infix(tvs(ts@), j as int, min, f)
                == (PRes {
                emitted: final(out)@.skip(old(out)@.len() as int),
                next: r.0 as int,
                err: r.1,
            }),
    decreases ts@.len() + 1 - j, 4int,
{
    if j >= ts.len() {
        proof {
            assert(out@.skip(old(out)@.len() as int) =~= Seq::<Code>::empty());
            assert(out@.take(old(out)@.len() as int) =~= old(out)@);
        }
        return (j, None);
    }
    let t_kind = ts[j].kind;
    let rule = rule_of(t_kind);
    if rank(rule.precedence) >= min {
        let ghost out0 = out@;
        let (b_next, b_err) = binary_rule(ts, j + 1, out);
        if b_err.is_some() {
            proof {
                assert forall|f: nat| f >= 1 && f >= 3 * (ts@.len() - j) + 3 implies sp_infix(
                    tvs(ts@),
                    j as int,
                    min,
                    f,
                ) == (PRes {
                    emitted: out@.skip(old(out)@.len() as int),
                    next: b_next as int,
                    err: b_err,
                }) by {
                    let g = (f - 1) as nat;
                    assert(sp_binary(tvs(ts@), j + 1, g) == (PRes {
                        emitted: out@.skip(old(out)@.len() as int),
                        next: b_next as int,
                        err: b_err,
                    }));
                }
            }
            return (b_next, b_err);
        }
        let ghost out1 = out@;
        let (n2, e2) = infix_loop(ts, b_next, min, out);
        proof {
            lemma_splice(out0, out1, out@);
            assert forall|f: nat| f >= 1 && f >= 3 * (ts@.len() - j) + 3 implies sp_infix(
                tvs(ts@),
                j as int,
                min,
                f,
            ) == (PRes {
                emitted: out@.skip(old(out)@.len() as int),
                next: n2 as int,
                err: e2,
            }) by {
                let g = (f - 1) as nat;
                assert(sp_binary(tvs(ts@), j + 1, g) == (PRes {
                    emitted: out1.skip(out0.len() as int),
                    next: b_next as int,
                    err: None,
                }));
                assert(sp_infix(tvs(ts@), b_next as int, min, g) == (PRes {
                    emitted: out@.skip(out1.len() as int),
                    next: n2 as int,
                    err: e2,
                }));
            }
        }
        (n2, e2)
    } else {
        proof {
            assert(out@.skip(old(out)@.len() as int) =~= Seq::<Code>::empty());
            assert(out@.take(old(out)@.len() as int) =~= old(out)@);
        }
        (j, None)
    }
}

fn parse_prec(ts: &Vec<Token>, i: usize, min: u8, out: &mut Vec<Code>) -> (r: (
    usize,
    Option<usize>,
))
    requires
        i <= ts@.len(),
        ts@.len() + 1 <= usize::MAX,
    ensures
        final(out)@.len() >= old(out)@.len(),
        final(out)@.take(old(out)@.len() as int) == old(out)@,
        i < r.0 <= ts@.len() + 1,
        forall|f: nat|
            f >= 3 * (ts@.len() - i) + 3 ==> sp_prec(tvs(ts@), i as int, min, f) == (PRes {
                emitted: final(out)@.skip(old(out)@.len() as int),
                next: r.0 as int,
                err: r.1,
            }),
    decreases ts@.len() + 1 - i, 0int,
{
    if i >= ts.len() {
        proof {
            assert(out@.skip(old(out)@.len() as int) =~= Seq::<Code>::empty());
            assert(out@.take(old(out)@.len() as int) =~= old(out)@);
        }
        return (i + 1, Some(1));
    }
    let t_kind = ts[i].kind;
    let t_line = ts[i].line;
    let rule = rule_of(t_kind);
    let ghost out0 = out@;
    let (p_next, p_err): (usize, Option<usize>) = match rule.prefix {
        Some(Rule::Number) => number_rule(ts, i + 1, out),
        Some(Rule::Unary) => unary_rule(ts, i + 1, out),
        Some(Rule::Grouping) => grouping_rule(ts, i + 1, out),
        None => {
            proof {
                assert(out@.skip(old(out)@.len() as int) =~= Seq::<Code>::empty());
                assert(out@.take(old(out)@.len() as int) =~= old(out)@);
            }
            (i + 1, Some(t_line))
        },
    };
    if p_err.is_some() {
        proof {
            assert forall|f: nat| f >= 3 * (ts@.len() - i) + 3 implies sp_prec(
                tvs(ts@),
                i as int,
                min,
                f,
            ) == (PRes {
                emitted: out@.skip(old(out)@.len() as int),
                next: p_next as int,
                err: p_err,
            }) by {
                let g = (f - 1) as nat;
                match rule.prefix {
                    Some(Rule::Number) => {},
                    Some(Rule::Unary) => {
                        assert(sp_unary(tvs(ts@), i + 1, g) == (PRes {
                            emitted: out@.skip(out0.len() as int),
                            next: p_next as int,
                            err: p_err,
                        }));
                    },
                    Some(Rule::Grouping) => {
                        assert(sp_grouping(tvs(ts@), i + 1, g) == (PRes {
                            emitted: out@.skip(out0.len() as int),
                            next: p_next as int,
                            err: p_err,
                        }));
                    },
                    None => {},
                }
            }
        }
        return (p_next, p_err);
    }
    let ghost out1 = out@;
    let (q_next, q_err) = infix_loop(ts, p_next, min, out);
    proof {
        lemma_splice(out0, out1, out@);
        assert forall|f: nat| f >= 3 * (ts@.len() - i) + 3 implies sp_prec(
            tvs(ts@),
            i as int,
            min,
            f,
        ) == (PRes {
            emitted: out@.skip(old(out)@.len() as int),
            next: q_next as int,
            err: q_err,
        }) by {
            let g = (f - 1) as nat;
            match rule.prefix {
                Some(Rule::Number) => {},
                Some(Rule::Unary) => {
                    assert(sp_unary(tvs(ts@), i + 1, g) == (PRes {
                        emitted: out1.skip(out0.len() as int),
                        next: p_next as int,
                        err: p_err,
                    }));
                },
                Some(Rule::Grouping) => {
                    assert(sp_grouping(tvs(ts@), i + 1, g) == (PRes {
                        emitted: out1.skip(out0.len() as int),
                        next: p_next as int,
                        err: p_err,
                    }));
                },
                None => {},
            }
            assert(sp_infix(tvs(ts@), p_next as int, min, g) == (PRes {
                emitted: out@.skip(out1.len() as int),
                next: q_next as int,
                err: q_err,
            }));
        }
    }
    (q_next, q_err)
}

/// Scan a whole source text into its token vector.
fn tokenize(source: &str) -> (r: Vec<Token>)
    requires
        source@.len() + 2 <= usize::MAX,
    ensures
        tvs(r@) == token_stream(scan_init(source@)),
        r@.len() <= source@.len() + 1,
{
    let mut sc = Scanner::new(source);
    let mut toks: Vec<Token> = Vec::new();
    proof {
        lemma_token_stream_len(scan_init(source@));
        assert(tvs(toks@) + token_stream(sc@) =~= token_stream(scan_init(source@)));
    }
    loop
        invariant
            sc@.wf(),
            tvs(toks@) + token_stream(sc@) == token_stream(scan_init(source@)),
            toks@.len() + scan_measure(sc@) <= source@.len() + 1,
        decreases scan_measure(sc@),
    {
        let ghost pre = sc@;
        let ghost toks0 = toks@;
        proof {
            lemma_scan_next_progress(pre);
        }
        let t = sc.next();
        match t {
            Some(tok) => {
                toks.push(tok);
                proof {
                    assert(token_stream(pre) == seq![tok@] + token_stream(sc@));
                    assert(tvs(toks@) =~= tvs(toks0) + seq![tok@]);
                    assert(tvs(toks@) + token_stream(sc@) =~= tvs(toks0) + token_stream(pre));
                }
            },
            None => {
                proof {
                    assert(token_stream(sc@) =~= Seq::<TokenModel>::empty());
                    assert(tvs(toks@) =~= tvs(toks@) + token_stream(sc@));
                }
                return toks;
            },
        }
    }
}

/// Compile a source text to its instruction sequence, or report the line of
/// the compile failure. Compiling is a pure function of the text: the result
/// is exactly `compile_spec` of it.
pub fn compile(source: &str) -> (r: Result<Vec<Code>, InterpretError>)
    requires
        source@.len() + 2 <= usize::MAX,
    ensures
        ({
            match (r, compile_spec(source@)) {
                (Ok(c), Ok(cs)) => c@ == cs,
                (Err(e), Err(line)) => e == (InterpretError::CompileError { line }),
                _ => false,
            }
        }),
{
    let ts = tokenize(source);
    let mut out: Vec<Code> = Vec::new();
    if ts.len() == 0 {
        return Err(InterpretError::CompileError { line: 1 });
    }
    let k0 = ts[0].kind;
    if k0 == TokenKind::Eof {
        let line0 = ts[0].line;
        out.push(Code { code: OpCode::Return, line: line0 });
        proof {
            assert(out@ =~= seq![Code { code: OpCode::Return, line: tvs(ts@)[0].line }]);
        }
        return Ok(out);
    }
    let (n2, e) = parse_prec(&ts, 0, RANK_ASSIGNMENT, &mut out);
    proof {
        assert(sp_prec(tvs(ts@), 0, RANK_ASSIGNMENT, prog_fuel(tvs(ts@))) == (PRes {
            emitted: out@.skip(0),
            next: n2 as int,
            err: e,
        }));
        assert(out@.skip(0) =~= out@);
    }
    match e {
        Some(line) => Err(InterpretError::CompileError { line }),
        None => {
            if n2 < ts.len() {
                let k = ts[n2].kind;
                if k == TokenKind::Eof {
                    let ghost mid = out@;
                    let line2 = ts[n2].line;
                    out.push(Code { code: OpCode::Return, line: line2 });
                    proof {
                        assert(out@ =~= mid + seq![
                            Code { code: OpCode::Return, line: tvs(ts@)[n2 as int].line },
                        ]);
                    }
                    return Ok(out);
                }
            }
            Err(InterpretError::CompileError { line: line_of(&ts, n2) })
        },
    }
}

/// What the lazy parser stands for: the compilation of its source and how
/// many instructions it has handed out so far.
pub ghost struct ParserModel {
    pub result: Result<Seq<Code>, usize>,
    pub served: int,
}

/// A lazy, finite, non-restartable producer of instructions: the whole
/// expression is compiled up front, and the instructions are handed out one
/// at a time in emission order.
pub struct Parser {
    codes: Vec<Code>,
    err: Option<usize>,
    head: usize,
}

impl View for Parser {
    type V = ParserModel;

    closed spec fn view(&self) -> ParserModel {
        ParserModel {
            result: match self.err {
                Some(l) => Err(l),
                None => Ok(self.codes@),
            },
            served: self.head as int,
        }
    }
}

impl Parser {
    pub fn new(source: &str) -> (p: Parser)
        requires
            source@.len() + 2 <= usize::MAX,
        ensures
            p@.result == compile_spec(source@),
            p@.served == 0,
    {
        match compile(source) {
            Ok(cs) => Parser { codes: cs, err: None, head: 0 },
            Err(e) => {
                let line = match e {
                    InterpretError::CompileError { line } => line,
                    InterpretError::RuntimeError => 1,
                };
                Parser { codes: Vec::new(), err: Some(line), head: 0 }
            },
        }
    }

    /// The next instruction of the compiled sequence, `Ok(None)` once all
    /// have been handed out, or the compile failure.
    pub fn next(&mut self) -> (r: Result<Option<Code>, InterpretError>)
        ensures
            final(self)@.result == old(self)@.result,
            ({
                match old(self)@.result {
                    Err(line) => {
                        &&& r matches Err(e2) && e2 == (InterpretError::CompileError { line })
                        &&& final(self)@.served == old(self)@.served
                    },
                    Ok(cs) => {
                        if old(self)@.served < cs.len() {
                            &&& r matches Ok(o) && o == Some(cs[old(self)@.served])
                            &&& final(self)@.served == old(self)@.served + 1
                        } else {
                            &&& r matches Ok(o) && o is None
                            &&& final(self)@.served == old(self)@.served
                        }
                    },
                }
            }),
    {
        match self.err {
            Some(line) => Err(InterpretError::CompileError { line }),
            None => {
                if self.head < self.codes.len() {
                    let c = self.codes[self.head];
                    self.head = self.head + 1;
                    Ok(Some(c))
                } else {
                    Ok(None)
                }
            },
        }
    }
}

} // verus!
