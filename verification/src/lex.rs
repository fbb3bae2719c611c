use vstd::prelude::*;
use vstd::string::StringSliceAdditionalSpecFns;
use crate::tok::{Tok, Pos, Token, Abraham, spec_abraham, abraham_ok, abe_text, last_nl_before, last_nl, lemma_last_nl_bounds};
use crate::util::{ArraySet, DfStr, DfString, Symbol, Sym, SymId, is_first_match, push_bytes};
use crate::pars::parsable;

verus! {

/// Splits a Latin-1 source into tokens.
pub fn tokenize(s: &DfStr) -> (r: Result<LexRes, (Error, Vec<u32>)>)
    requires
        lexable(s@),
    ensures
        lex_result_matches(r, spec_lex(s@)),
{
    let b: &[u8] = s.as_bytes();
    Luthor::tokenize(b)
}

/// Splits a Latin-1 source into tokens; nothing where the lexer does not
/// handle it (see `lexable`).
pub fn try_tokenize(s: &DfStr) -> (r: Option<Result<LexRes, (Error, Vec<u32>)>>)
    requires
        0 < s@.len() < u32::MAX,
    ensures
        r is None <==> spec_lex(s@) is Stuck,
        r matches Some(x) ==> lex_result_matches(x, spec_lex(s@)),
{
    let b: &[u8] = s.as_bytes();
    Luthor::try_tokenize(b)
}

/// The result of splitting a source into tokens. It refers to the source
/// by positions, and holds no reference to it.
pub struct LexRes {
    pub tokens: Vec<Token>,
    pub symbols: Vec<Symbol>,  // list of unique idents/strings
    pub newlines: Vec<u32>,  // indices of all the newlines of the source, and 0
}

/// A result of splitting into tokens, together with its source.
pub struct LexResSrc<'src> {
    pub res: LexRes,
    pub src: &'src [u8],
}

/// A token error: a message and the position of the faulty token.
#[derive(Clone, Copy, Debug)]
pub struct Error {
    pub wat: &'static str,  // message
    pub pos: Pos,  // position of the faulty token
}

/// A token error together with its source and the line and column of its
/// beginning and of its end.
#[derive(Clone, Copy)]
pub struct ErrorSrc<'src> {
    pub err: Error,
    pub src: &'src [u8],
    pub abe: [Abraham; 2],
}

impl<'src> ErrorSrc<'src> {
    pub fn new(e: Error, s: &'src [u8], n: &[u32]) -> (r: Self)
        requires
            e.pos.beg + e.pos.len <= u32::MAX,
            abraham_ok(e.pos.beg, s@, n@),
            abraham_ok((e.pos.beg + e.pos.len) as u32, s@, n@),
        ensures
            r.err == e,
            r.src@ == s@,
            r.abe@[0] == spec_abraham(e.pos.beg, s@, n@),
            r.abe@[1] == spec_abraham((e.pos.beg + e.pos.len) as u32, s@, n@),
    {
        ErrorSrc {
            err: e,
            src: s,
            abe: [Abraham::from_idx(e.pos.beg, s, n), Abraham::from_idx(e.pos.end(), s, n)],
        }
    }

    /// The error with its source, where the line and column of both ends
    /// of the faulty token can be computed.
    pub fn try_new(e: Error, s: &'src [u8], n: &[u32]) -> (r: Option<Self>)
        ensures
            r is Some <==> (e.pos.beg + e.pos.len <= u32::MAX && abraham_ok(e.pos.beg, s@, n@)
                && abraham_ok((e.pos.beg + e.pos.len) as u32, s@, n@)),
            r matches Some(x) ==> x.err == e && x.src@ == s@ && x.abe@[0] == spec_abraham(
                e.pos.beg,
                s@,
                n@,
            ) && x.abe@[1] == spec_abraham((e.pos.beg + e.pos.len) as u32, s@, n@),
    {
        if e.pos.beg > u32::MAX - e.pos.len {
            return None;
        }
        match (Abraham::checked_from_idx(e.pos.beg, s, n), Abraham::checked_from_idx(e.pos.end(), s, n)) {
            (Some(_), Some(_)) => Some(Self::new(e, s, n)),
            _ => None,
        }
    }

    /// Whether the report can be made: the line of the faulty token is
    /// in the source and its column falls on that line.
    pub fn can_report(&self) -> (r: bool)
        ensures
            r == report_ok(*self),
    {
        let beg = self.err.pos.beg;
        if beg as usize > self.src.len() {
            return false;
        }
        let lb = last_nl(beg, self.src);
        let le = line_end_of(self.src, beg as usize);
        proof {
            lemma_last_nl_bounds(self.src@, beg as int);
        }
        let col = self.abe[0].col;
        1 <= col && col as usize <= le - lb as usize
    }

    /// The report of the error: its message, the lines and columns where
    /// the faulty token begins and ends, the line where it begins, and a
    /// caret under its first byte, all in Latin-1.
    pub fn report(&self) -> (r: DfString)
        requires
            report_ok(*self),
        ensures
            r@ == error_report(*self),
    {
        let beg = self.err.pos.beg;
        let lb = last_nl(beg, self.src) as usize;
        let le = line_end_of(self.src, beg as usize);
        proof {
            lemma_last_nl_bounds(self.src@, beg as int);
        }
        let mut v: Vec<u8> = Vec::new();
        push_bytes(&mut v, "TOKEN ERROR: ".as_bytes());
        push_bytes(&mut v, self.err.wat.as_bytes());
        push_bytes(&mut v, "\nat ".as_bytes());
        let a0 = self.abe[0].text();
        push_bytes(&mut v, a0.as_bytes());
        push_bytes(&mut v, " ~ ".as_bytes());
        let a1 = self.abe[1].text();
        push_bytes(&mut v, a1.as_bytes());
        push_bytes(&mut v, ":\n".as_bytes());
        push_bytes(&mut v, slice_range(self.src, lb, le));
        v.push(10);
        let i0: usize = (self.abe[0].col - 1) as usize;
        let ghost pre = v@;
        let mut k: usize = 0;
        while k < le - lb
            invariant
                lb <= le,
                k <= le - lb,
                v@ == pre + caret_line(k as int, i0 as int),
            decreases le - lb - k,
        {
            if k == i0 {
                v.push(94);
            } else {
                v.push(32);
            }
            k += 1;
            assert(v@ =~= pre + caret_line(k as int, i0 as int));
        }
        v.push(10);
        assert(v@ =~= error_report(*self));
        DfString::from_vec(v)
    }
}

/// Whether the report of an error can be made: see `ErrorSrc::report`.
pub open spec fn report_ok(es: ErrorSrc) -> bool {
    let beg = es.err.pos.beg as int;
    &&& beg <= es.src@.len()
    &&& 1 <= es.abe@[0].col
    &&& es.abe@[0].col <= line_end(es.src@, beg) - last_nl_before(es.src@, beg)
}

/// `len` spaces, with a caret at index `i`.
pub open spec fn caret_line(len: int, i: int) -> Seq<u8> {
    Seq::new(len as nat, |k: int| if k == i { 94u8 } else { 32u8 })
}

/// The report of a token error: the message, where the faulty token begins
/// and ends, the line where it begins (from the newline before it), and a
/// caret under its first byte.
pub open spec fn error_report(es: ErrorSrc) -> Seq<u8> {
    let beg = es.err.pos.beg as int;
    let lb = last_nl_before(es.src@, beg);
    let le = line_end(es.src@, beg);
    "TOKEN ERROR: ".spec_bytes() + es.err.wat.spec_bytes() + "\nat ".spec_bytes() + abe_text(es.abe@[0])
        + " ~ ".spec_bytes() + abe_text(es.abe@[1]) + ":\n".spec_bytes() + es.src@.subrange(lb, le)
        + seq![10u8] + caret_line(le - lb, es.abe@[0].col - 1) + seq![10u8]
}

/// The end of the line of index `p`: the next newline, or the end.
fn line_end_of(src: &[u8], p: usize) -> (r: usize)
    requires
        p <= src@.len(),
    ensures
        r == line_end(src@, p as int),
        p <= r <= src@.len(),
{
    let mut k = p;
    while k < src.len() && src[k] != 10
        invariant
            p <= k <= src@.len(),
            line_end(src@, k as int) == line_end(src@, p as int),
        decreases src@.len() - k,
    {
        k += 1;
    }
    k
}

// The lexical grammar -------------------------------------------------------

pub open spec fn is_ws(c: u8) -> bool {
    c == 32 || c == 9 || c == 10 || c == 12 || c == 13
}

pub open spec fn is_digit(c: u8) -> bool {
    48 <= c <= 57
}

pub open spec fn is_alpha(c: u8) -> bool {
    (65 <= c <= 90) || (97 <= c <= 122)
}

pub open spec fn is_alnum(c: u8) -> bool {
    is_digit(c) || is_alpha(c)
}

/// Whether `src` has the byte `c` at index `i`.
pub open spec fn at_is(src: Seq<u8>, i: int, c: u8) -> bool {
    0 <= i < src.len() && src[i] == c
}

/// The first index from `p` on that holds no whitespace.
pub open spec fn ws_end(src: Seq<u8>, p: int) -> int
    decreases src.len() - p,
{
    if 0 <= p < src.len() && is_ws(src[p]) {
        ws_end(src, p + 1)
    } else {
        p
    }
}

/// The first index from `p` on that holds no digit.
pub open spec fn digits_end(src: Seq<u8>, p: int) -> int
    decreases src.len() - p,
{
    if 0 <= p < src.len() && is_digit(src[p]) {
        digits_end(src, p + 1)
    } else {
        p
    }
}

/// The first index from `p` on that holds no letter nor digit.
pub open spec fn alnum_end(src: Seq<u8>, p: int) -> int
    decreases src.len() - p,
{
    if 0 <= p < src.len() && is_alnum(src[p]) {
        alnum_end(src, p + 1)
    } else {
        p
    }
}

/// The first index from `p` on that holds a newline, or the end.
pub open spec fn line_end(src: Seq<u8>, p: int) -> int
    decreases src.len() - p,
{
    if 0 <= p < src.len() && src[p] != 10 {
        line_end(src, p + 1)
    } else {
        p
    }
}

/// The indices of the newlines in `p..q`.
pub open spec fn newlines_in(src: Seq<u8>, p: int, q: int) -> Seq<u32>
    decreases q - p,
{
    if q <= p {
        seq![]
    } else {
        newlines_in(src, p, q - 1) + if src[q - 1] == 10 {
            seq![(q - 1) as u32]
        } else {
            seq![]
        }
    }
}

/// The value of a string of decimal digits.
pub open spec fn dec_value(s: Seq<u8>) -> int
    decreases s.len(),
{
    if s.len() == 0 {
        0
    } else {
        dec_value(s.drop_last()) * 10 + (s.last() - 48)
    }
}

/// What is read at the beginning of a token.
pub enum Scan {
    Tok(Tok, int),  // a token of that kind and length
    Ident(int),  // an identifier of that length
    Fail(&'static str, int),  // an error, the length read before it
    Stuck,  // an input the lexer does not handle
}

/// A token made of `c` after the current byte, else `other`.
pub open spec fn follow(src: Seq<u8>, q: int, c: u8, t: Tok, other: Scan) -> Scan {
    if at_is(src, q + 1, c) {
        Scan::Tok(t, 2)
    } else {
        other
    }
}

/// The number literal that begins at `q`.
pub open spec fn scan_num(src: Seq<u8>, q: int) -> Scan {
    let e = digits_end(src, q + 1);
    let v = dec_value(src.subrange(q, e));
    if at_is(src, e, 117) {
        if v > u32::MAX {
            Scan::Stuck
        } else {
            Scan::Tok(Tok::ValN(v as u32), e + 1 - q)  // \d+u
        }
    } else if at_is(src, e, 46) && e + 1 < src.len() && is_digit(src[e + 1]) {
        Scan::Tok(Tok::ValR, digits_end(src, e + 1) - q)  // \d+\.\d+
    } else {
        if v > i32::MAX {
            Scan::Stuck
        } else {
            Scan::Tok(Tok::ValZ(v as i32), e - q)  // \d+
        }
    }
}

/// The literal that the word beginning at `q` is, where it is one: `T` and
/// `F` for the booleans, `V` for the void value.
pub open spec fn word_lit(src: Seq<u8>, q: int) -> Option<Tok> {
    if alnum_end(src, q + 1) != q + 1 {
        None
    } else if src[q] == 84 {
        Some(Tok::ValB(true))
    } else if src[q] == 70 {
        Some(Tok::ValB(false))
    } else if src[q] == 86 {
        Some(Tok::ValV)
    } else {
        None
    }
}

/// The character literal that begins at `q`.
pub open spec fn scan_char(src: Seq<u8>, q: int) -> Scan {
    if q + 1 >= src.len() {
        Scan::Fail("unclosed C literal", 1)
    } else if q + 2 >= src.len() {
        Scan::Fail("unclosed C literal (end \" not found)", 2)
    } else if src[q + 2] != 34 {
        Scan::Fail("unclosed C literal (end \" not found)", 3)
    } else {
        Scan::Tok(Tok::ValC(src[q + 1]), 3)
    }
}

/// The token that begins at `q`, a byte that is no whitespace.
pub open spec fn scan(src: Seq<u8>, q: int) -> Scan {
    let c = src[q];
    if c == 95 {
        Scan::Tok(Tok::Uscore, 1)  // _
    } else if c == 44 {
        Scan::Tok(Tok::Comma, 1)  // ,
    } else if c == 59 {
        Scan::Tok(Tok::Semic, 1)  // ;
    } else if c == 40 {
        Scan::Tok(Tok::Lparen, 1)  // (
    } else if c == 41 {
        Scan::Tok(Tok::Rparen, 1)  // )
    } else if c == 123 {
        Scan::Tok(Tok::Lbrace, 1)  // {
    } else if c == 125 {
        Scan::Tok(Tok::Rbrace, 1)  // }
    } else if c == 58 {
        Scan::Tok(Tok::Colon, 1)  // :
    } else if c == 37 {
        Scan::Tok(Tok::Percent, 1)  // %
    } else if c == 43 {
        follow(src, q, 43, Tok::Plus2, Scan::Tok(Tok::Plus, 1))  // +
    } else if c == 45 {
        follow(src, q, 45, Tok::Minus2, Scan::Tok(Tok::Minus, 1))  // -
    } else if c == 42 {
        follow(src, q, 42, Tok::Star2, Scan::Tok(Tok::Star, 1))  // *
    } else if c == 47 {
        follow(src, q, 47, Tok::Slash2, Scan::Tok(Tok::Slash, 1))  // /
    } else if c == 91 {
        follow(src, q, 91, Tok::LsqBra2, Scan::Tok(Tok::LsqBra, 1))  // [
    } else if c == 93 {
        follow(src, q, 93, Tok::RsqBra2, Scan::Tok(Tok::RsqBra, 1))  // ]
    } else if c == 94 {
        follow(src, q, 94, Tok::Caret2, Scan::Tok(Tok::Caret, 1))  // ^
    } else if c == 64 {
        follow(src, q, 64, Tok::AtSign2, Scan::Tok(Tok::AtSign, 1))  // @
    } else if c == 38 {  // &
        follow(src, q, 38, Tok::And2, follow(src, q, 63, Tok::AndQu, Scan::Tok(Tok::And, 1)))
    } else if c == 124 {  // |
        follow(src, q, 124, Tok::Vbar2, follow(src, q, 63, Tok::VbarQu, Scan::Tok(Tok::Vbar, 1)))
    } else if c == 35 {  // #
        follow(src, q, 64, Tok::RecF, follow(src, q, 36, Tok::HashDollar, Scan::Tok(Tok::Hash, 1)))
    } else if c == 33 {  // !
        follow(src, q, 64, Tok::RecP, follow(src, q, 36, Tok::BangDollar, Scan::Tok(Tok::Bang, 1)))
    } else if c == 46 {  // .
        follow(
            src,
            q,
            64,
            Tok::DotAt,
            follow(src, q, 35, Tok::DotHash, follow(src, q, 33, Tok::DotBang, Scan::Tok(Tok::Period, 1))),
        )
    } else if c == 126 {  // ~
        follow(src, q, 126, Tok::Tilde2, follow(src, q, 61, Tok::Ne, Scan::Tok(Tok::Tilde, 1)))
    } else if c == 61 {  // =
        follow(src, q, 61, Tok::Equal2, follow(src, q, 62, Tok::Then, Scan::Tok(Tok::Equal, 1)))
    } else if c == 60 {  // <
        follow(src, q, 61, Tok::Le, Scan::Tok(Tok::Langle, 1))
    } else if c == 62 {  // >
        follow(src, q, 61, Tok::Ge, Scan::Tok(Tok::Rangle, 1))
    } else if c == 92 {  // backslash
        follow(
            src,
            q,
            92,
            Tok::Bslash2,
            follow(src, q, 91, Tok::BsLsb, follow(src, q, 35, Tok::BsHash, Scan::Tok(Tok::Bslash, 1))),
        )
    } else if is_digit(c) {
        scan_num(src, q)
    } else if is_alpha(c) {
        match word_lit(src, q) {
            Some(t) => Scan::Tok(t, 1),
            None => Scan::Ident(alnum_end(src, q + 1) - q),
        }
    } else if c == 34 {  // "
        scan_char(src, q)
    } else if c == 96 {  // `
        if at_is(src, q + 1, 39) {
            Scan::Stuck  // block comments are not handled
        } else {
            Scan::Tok(Tok::Comment, line_end(src, q + 1) - q)
        }
    } else {
        Scan::Fail("unknown char", 1)
    }
}

/// The index of `x` in the symbol table `syms`, or its length where `x`
/// is not there.
pub open spec fn sym_index(syms: Seq<Seq<u8>>, x: Seq<u8>) -> int
    decreases syms.len(),
{
    if syms.len() == 0 {
        0
    } else {
        let i = sym_index(syms.drop_last(), x);
        if i < syms.len() - 1 {
            i
        } else if syms.last() == x {
            syms.len() - 1
        } else {
            syms.len() as int
        }
    }
}

/// One step of the lexer from position `p`.
pub enum Step {
    Tok(Token, int, Seq<Seq<u8>>, Seq<u32>),  // a token, the next position, the symbols, the newlines
    Fail(Error, Seq<u32>),  // an error, the newlines so far
    Stuck,
}

/// One step of the lexer: skip whitespace, recording the newlines, then read
/// a token, interning the identifiers.
pub open spec fn step(src: Seq<u8>, p: int, syms: Seq<Seq<u8>>, nls: Seq<u32>) -> Step {
    let q = ws_end(src, p);
    let nls2 = nls + newlines_in(src, p, q);
    if q >= src.len() {
        Step::Tok(Token { tok: Tok::Eof, pos: Pos { beg: q as u32, len: 0 } }, q, syms, nls2)
    } else {
        match scan(src, q) {
            Scan::Tok(t, n) => Step::Tok(
                Token { tok: t, pos: Pos { beg: q as u32, len: n as u32 } },
                q + n,
                syms,
                nls2,
            ),
            Scan::Ident(n) => {
                let lx = src.subrange(q, q + n);
                let i = sym_index(syms, lx);
                if i > 0xffff {
                    Step::Stuck
                } else {
                    Step::Tok(
                        Token { tok: Tok::Ident(i as u16), pos: Pos { beg: q as u32, len: n as u32 } },
                        q + n,
                        if i == syms.len() {
                            syms.push(lx)
                        } else {
                            syms
                        },
                        nls2,
                    )
                }
            },
            Scan::Fail(m, n) => Step::Fail(Error { wat: m, pos: Pos { beg: q as u32, len: n as u32 } }, nls2),
            Scan::Stuck => Step::Stuck,
        }
    }
}

/// The outcome of splitting a source into tokens.
pub enum LexOutcome {
    Done(Seq<Token>, Seq<Seq<u8>>, Seq<u32>),  // the tokens, the symbols, the newlines
    Failed(Error, Seq<u32>),  // the first error, the newlines before it
    Stuck,  // an input the lexer does not handle
}

/// Splitting the source from position `p` on, after the tokens `toks`.
pub open spec fn lex_from(src: Seq<u8>, p: int, toks: Seq<Token>, syms: Seq<Seq<u8>>, nls: Seq<u32>) -> LexOutcome
    decreases src.len() - p,
{
    if p < 0 || p > src.len() {
        LexOutcome::Stuck
    } else {
        match step(src, p, syms, nls) {
            Step::Tok(t, p2, syms2, nls2) => if t.tok is Eof {
                LexOutcome::Done(toks.push(t), syms2, nls2)
            } else if p2 <= p || p2 > src.len() {
                LexOutcome::Stuck
            } else {
                lex_from(src, p2, toks.push(t), syms2, nls2)
            },
            Step::Fail(e, n) => LexOutcome::Failed(e, n),
            Step::Stuck => LexOutcome::Stuck,
        }
    }
}

/// Splitting a source into tokens: the tokens up to and with the end token,
/// the identifiers in the order of their first use, and the indices of the
/// newlines skipped between tokens, after a 0 for the beginning; or the
/// first error.
pub open spec fn spec_lex(src: Seq<u8>) -> LexOutcome {
    lex_from(src, 0, seq![], seq![], seq![0u32])
}

/// Whether the lexer handles the source: it is not empty, its indices fit in
/// 32 bits, and it holds no block comment, no number literal too large for
/// its type and no more than 65536 different identifiers before its first
/// error.
pub open spec fn lexable(src: Seq<u8>) -> bool {
    &&& src.len() > 0
    &&& src.len() < u32::MAX
    &&& !(spec_lex(src) is Stuck)
}

/// A search for a well-formed borrowed symbol among well-formed symbols
/// finds the index of its bytes in the table of their bytes.
proof fn lemma_first_match_sym_index(syms: Seq<Symbol>, aux: Sym, r: Option<usize>)
    requires
        forall|k: int| 0 <= k < syms.len() ==> (#[trigger] syms[k]).wf(),
        aux.wf(),
        is_first_match(syms, aux, r),
    ensures
        sym_index(sym_views(syms), aux@) == match r {
            Some(i) => i as int,
            None => syms.len() as int,
        },
    decreases syms.len(),
{
    if syms.len() > 0 {
        let d = syms.drop_last();
        assert(sym_views(d) =~= sym_views(syms).drop_last());
        let rd = match r {
            Some(i) => if i < d.len() {
                Some(i)
            } else {
                None
            },
            None => None,
        };
        assert forall|j: int| 0 <= j < d.len() implies #[trigger] d[j] == syms[j] by {}
        lemma_first_match_sym_index(d, aux, rd);
    }
}

/// A token of the kind and length that is read at `q`, ending at `end`.
pub open spec fn tok_result(src: Seq<u8>, q: int, r: Token, end: int) -> bool {
    scan(src, q) matches Scan::Tok(t, n) && r == (Token {
        tok: t,
        pos: Pos { beg: q as u32, len: n as u32 },
    }) && end == q + n
}

/// The bytes of each symbol.
pub open spec fn sym_views(s: Seq<Symbol>) -> Seq<Seq<u8>> {
    s.map_values(|x: Symbol| x@)
}

/// The result of the lexer is its outcome.
pub open spec fn lex_result_matches(r: Result<LexRes, (Error, Vec<u32>)>, o: LexOutcome) -> bool {
    match r {
        Ok(lr) => o matches LexOutcome::Done(toks, syms, nls) && lr.tokens@ == toks && sym_views(
            lr.symbols@,
        ) == syms && lr.newlines@ == nls,
        Err((e, n)) => o matches LexOutcome::Failed(e2, n2) && e == e2 && n@ == n2,
    }
}

// The lexer ---------------------------------------------------------------

struct Luthor<'src> {
    // input
    src: &'src [u8],  // source code (in Latin-1)
    // output
    sym: ArraySet<Symbol>,  // string interner, copies the strings from src
    nls: Vec<u32>,  // indices of each newline in src
    // private
    cur: Pos,  // current token cursor, refers to src
}

impl<'src> Luthor<'src> {
    /// The symbols hold their hashes and the cursor is in the source.
    spec fn wf(&self) -> bool {
        &&& self.src@.len() < u32::MAX
        &&& self.cur.beg + self.cur.len <= self.src@.len()
        &&& forall|k: int| 0 <= k < self.sym@.len() ==> (#[trigger] self.sym@[k]).wf()
    }

    spec fn end(&self) -> int {
        self.cur.beg + self.cur.len
    }

    spec fn syms(&self) -> Seq<Seq<u8>> {
        sym_views(self.sym@)
    }

    /// Splits `s` into tokens, Err = Error and NewLines; nothing on an input
    /// the lexer does not handle (a block comment, a number literal too
    /// large for its type, more than 65536 different identifiers).
    pub fn try_tokenize(s: &'src [u8]) -> (r: Option<Result<LexRes, (Error, Vec<u32>)>>)
        requires
            0 < s@.len() < u32::MAX,
        ensures
            r is None <==> spec_lex(s@) is Stuck,
            r matches Some(x) ==> lex_result_matches(x, spec_lex(s@)),
    {
        let mut nls0: Vec<u32> = Vec::new();
        nls0.push(0);  // the beginning of src counts as a newline, the first
        let mut lxr = Luthor { src: s, sym: ArraySet::new(), nls: nls0, cur: Pos::default() };
        let mut res: Vec<Token> = Vec::new();
        proof {
            assert(sym_views(lxr.sym@) =~= Seq::<Seq<u8>>::empty());
        }
        loop
            invariant_except_break
                lex_from(s@, lxr.end(), res@, lxr.syms(), lxr.nls@) == spec_lex(s@),
            invariant
                lxr.src@ == s@,
                lxr.wf(),
            ensures
                lxr.src@ == s@,
                lxr.wf(),
                spec_lex(s@) == LexOutcome::Done(res@, lxr.syms(), lxr.nls@),
            decreases s@.len() - lxr.end(),
        {
            let ghost p = lxr.end();
            let ghost syms = lxr.syms();
            let ghost nls = lxr.nls@;
            proof {
                lemma_step_advances(s@, p, syms, nls);
            }
            let t = match lxr.next_token() {
                Some(Ok(t)) => t,
                Some(Err(e)) => {
                    let nls = lxr.nls;
                    return Some(Err((e, nls)));
                },
                None => {
                    return None;
                },
            };
            res.push(t);
            if t.is_eof() {
                break;
            }
        }
        let symbols = lxr.sym.to_vec();
        Some(Ok(LexRes { tokens: res, symbols, newlines: lxr.nls }))
    }

    /// Splits `s`, which the lexer handles, into tokens, Err = Error and
    /// NewLines.
    pub fn tokenize(s: &'src [u8]) -> (r: Result<LexRes, (Error, Vec<u32>)>)
        requires
            lexable(s@),
        ensures
            lex_result_matches(r, spec_lex(s@)),
    {
        match Self::try_tokenize(s) {
            Some(r) => r,
            None => {
                proof {
                    assert(false);
                }
                Err((Error { wat: "", pos: Pos::default() }, Vec::new()))
            },
        }
    }

    /// Interns a new symbol and returns its id; nothing where the ids run
    /// out.
    fn intern(&mut self, s: &[u8]) -> (r: Option<SymId>)
        requires
            old(self).wf(),
        ensures
            final(self).wf(),
            final(self).src == old(self).src,
            final(self).cur == old(self).cur,
            final(self).nls@ == old(self).nls@,
            sym_index(old(self).syms(), s@) <= 0xffff ==> r == Some(sym_index(old(self).syms(), s@) as SymId),
            sym_index(old(self).syms(), s@) > 0xffff ==> r is None,
            final(self).syms() == if sym_index(old(self).syms(), s@) == old(self).syms().len() {
                old(self).syms().push(s@)
            } else {
                old(self).syms()
            },
    {
        // zero copy Symbol, its hash makes comparing faster
        let aux = Sym::from_slice(s);
        let ghost old_sym = self.sym@;
        let i = self.sym.add_clone(aux);
        proof {
            if is_first_match(old_sym, aux, None) {
                lemma_first_match_sym_index(old_sym, aux, None);
                assert(self.sym@.take(old_sym.len() as int) == old_sym);
                assert forall|k: int| 0 <= k < self.sym@.len() implies (#[trigger] self.sym@[k]).wf() by {
                    if k < old_sym.len() {
                        assert(self.sym@[k] == self.sym@.take(old_sym.len() as int)[k]);
                    }
                }
                assert(sym_views(self.sym@) =~= sym_views(old_sym).push(s@));
            } else {
                lemma_first_match_sym_index(old_sym, aux, Some(i));
            }
        }
        if i > 0xffff {
            None
        } else {
            Some(i as SymId)
        }
    }

    fn new_token(&self, tok: Tok) -> (r: Token)
        ensures
            r == (Token { tok, pos: self.cur }),
    {
        Token { tok, pos: self.cur }
    }

    fn new_error(&self, wat: &'static str) -> (r: Error)
        ensures
            r == (Error { wat, pos: self.cur }),
    {
        Error { wat, pos: self.cur }
    }

    fn end_idx(&self) -> (r: usize)
        requires
            self.wf(),
        ensures
            r == self.end(),
    {
        self.cur.end() as usize
    }

    fn reset_cur(&mut self)
        requires
            old(self).wf(),
        ensures
            final(self).wf(),
            final(self).src == old(self).src,
            final(self).sym@ == old(self).sym@,
            final(self).nls@ == old(self).nls@,
            final(self).cur.beg == old(self).end(),
            final(self).cur.len == 0,
    {
        self.cur.beg = self.cur.end();
        self.cur.len = 0;
    }

    fn lexeme(&self) -> (r: &'src [u8])
        requires
            self.wf(),
        ensures
            r@ == self.src@.subrange(self.cur.beg as int, self.end()),
    {
        slice_range(self.src, self.cur.beg as usize, self.end_idx())
    }

    fn is_at_end(&self) -> (r: bool)
        requires
            self.wf(),
        ensures
            r == (self.end() == self.src@.len()),
    {
        self.end_idx() == self.src.len()
    }

    fn advance(&mut self)
        requires
            old(self).wf(),
        ensures
            final(self).wf(),
            final(self).src == old(self).src,
            final(self).sym@ == old(self).sym@,
            final(self).nls@ == old(self).nls@,
            final(self).cur.beg == old(self).cur.beg,
            final(self).end() == if old(self).end() < old(self).src@.len() {
                old(self).end() + 1
            } else {
                old(self).end()
            },
    {
        if !self.is_at_end() {
            self.cur.len += 1;
        }
    }

    /// Advances over the digits.
    fn adv_while_digit(&mut self)
        requires
            old(self).wf(),
        ensures
            final(self).wf(),
            final(self).src == old(self).src,
            final(self).sym@ == old(self).sym@,
            final(self).nls@ == old(self).nls@,
            final(self).cur.beg == old(self).cur.beg,
            final(self).end() == digits_end(old(self).src@, old(self).end()),
    {
        loop
            invariant
                self.wf(),
                self.src == old(self).src,
                self.sym@ == old(self).sym@,
                self.nls@ == old(self).nls@,
                self.cur.beg == old(self).cur.beg,
                digits_end(self.src@, self.end()) == digits_end(old(self).src@, old(self).end()),
            ensures
                self.wf(),
                self.src == old(self).src,
                self.sym@ == old(self).sym@,
                self.nls@ == old(self).nls@,
                self.cur.beg == old(self).cur.beg,
                self.end() == digits_end(old(self).src@, old(self).end()),
            decreases self.src@.len() - self.end(),
        {
            match self.peek() {
                Some(c) => {
                    if 48 <= c && c <= 57 {
                        self.advance();
                    } else {
                        break;
                    }
                },
                None => break,
            }
        }
    }

    /// Advances over the letters and digits.
    fn adv_while_alnum(&mut self)
        requires
            old(self).wf(),
        ensures
            final(self).wf(),
            final(self).src == old(self).src,
            final(self).sym@ == old(self).sym@,
            final(self).nls@ == old(self).nls@,
            final(self).cur.beg == old(self).cur.beg,
            final(self).end() == alnum_end(old(self).src@, old(self).end()),
    {
        loop
            invariant
                self.wf(),
                self.src == old(self).src,
                self.sym@ == old(self).sym@,
                self.nls@ == old(self).nls@,
                self.cur.beg == old(self).cur.beg,
                alnum_end(self.src@, self.end()) == alnum_end(old(self).src@, old(self).end()),
            ensures
                self.wf(),
                self.src == old(self).src,
                self.sym@ == old(self).sym@,
                self.nls@ == old(self).nls@,
                self.cur.beg == old(self).cur.beg,
                self.end() == alnum_end(old(self).src@, old(self).end()),
            decreases self.src@.len() - self.end(),
        {
            match self.peek() {
                Some(c) => {
                    if (48 <= c && c <= 57) || (65 <= c && c <= 90) || (97 <= c && c <= 122) {
                        self.advance();
                    } else {
                        break;
                    }
                },
                None => break,
            }
        }
    }

    /// Skips whitespace, recording the index of each newline.
    fn skip_whites(&mut self)
        requires
            old(self).wf(),
        ensures
            final(self).wf(),
            final(self).src == old(self).src,
            final(self).sym@ == old(self).sym@,
            final(self).cur.beg == old(self).cur.beg,
            final(self).end() == ws_end(old(self).src@, old(self).end()),
            final(self).nls@ == old(self).nls@ + newlines_in(
                old(self).src@,
                old(self).end(),
                ws_end(old(self).src@, old(self).end()),
            ),
    {
        let ghost p = self.end();
        loop
            invariant
                self.wf(),
                self.src == old(self).src,
                self.sym@ == old(self).sym@,
                self.cur.beg == old(self).cur.beg,
                p <= self.end(),
                ws_end(self.src@, self.end()) == ws_end(old(self).src@, p),
                self.nls@ == old(self).nls@ + newlines_in(self.src@, p, self.end()),
            ensures
                self.wf(),
                self.src == old(self).src,
                self.sym@ == old(self).sym@,
                self.cur.beg == old(self).cur.beg,
                self.end() == ws_end(old(self).src@, p),
                self.nls@ == old(self).nls@ + newlines_in(self.src@, p, self.end()),
            decreases self.src@.len() - self.end(),
        {
            let w = match self.peek() {
                Some(w) => w,
                None => break,
            };
            if !(w == 32 || w == 9 || w == 10 || w == 12 || w == 13) {
                break;
            }
            if w == 10 {
                self.nls.push(self.cur.end());
            }
            self.advance();
            assert(self.nls@ =~= old(self).nls@ + newlines_in(self.src@, p, self.end()));
        }
    }

    fn peek(&self) -> (r: Option<u8>)
        requires
            self.wf(),
        ensures
            r == if self.end() < self.src@.len() {
                Some(self.src@[self.end()])
            } else {
                None::<u8>
            },
    {
        self.peekn(0)
    }

    /// Peeks `la` bytes ahead: 0 peeks, 1 peeks the next.
    fn peekn(&self, la: usize) -> (r: Option<u8>)
        requires
            self.wf(),
            la <= 1,
        ensures
            r == if self.end() + la < self.src@.len() {
                Some(self.src@[self.end() + la])
            } else {
                None::<u8>
            },
    {
        let i = self.end_idx() + la;
        if i < self.src.len() {
            Some(self.src[i])
        } else {
            None
        }
    }

    fn matches(&self, m: u8) -> (r: bool)
        requires
            self.wf(),
        ensures
            r == at_is(self.src@, self.end(), m),
    {
        self.matchesn(0, m)
    }

    fn matchesn(&self, la: usize, m: u8) -> (r: bool)
        requires
            self.wf(),
            la <= 1,
        ensures
            r == at_is(self.src@, self.end() + la, m),
    {
        match self.peekn(la) {
            Some(c) => c == m,
            None => false,
        }
    }

    fn next_char(&mut self) -> (r: Option<u8>)
        requires
            old(self).wf(),
        ensures
            final(self).wf(),
            final(self).src == old(self).src,
            final(self).sym@ == old(self).sym@,
            final(self).nls@ == old(self).nls@,
            final(self).cur.beg == old(self).cur.beg,
            r == if old(self).end() < old(self).src@.len() {
                Some(old(self).src@[old(self).end()])
            } else {
                None::<u8>
            },
            final(self).end() == if old(self).end() < old(self).src@.len() {
                old(self).end() + 1
            } else {
                old(self).end()
            },
    {
        let tmp = self.peek();
        self.advance();
        tmp
    }


    fn from_plus(&mut self) -> (r: Token)
        requires
            old(self).wf(),
            old(self).cur.len == 1,
            at_is(old(self).src@, old(self).cur.beg as int, 43),
        ensures
            final(self).wf(),
            final(self).src == old(self).src,
            final(self).sym@ == old(self).sym@,
            final(self).nls@ == old(self).nls@,
            final(self).cur.beg == old(self).cur.beg,
            tok_result(old(self).src@, old(self).cur.beg as int, r, final(self).end()),
    {
        if let Some(t) = self.if_next(43, Tok::Plus2) {
            return t;
        }
        self.new_token(Tok::Plus)
    }

    fn from_minus(&mut self) -> (r: Token)
        requires
            old(self).wf(),
            old(self).cur.len == 1,
            at_is(old(self).src@, old(self).cur.beg as int, 45),
        ensures
            final(self).wf(),
            final(self).src == old(self).src,
            final(self).sym@ == old(self).sym@,
            final(self).nls@ == old(self).nls@,
            final(self).cur.beg == old(self).cur.beg,
            tok_result(old(self).src@, old(self).cur.beg as int, r, final(self).end()),
    {
        if let Some(t) = self.if_next(45, Tok::Minus2) {
            return t;
        }
        self.new_token(Tok::Minus)
    }

    fn from_star(&mut self) -> (r: Token)
        requires
            old(self).wf(),
            old(self).cur.len == 1,
            at_is(old(self).src@, old(self).cur.beg as int, 42),
        ensures
            final(self).wf(),
            final(self).src == old(self).src,
            final(self).sym@ == old(self).sym@,
            final(self).nls@ == old(self).nls@,
            final(self).cur.beg == old(self).cur.beg,
            tok_result(old(self).src@, old(self).cur.beg as int, r, final(self).end()),
    {
        if let Some(t) = self.if_next(42, Tok::Star2) {
            return t;
        }
        self.new_token(Tok::Star)
    }

    fn from_slash(&mut self) -> (r: Token)
        requires
            old(self).wf(),
            old(self).cur.len == 1,
            at_is(old(self).src@, old(self).cur.beg as int, 47),
        ensures
            final(self).wf(),
            final(self).src == old(self).src,
            final(self).sym@ == old(self).sym@,
            final(self).nls@ == old(self).nls@,
            final(self).cur.beg == old(self).cur.beg,
            tok_result(old(self).src@, old(self).cur.beg as int, r, final(self).end()),
    {
        if let Some(t) = self.if_next(47, Tok::Slash2) {
            return t;
        }
        self.new_token(Tok::Slash)
    }

    fn from_lsqbra(&mut self) -> (r: Token)
        requires
            old(self).wf(),
            old(self).cur.len == 1,
            at_is(old(self).src@, old(self).cur.beg as int, 91),
        ensures
            final(self).wf(),
            final(self).src == old(self).src,
            final(self).sym@ == old(self).sym@,
            final(self).nls@ == old(self).nls@,
            final(self).cur.beg == old(self).cur.beg,
            tok_result(old(self).src@, old(self).cur.beg as int, r, final(self).end()),
    {
        if let Some(t) = self.if_next(91, Tok::LsqBra2) {
            return t;
        }
        self.new_token(Tok::LsqBra)
    }

    fn from_rsqbra(&mut self) -> (r: Token)
        requires
            old(self).wf(),
            old(self).cur.len == 1,
            at_is(old(self).src@, old(self).cur.beg as int, 93),
        ensures
            final(self).wf(),
            final(self).src == old(self).src,
            final(self).sym@ == old(self).sym@,
            final(self).nls@ == old(self).nls@,
            final(self).cur.beg == old(self).cur.beg,
            tok_result(old(self).src@, old(self).cur.beg as int, r, final(self).end()),
    {
        if let Some(t) = self.if_next(93, Tok::RsqBra2) {
            return t;
        }
        self.new_token(Tok::RsqBra)
    }

    fn from_caret(&mut self) -> (r: Token)
        requires
            old(self).wf(),
            old(self).cur.len == 1,
            at_is(old(self).src@, old(self).cur.beg as int, 94),
        ensures
            final(self).wf(),
            final(self).src == old(self).src,
            final(self).sym@ == old(self).sym@,
            final(self).nls@ == old(self).nls@,
            final(self).cur.beg == old(self).cur.beg,
            tok_result(old(self).src@, old(self).cur.beg as int, r, final(self).end()),
    {
        if let Some(t) = self.if_next(94, Tok::Caret2) {
            return t;
        }
        self.new_token(Tok::Caret)
    }

    fn from_atsign(&mut self) -> (r: Token)
        requires
            old(self).wf(),
            old(self).cur.len == 1,
            at_is(old(self).src@, old(self).cur.beg as int, 64),
        ensures
            final(self).wf(),
            final(self).src == old(self).src,
            final(self).sym@ == old(self).sym@,
            final(self).nls@ == old(self).nls@,
            final(self).cur.beg == old(self).cur.beg,
            tok_result(old(self).src@, old(self).cur.beg as int, r, final(self).end()),
    {
        if let Some(t) = self.if_next(64, Tok::AtSign2) {
            return t;
        }
        self.new_token(Tok::AtSign)
    }

    fn from_and(&mut self) -> (r: Token)
        requires
            old(self).wf(),
            old(self).cur.len == 1,
            at_is(old(self).src@, old(self).cur.beg as int, 38),
        ensures
            final(self).wf(),
            final(self).src == old(self).src,
            final(self).sym@ == old(self).sym@,
            final(self).nls@ == old(self).nls@,
            final(self).cur.beg == old(self).cur.beg,
            tok_result(old(self).src@, old(self).cur.beg as int, r, final(self).end()),
    {
        if let Some(t) = self.if_next(38, Tok::And2) {
            return t;
        }
        if let Some(t) = self.if_next(63, Tok::AndQu) {
            return t;
        }
        self.new_token(Tok::And)
    }

    fn from_vbar(&mut self) -> (r: Token)
        requires
            old(self).wf(),
            old(self).cur.len == 1,
            at_is(old(self).src@, old(self).cur.beg as int, 124),
        ensures
            final(self).wf(),
            final(self).src == old(self).src,
            final(self).sym@ == old(self).sym@,
            final(self).nls@ == old(self).nls@,
            final(self).cur.beg == old(self).cur.beg,
            tok_result(old(self).src@, old(self).cur.beg as int, r, final(self).end()),
    {
        if let Some(t) = self.if_next(124, Tok::Vbar2) {
            return t;
        }
        if let Some(t) = self.if_next(63, Tok::VbarQu) {
            return t;
        }
        self.new_token(Tok::Vbar)
    }

    fn from_tilde(&mut self) -> (r: Token)
        requires
            old(self).wf(),
            old(self).cur.len == 1,
            at_is(old(self).src@, old(self).cur.beg as int, 126),
        ensures
            final(self).wf(),
            final(self).src == old(self).src,
            final(self).sym@ == old(self).sym@,
            final(self).nls@ == old(self).nls@,
            final(self).cur.beg == old(self).cur.beg,
            tok_result(old(self).src@, old(self).cur.beg as int, r, final(self).end()),
    {
        if let Some(t) = self.if_next(126, Tok::Tilde2) {
            return t;
        }
        if let Some(t) = self.if_next(61, Tok::Ne) {
            return t;
        }
        self.new_token(Tok::Tilde)
    }

    fn from_equal(&mut self) -> (r: Token)
        requires
            old(self).wf(),
            old(self).cur.len == 1,
            at_is(old(self).src@, old(self).cur.beg as int, 61),
        ensures
            final(self).wf(),
            final(self).src == old(self).src,
            final(self).sym@ == old(self).sym@,
            final(self).nls@ == old(self).nls@,
            final(self).cur.beg == old(self).cur.beg,
            tok_result(old(self).src@, old(self).cur.beg as int, r, final(self).end()),
    {
        if let Some(t) = self.if_next(61, Tok::Equal2) {
            return t;
        }
        if let Some(t) = self.if_next(62, Tok::Then) {
            return t;
        }
        self.new_token(Tok::Equal)
    }

    fn from_langle(&mut self) -> (r: Token)
        requires
            old(self).wf(),
            old(self).cur.len == 1,
            at_is(old(self).src@, old(self).cur.beg as int, 60),
        ensures
            final(self).wf(),
            final(self).src == old(self).src,
            final(self).sym@ == old(self).sym@,
            final(self).nls@ == old(self).nls@,
            final(self).cur.beg == old(self).cur.beg,
            tok_result(old(self).src@, old(self).cur.beg as int, r, final(self).end()),
    {
        if let Some(t) = self.if_next(61, Tok::Le) {
            return t;
        }
        self.new_token(Tok::Langle)
    }

    fn from_rangle(&mut self) -> (r: Token)
        requires
            old(self).wf(),
            old(self).cur.len == 1,
            at_is(old(self).src@, old(self).cur.beg as int, 62),
        ensures
            final(self).wf(),
            final(self).src == old(self).src,
            final(self).sym@ == old(self).sym@,
            final(self).nls@ == old(self).nls@,
            final(self).cur.beg == old(self).cur.beg,
            tok_result(old(self).src@, old(self).cur.beg as int, r, final(self).end()),
    {
        if let Some(t) = self.if_next(61, Tok::Ge) {
            return t;
        }
        self.new_token(Tok::Rangle)
    }

    fn from_bang(&mut self) -> (r: Token)
        requires
            old(self).wf(),
            old(self).cur.len == 1,
            at_is(old(self).src@, old(self).cur.beg as int, 33),
        ensures
            final(self).wf(),
            final(self).src == old(self).src,
            final(self).sym@ == old(self).sym@,
            final(self).nls@ == old(self).nls@,
            final(self).cur.beg == old(self).cur.beg,
            tok_result(old(self).src@, old(self).cur.beg as int, r, final(self).end()),
    {
        if let Some(t) = self.if_next(64, Tok::RecP) {
            return t;
        }
        if let Some(t) = self.if_next(36, Tok::BangDollar) {
            return t;
        }
        self.new_token(Tok::Bang)
    }

    fn from_hash(&mut self) -> (r: Token)
        requires
            old(self).wf(),
            old(self).cur.len == 1,
            at_is(old(self).src@, old(self).cur.beg as int, 35),
        ensures
            final(self).wf(),
            final(self).src == old(self).src,
            final(self).sym@ == old(self).sym@,
            final(self).nls@ == old(self).nls@,
            final(self).cur.beg == old(self).cur.beg,
            tok_result(old(self).src@, old(self).cur.beg as int, r, final(self).end()),
    {
        if let Some(t) = self.if_next(64, Tok::RecF) {
            return t;
        }
        if let Some(t) = self.if_next(36, Tok::HashDollar) {
            return t;
        }
        self.new_token(Tok::Hash)
    }

    fn from_bslash(&mut self) -> (r: Token)
        requires
            old(self).wf(),
            old(self).cur.len == 1,
            at_is(old(self).src@, old(self).cur.beg as int, 92),
        ensures
            final(self).wf(),
            final(self).src == old(self).src,
            final(self).sym@ == old(self).sym@,
            final(self).nls@ == old(self).nls@,
            final(self).cur.beg == old(self).cur.beg,
            tok_result(old(self).src@, old(self).cur.beg as int, r, final(self).end()),
    {
        if let Some(t) = self.if_next(92, Tok::Bslash2) {
            return t;
        }
        if let Some(t) = self.if_next(91, Tok::BsLsb) {
            return t;
        }
        if let Some(t) = self.if_next(35, Tok::BsHash) {
            return t;
        }
        self.new_token(Tok::Bslash)
    }

    fn from_period(&mut self) -> (r: Token)
        requires
            old(self).wf(),
            old(self).cur.len == 1,
            at_is(old(self).src@, old(self).cur.beg as int, 46),
        ensures
            final(self).wf(),
            final(self).src == old(self).src,
            final(self).sym@ == old(self).sym@,
            final(self).nls@ == old(self).nls@,
            final(self).cur.beg == old(self).cur.beg,
            tok_result(old(self).src@, old(self).cur.beg as int, r, final(self).end()),
    {
        if let Some(t) = self.if_next(64, Tok::DotAt) {
            return t;
        }
        if let Some(t) = self.if_next(35, Tok::DotHash) {
            return t;
        }
        if let Some(t) = self.if_next(33, Tok::DotBang) {
            return t;
        }
        self.new_token(Tok::Period)
    }

    /// A token of kind `t` where the next byte is `c`.
    fn if_next(&mut self, c: u8, t: Tok) -> (r: Option<Token>)
        requires
            old(self).wf(),
        ensures
            final(self).wf(),
            final(self).src == old(self).src,
            final(self).sym@ == old(self).sym@,
            final(self).nls@ == old(self).nls@,
            final(self).cur.beg == old(self).cur.beg,
            if at_is(old(self).src@, old(self).end(), c) {
                &&& final(self).end() == old(self).end() + 1
                &&& r == Some(
                    Token { tok: t, pos: Pos { beg: old(self).cur.beg, len: (old(self).cur.len + 1) as u32 } },
                )
            } else {
                final(self).cur == old(self).cur && r == None::<Token>
            },
    {
        if self.matches(c) {
            self.advance();
            return Some(self.new_token(t));
        }
        None
    }

    /// The next token or error; nothing on an input the lexer does not
    /// handle.
    fn next_token(&mut self) -> (r: Option<Result<Token, Error>>)
        requires
            old(self).wf(),
        ensures
            final(self).wf(),
            final(self).src == old(self).src,
            match step(old(self).src@, old(self).end(), old(self).syms(), old(self).nls@) {
                Step::Tok(t, p2, syms2, nls2) => r == Some(Ok::<Token, Error>(t)) && final(self).end() == p2
                    && final(self).syms() == syms2 && final(self).nls@ == nls2,
                Step::Fail(e, n2) => r == Some(Err::<Token, Error>(e)) && final(self).nls@ == n2,
                Step::Stuck => r is None,
            },
    {
        let ghost src = self.src@;
        let ghost p = self.end();
        self.skip_whites();
        self.reset_cur();
        let ghost q = self.cur.beg as int;
        assert(q == ws_end(src, p));
        let c = match self.next_char() {
            Some(c) => c,
            None => {
                return Some(Ok(self.new_token(Tok::Eof)));
            },
        };
        assert(c == src[q]);
        match c {
            // simple
            95 => Some(Ok(self.new_token(Tok::Uscore))),
            44 => Some(Ok(self.new_token(Tok::Comma))),
            59 => Some(Ok(self.new_token(Tok::Semic))),
            40 => Some(Ok(self.new_token(Tok::Lparen))),
            41 => Some(Ok(self.new_token(Tok::Rparen))),
            123 => Some(Ok(self.new_token(Tok::Lbrace))),
            125 => Some(Ok(self.new_token(Tok::Rbrace))),
            58 => Some(Ok(self.new_token(Tok::Colon))),
            37 => Some(Ok(self.new_token(Tok::Percent))),
            // other
            43 => Some(Ok(self.from_plus())),
            45 => Some(Ok(self.from_minus())),
            42 => Some(Ok(self.from_star())),
            47 => Some(Ok(self.from_slash())),
            91 => Some(Ok(self.from_lsqbra())),
            93 => Some(Ok(self.from_rsqbra())),
            94 => Some(Ok(self.from_caret())),
            64 => Some(Ok(self.from_atsign())),
            38 => Some(Ok(self.from_and())),
            124 => Some(Ok(self.from_vbar())),
            35 => Some(Ok(self.from_hash())),
            33 => Some(Ok(self.from_bang())),
            46 => Some(Ok(self.from_period())),  // ., .@
            126 => Some(Ok(self.from_tilde())),  // ~, ~~, ~=
            61 => Some(Ok(self.from_equal())),  // =, ==, =>
            60 => Some(Ok(self.from_langle())),  // <, <=
            62 => Some(Ok(self.from_rangle())),  // >, >=
            92 => Some(Ok(self.from_bslash())),
            48..=57 => match self.get_num() {
                Some(t) => Some(Ok(t)),
                None => None,
            },  // N, Z or R
            65..=90 | 97..=122 => match self.get_ident() {
                Some(t) => Some(Ok(t)),
                None => None,
            },
            34 => Some(self.get_char()),
            96 => match self.comment() {
                Some(t) => Some(Ok(t)),
                None => None,
            },
            _ => Some(Err(self.new_error("unknown char"))),
        }
    }

    /// Called at a digit; nothing where the number does not fit its type.
    fn get_num(&mut self) -> (r: Option<Token>)
        requires
            old(self).wf(),
            old(self).cur.len == 1,
            old(self).cur.beg < old(self).src@.len(),
            is_digit(old(self).src@[old(self).cur.beg as int]),
        ensures
            final(self).wf(),
            final(self).src == old(self).src,
            final(self).sym@ == old(self).sym@,
            final(self).nls@ == old(self).nls@,
            final(self).cur.beg == old(self).cur.beg,
            match scan_num(old(self).src@, old(self).cur.beg as int) {
                Scan::Tok(t, n) => r == Some(Token { tok: t, pos: Pos { beg: old(self).cur.beg, len: n as u32 } })
                    && final(self).end() == old(self).cur.beg + n,
                Scan::Stuck => r is None,
                _ => false,
            },
    {
        let ghost src = self.src@;
        let ghost q = self.cur.beg as int;
        self.adv_while_digit();
        let ghost e = self.end();
        assert(e == digits_end(src, q + 1));
        proof {
            lemma_digits(src, q + 1);
            lemma_digits(src, q);
        }
        if self.matches(117) {
            let n = match parse_num(self.lexeme(), 0xffff_ffff) {
                Some(n) => n as u32,
                None => {
                    return None;  // too large for an N%
                },
            };
            self.advance();  // u
            return Some(self.new_token(Tok::ValN(n)));
        }
        // til here we have a number "\d+", then check whether it's an R% "\d+\.\d+"
        if !(self.matches(46) && self.has_digit_next()) {
            let z = match parse_num(self.lexeme(), 0x7fff_ffff) {
                Some(z) => z as i32,
                None => {
                    return None;  // too large for a Z%
                },
            };
            return Some(self.new_token(Tok::ValZ(z)));
        }
        self.advance();  // .
        self.adv_while_digit();  // \d+
        Some(self.new_token(Tok::ValR))
    }

    /// Called at a letter: a literal `T`, `F` or `V`, or an identifier;
    /// nothing where the ids run out.
    fn get_ident(&mut self) -> (r: Option<Token>)
        requires
            old(self).wf(),
            old(self).cur.len == 1,
            old(self).cur.beg < old(self).src@.len(),
            is_alpha(old(self).src@[old(self).cur.beg as int]),
        ensures
            final(self).wf(),
            final(self).src == old(self).src,
            final(self).nls@ == old(self).nls@,
            final(self).cur.beg == old(self).cur.beg,
            ({
                let q = old(self).cur.beg as int;
                let e = alnum_end(old(self).src@, q + 1);
                let lx = old(self).src@.subrange(q, e);
                let i = sym_index(old(self).syms(), lx);
                if word_lit(old(self).src@, q) is Some {
                    &&& final(self).end() == q + 1
                    &&& r == Some(Token { tok: word_lit(old(self).src@, q)->Some_0, pos: Pos { beg: q as u32, len: 1 } })
                    &&& final(self).syms() == old(self).syms()
                } else if i > 0xffff {
                    r is None
                } else {
                    &&& final(self).end() == e
                    &&& r == Some(Token { tok: Tok::Ident(i as u16), pos: Pos { beg: q as u32, len: (e - q) as u32 } })
                    &&& final(self).syms() == if i == old(self).syms().len() {
                        old(self).syms().push(lx)
                    } else {
                        old(self).syms()
                    }
                }
            }),
    {
        self.adv_while_alnum();
        if self.cur.len == 1 {
            let c = self.lexeme()[0];
            if c == 84 {
                return Some(self.new_token(Tok::ValB(true)));
            } else if c == 70 {
                return Some(self.new_token(Tok::ValB(false)));
            } else if c == 86 {
                return Some(self.new_token(Tok::ValV));
            }
        }
        let lx = self.lexeme();
        match self.intern(lx) {
            Some(id) => Some(self.new_token(Tok::Ident(id))),
            None => None,
        }
    }

    /// Called at a double quote: a character literal.
    fn get_char(&mut self) -> (r: Result<Token, Error>)
        requires
            old(self).wf(),
            old(self).cur.len == 1,
            at_is(old(self).src@, old(self).cur.beg as int, 34),
        ensures
            final(self).wf(),
            final(self).src == old(self).src,
            final(self).sym@ == old(self).sym@,
            final(self).nls@ == old(self).nls@,
            final(self).cur.beg == old(self).cur.beg,
            match scan_char(old(self).src@, old(self).cur.beg as int) {
                Scan::Tok(t, n) => r == Ok::<Token, Error>(
                    Token { tok: t, pos: Pos { beg: old(self).cur.beg, len: n as u32 } },
                ) && final(self).end() == old(self).cur.beg + n,
                Scan::Fail(m, n) => r == Err::<Token, Error>(
                    Error { wat: m, pos: Pos { beg: old(self).cur.beg, len: n as u32 } },
                ),
                _ => false,
            },
    {
        let c = match self.next_char() {
            Some(c) => c,
            None => {
                return Err(self.new_error("unclosed C literal"));
            },
        };
        // normal chars
        match self.next_char() {
            Some(34) => {},
            _ => {
                return Err(self.new_error("unclosed C literal (end \" not found)"));
            },
        }
        Ok(self.new_token(Tok::ValC(c)))
    }

    /// Called at a backquote: a comment; nothing for a block comment, which
    /// is not handled.
    fn comment(&mut self) -> (r: Option<Token>)
        requires
            old(self).wf(),
            old(self).cur.len == 1,
            at_is(old(self).src@, old(self).cur.beg as int, 96),
        ensures
            final(self).wf(),
            final(self).src == old(self).src,
            final(self).sym@ == old(self).sym@,
            final(self).nls@ == old(self).nls@,
            final(self).cur.beg == old(self).cur.beg,
            at_is(old(self).src@, old(self).cur.beg + 1, 39) ==> r is None,
            !at_is(old(self).src@, old(self).cur.beg + 1, 39) ==> (r matches Some(t) && tok_result(
                old(self).src@,
                old(self).cur.beg as int,
                t,
                final(self).end(),
            )),
    {
        if self.matches(39) {
            None  // block comments are not handled
        } else {
            Some(self.line_comment())
        }
    }

    /// A comment up to the end of the line.
    fn line_comment(&mut self) -> (r: Token)
        requires
            old(self).wf(),
            old(self).cur.len == 1,
            old(self).cur.beg < old(self).src@.len(),
        ensures
            final(self).wf(),
            final(self).src == old(self).src,
            final(self).sym@ == old(self).sym@,
            final(self).nls@ == old(self).nls@,
            final(self).cur.beg == old(self).cur.beg,
            final(self).end() == line_end(old(self).src@, old(self).cur.beg + 1),
            r == (Token {
                tok: Tok::Comment,
                pos: Pos {
                    beg: old(self).cur.beg,
                    len: (line_end(old(self).src@, old(self).cur.beg + 1) - old(self).cur.beg) as u32,
                },
            }),
    {
        while !self.matchesn(0, 10) && !self.is_at_end()
            invariant
                self.wf(),
                self.src == old(self).src,
                self.sym@ == old(self).sym@,
                self.nls@ == old(self).nls@,
                self.cur.beg == old(self).cur.beg,
                line_end(self.src@, self.end()) == line_end(old(self).src@, old(self).cur.beg + 1),
            decreases self.src@.len() - self.end(),
        {
            self.advance();
        }
        self.new_token(Tok::Comment)
    }

    fn has_digit_next(&self) -> (r: bool)
        requires
            self.wf(),
        ensures
            r == (self.end() + 1 < self.src@.len() && is_digit(self.src@[self.end() + 1])),
    {
        match self.peekn(1) {
            Some(c) => 48 <= c && c <= 57,
            None => false,
        }
    }
}

/// The value of the decimal digits `s`, where it is at most `max`.
fn parse_num(s: &[u8], max: u64) -> (r: Option<u64>)
    requires
        forall|i: int| 0 <= i < s@.len() ==> is_digit(#[trigger] s@[i]),
        max <= u32::MAX,
    ensures
        match r {
            Some(v) => v == dec_value(s@) && v <= max,
            None => dec_value(s@) > max,
        },
{
    let mut v: u64 = 0;
    let mut i: usize = 0;
    while i < s.len()
        invariant
            i <= s@.len(),
            forall|k: int| 0 <= k < s@.len() ==> is_digit(#[trigger] s@[k]),
            max <= u32::MAX,
            v == dec_value(s@.take(i as int)),
            v <= max,
        decreases s@.len() - i,
    {
        proof {
            lemma_dec_prefix(s@, i + 1);
            assert(s@.take(i + 1).drop_last() =~= s@.take(i as int));
        }
        let w = v * 10 + (s[i] - 48) as u64;
        if w > max {
            return None;
        }
        v = w;
        i += 1;
    }
    assert(s@.take(s@.len() as int) =~= s@);
    Some(v)
}

/// The value of a prefix of a string of digits is at most the value of the
/// whole string.
proof fn lemma_dec_prefix(s: Seq<u8>, i: int)
    requires
        0 <= i <= s.len(),
        forall|k: int| 0 <= k < s.len() ==> is_digit(#[trigger] s[k]),
    ensures
        0 <= dec_value(s.take(i)) <= dec_value(s),
    decreases s.len() - i,
{
    lemma_dec_nonneg(s.take(i));
    if i < s.len() {
        lemma_dec_prefix(s, i + 1);
        assert(s.take(i + 1).drop_last() =~= s.take(i));
        assert(is_digit(s[i]));
    } else {
        assert(s.take(i) =~= s);
    }
}

proof fn lemma_dec_nonneg(s: Seq<u8>)
    requires
        forall|k: int| 0 <= k < s.len() ==> is_digit(#[trigger] s[k]),
    ensures
        dec_value(s) >= 0,
    decreases s.len(),
{
    if s.len() > 0 {
        lemma_dec_nonneg(s.drop_last());
        assert(is_digit(s[s.len() - 1]));
    }
}

/// The digits that begin at `p` end at `digits_end`.
proof fn lemma_digits(src: Seq<u8>, p: int)
    requires
        0 <= p <= src.len(),
    ensures
        p <= digits_end(src, p) <= src.len(),
        forall|k: int| p <= k < digits_end(src, p) ==> is_digit(#[trigger] src[k]),
    decreases src.len() - p,
{
    if p < src.len() && is_digit(src[p]) {
        lemma_digits(src, p + 1);
    }
}

proof fn lemma_ws_end(src: Seq<u8>, p: int)
    requires
        0 <= p <= src.len(),
    ensures
        p <= ws_end(src, p) <= src.len(),
    decreases src.len() - p,
{
    if p < src.len() && is_ws(src[p]) {
        lemma_ws_end(src, p + 1);
    }
}

proof fn lemma_alnum_end(src: Seq<u8>, p: int)
    requires
        0 <= p <= src.len(),
    ensures
        p <= alnum_end(src, p) <= src.len(),
    decreases src.len() - p,
{
    if p < src.len() && is_alnum(src[p]) {
        lemma_alnum_end(src, p + 1);
    }
}

proof fn lemma_line_end(src: Seq<u8>, p: int)
    requires
        0 <= p <= src.len(),
    ensures
        p <= line_end(src, p) <= src.len(),
    decreases src.len() - p,
{
    if p < src.len() && src[p] != 10 {
        lemma_line_end(src, p + 1);
    }
}

/// A token that is read takes at least one byte, all of them in the source.
proof fn lemma_scan_len(src: Seq<u8>, q: int)
    requires
        0 <= q < src.len(),
    ensures
        scan(src, q) matches Scan::Tok(_, n) ==> 1 <= n <= src.len() - q,
        scan(src, q) matches Scan::Ident(n) ==> 1 <= n <= src.len() - q,
{
    lemma_digits(src, q + 1);
    lemma_alnum_end(src, q + 1);
    lemma_line_end(src, q + 1);
    let e = digits_end(src, q + 1);
    if e + 1 < src.len() {
        lemma_digits(src, e + 1);
    }
}

/// A step that reads a token other than the end moves forward, within the
/// source.
proof fn lemma_step_advances(src: Seq<u8>, p: int, syms: Seq<Seq<u8>>, nls: Seq<u32>)
    requires
        0 <= p <= src.len(),
    ensures
        step(src, p, syms, nls) matches Step::Tok(t, p2, _, _) ==> (t.tok is Eof || p < p2 <= src.len()),
{
    lemma_ws_end(src, p);
    let q = ws_end(src, p);
    if q < src.len() {
        lemma_scan_len(src, q);
    }
}

/// The tokens `ts` all lie before position `p`, are fewer than `p`, and
/// begin in order.
pub open spec fn tokens_before(ts: Seq<Token>, p: int) -> bool {
    &&& ts.len() <= p
    &&& forall|i: int| 0 <= i < ts.len() ==> (#[trigger] ts[i]).pos.beg + ts[i].pos.len <= p
    &&& forall|i: int, j: int| #![trigger ts[i], ts[j]] 0 <= i <= j < ts.len() ==> ts[i].pos.beg <= ts[j].pos.beg
}

proof fn lemma_lex_from_parsable(src: Seq<u8>, p: int, toks: Seq<Token>, syms: Seq<Seq<u8>>, nls: Seq<u32>)
    requires
        0 <= p <= src.len(),
        src.len() < u32::MAX,
        tokens_before(toks, p),
    ensures
        lex_from(src, p, toks, syms, nls) matches LexOutcome::Done(ts, _, _) ==> parsable(ts),
    decreases src.len() - p,
{
    lemma_ws_end(src, p);
    let q = ws_end(src, p);
    if q < src.len() {
        lemma_scan_len(src, q);
    }
    match step(src, p, syms, nls) {
        Step::Tok(t, p2, syms2, nls2) => {
            let ts = toks.push(t);
            assert(t.pos.beg == q);
            assert forall|i: int, j: int| #![trigger ts[i], ts[j]] 0 <= i <= j < ts.len() implies ts[i].pos.beg
                <= ts[j].pos.beg by {
                if j == ts.len() - 1 && i < j {
                    assert(toks[i].pos.beg + toks[i].pos.len <= p);
                }
            }
            if t.tok is Eof {
                assert(t.pos.len == 0);
                assert forall|i: int| 0 <= i < ts.len() implies #[trigger] ts[i].pos.beg + ts[i].pos.len <= u32::MAX by {
                    if i < toks.len() {
                        assert(toks[i].pos.beg + toks[i].pos.len <= p);
                    }
                }
                assert(ts.last() == t);
            } else if p < p2 <= src.len() {
                assert(t.pos.beg + t.pos.len == p2);
                lemma_lex_from_parsable(src, p2, ts, syms2, nls2);
            }
        },
        _ => {},
    }
}

/// The parser takes whatever tokens the lexer gives.
pub proof fn lemma_lexed_parsable(src: Seq<u8>)
    requires
        src.len() < u32::MAX,
    ensures
        spec_lex(src) matches LexOutcome::Done(ts, _, _) ==> parsable(ts),
{
    lemma_lex_from_parsable(src, 0, seq![], seq![], seq![0u32]);
}

/// The newlines recorded up to position `p`: 0 first, then indices of
/// newlines of the source before `p`, in increasing order.
pub open spec fn newlines_ok(src: Seq<u8>, nls: Seq<u32>, p: int) -> bool {
    &&& nls.len() >= 1
    &&& nls[0] == 0
    &&& forall|i: int, j: int| #![trigger nls[i], nls[j]] 1 <= i < j < nls.len() ==> nls[i] < nls[j]
    &&& forall|i: int| 1 <= i < nls.len() ==> #[trigger] nls[i] < p && src[nls[i] as int] == 10
}

/// The newlines in `p..q` are indices of newlines there, in increasing
/// order.
proof fn lemma_newlines_in(src: Seq<u8>, p: int, q: int)
    requires
        0 <= p <= q <= src.len(),
        src.len() < u32::MAX,
    ensures
        forall|i: int| 0 <= i < newlines_in(src, p, q).len() ==> p <= #[trigger] newlines_in(src, p, q)[i] < q
            && src[newlines_in(src, p, q)[i] as int] == 10,
        forall|i: int, j: int| #![trigger newlines_in(src, p, q)[i], newlines_in(src, p, q)[j]]
            0 <= i < j < newlines_in(src, p, q).len() ==> newlines_in(src, p, q)[i] < newlines_in(src, p, q)[j],
    decreases q - p,
{
    if q > p {
        lemma_newlines_in(src, p, q - 1);
        let a = newlines_in(src, p, q - 1);
        let n = newlines_in(src, p, q);
        assert forall|i: int| 0 <= i < a.len() implies #[trigger] n[i] == a[i] by {}
    }
}

/// Each step keeps the newlines recorded in order.
proof fn lemma_lex_from_newlines(src: Seq<u8>, p: int, toks: Seq<Token>, syms: Seq<Seq<u8>>, nls: Seq<u32>)
    requires
        0 <= p <= src.len(),
        src.len() < u32::MAX,
        newlines_ok(src, nls, p),
    ensures
        match lex_from(src, p, toks, syms, nls) {
            LexOutcome::Done(_, _, n) => newlines_ok(src, n, src.len() as int),
            LexOutcome::Failed(_, n) => newlines_ok(src, n, src.len() as int),
            LexOutcome::Stuck => true,
        },
    decreases src.len() - p,
{
    lemma_ws_end(src, p);
    let q = ws_end(src, p);
    lemma_newlines_in(src, p, q);
    let w = newlines_in(src, p, q);
    let n2 = nls + w;
    assert(newlines_ok(src, n2, q)) by {
        assert forall|i: int| 1 <= i < n2.len() implies #[trigger] n2[i] < q && src[n2[i] as int] == 10 by {
            if i >= nls.len() {
                assert(n2[i] == w[i - nls.len()]);
            }
        }
        assert forall|i: int, j: int| #![trigger n2[i], n2[j]] 1 <= i < j < n2.len() implies n2[i] < n2[j] by {
            if j >= nls.len() {
                assert(n2[j] == w[j - nls.len()]);
                if i >= nls.len() {
                    assert(n2[i] == w[i - nls.len()]);
                } else {
                    assert(n2[i] == nls[i]);
                }
            }
        }
    }
    if q < src.len() {
        lemma_scan_len(src, q);
    }
    match step(src, p, syms, nls) {
        Step::Tok(t, p2, syms2, nls2) => {
            if !(t.tok is Eof) && p < p2 <= src.len() {
                assert(nls2 == n2);
                lemma_lex_from_newlines(src, p2, toks.push(t), syms2, nls2);
            }
        },
        _ => {},
    }
}

/// The newlines that the lexer records, whether it ends with its tokens or
/// with an error: 0 first, then indices of newlines of the source in
/// increasing order, all of them increasing where the source does not
/// begin with a newline.
pub proof fn lemma_lexed_newlines(src: Seq<u8>)
    requires
        src.len() < u32::MAX,
    ensures
        match spec_lex(src) {
            LexOutcome::Done(_, _, n) => newlines_ok(src, n, src.len() as int) && (src.len() > 0 && src[0] != 10
                ==> crate::tok::strictly_increasing(n)),
            LexOutcome::Failed(_, n) => newlines_ok(src, n, src.len() as int) && (src.len() > 0 && src[0] != 10
                ==> crate::tok::strictly_increasing(n)),
            LexOutcome::Stuck => true,
        },
{
    let n0 = seq![0u32];
    assert(newlines_ok(src, n0, 0));
    lemma_lex_from_newlines(src, 0, seq![], seq![], n0);
    match spec_lex(src) {
        LexOutcome::Done(_, _, n) => lemma_newlines_increasing(src, n),
        LexOutcome::Failed(_, n) => lemma_newlines_increasing(src, n),
        LexOutcome::Stuck => {},
    }
}

proof fn lemma_newlines_increasing(src: Seq<u8>, n: Seq<u32>)
    requires
        newlines_ok(src, n, src.len() as int),
    ensures
        src.len() > 0 && src[0] != 10 ==> crate::tok::strictly_increasing(n),
{
    if src.len() > 0 && src[0] != 10 {
        assert forall|i: int, j: int| 0 <= i < j < n.len() implies n[i] < n[j] by {
            if i == 0 {
                assert(src[n[j] as int] == 10);
            } else {
                assert(n[i] < n[j]);
            }
        }
    }
}

/// The symbols are distinct, and each identifier token among `ts` has for
/// id the index of its text among them.
pub open spec fn symbols_ok(src: Seq<u8>, ts: Seq<Token>, syms: Seq<Seq<u8>>) -> bool {
    &&& forall|i: int, j: int| #![trigger syms[i], syms[j]] 0 <= i < j < syms.len() ==> syms[i] != syms[j]
    &&& forall|k: int| 0 <= k < ts.len() && (#[trigger] ts[k]).tok is Ident ==> {
        let id = ts[k].tok->Ident_0 as int;
        &&& id < syms.len()
        &&& syms[id] == src.subrange(ts[k].pos.beg as int, ts[k].pos.beg + ts[k].pos.len)
    }
}

/// The index of a text among the symbols: where it is, or the number of
/// symbols where it is not there.
proof fn lemma_sym_index(syms: Seq<Seq<u8>>, x: Seq<u8>)
    ensures
        0 <= sym_index(syms, x) <= syms.len(),
        sym_index(syms, x) < syms.len() ==> syms[sym_index(syms, x)] == x,
        sym_index(syms, x) == syms.len() ==> forall|k: int| 0 <= k < syms.len() ==> syms[k] != x,
    decreases syms.len(),
{
    if syms.len() > 0 {
        let d = syms.drop_last();
        lemma_sym_index(d, x);
        if sym_index(syms, x) == syms.len() {
            assert forall|k: int| 0 <= k < syms.len() implies syms[k] != x by {
                if k < d.len() {
                    assert(d[k] == syms[k]);
                }
            }
        }
    }
}

/// Each step keeps the symbols distinct and the ids of the identifier
/// tokens naming their text.
proof fn lemma_lex_from_symbols(src: Seq<u8>, p: int, toks: Seq<Token>, syms: Seq<Seq<u8>>, nls: Seq<u32>)
    requires
        0 <= p <= src.len(),
        src.len() < u32::MAX,
        symbols_ok(src, toks, syms),
    ensures
        lex_from(src, p, toks, syms, nls) matches LexOutcome::Done(ts, sy, _) ==> symbols_ok(src, ts, sy),
    decreases src.len() - p,
{
    lemma_ws_end(src, p);
    let q = ws_end(src, p);
    if q < src.len() {
        lemma_scan_len(src, q);
    }
    match step(src, p, syms, nls) {
        Step::Tok(t, p2, syms2, nls2) => {
            let ts = toks.push(t);
            if q < src.len() {
                if let Scan::Ident(n) = scan(src, q) {
                    let lx = src.subrange(q, q + n);
                    lemma_sym_index(syms, lx);
                }
            }
            assert(symbols_ok(src, ts, syms2)) by {
                assert forall|k: int| 0 <= k < ts.len() && (#[trigger] ts[k]).tok is Ident implies {
                    let id = ts[k].tok->Ident_0 as int;
                    &&& id < syms2.len()
                    &&& syms2[id] == src.subrange(ts[k].pos.beg as int, ts[k].pos.beg + ts[k].pos.len)
                } by {
                    if k < toks.len() {
                        assert(ts[k] == toks[k]);
                    }
                }
            }
            if !(t.tok is Eof) && p < p2 <= src.len() {
                lemma_lex_from_symbols(src, p2, ts, syms2, nls2);
            }
        },
        _ => {},
    }
}

/// The symbols of a lexed source are distinct, and the id of each
/// identifier token is the index of its text among them.
pub proof fn lemma_lexed_symbols(src: Seq<u8>)
    requires
        src.len() < u32::MAX,
    ensures
        spec_lex(src) matches LexOutcome::Done(ts, syms, _) ==> symbols_ok(src, ts, syms),
{
    lemma_lex_from_symbols(src, 0, seq![], seq![], seq![0u32]);
}

/// The bytes `from..to` of `s`.
fn slice_range(s: &[u8], from: usize, to: usize) -> (r: &[u8])
    requires
        from <= to <= s@.len(),
    ensures
        r@ == s@.subrange(from as int, to as int),
{
    let (a, _) = s.split_at(to);
    let (_, b) = a.split_at(from);
    b
}

} // verus!
