use vstd::prelude::*;
use crate::util::{SymId, DfString, dec_digits, push_dec};

verus! {

/// A token: its kind, with its value where it has one, and where it is in
/// the source.
#[derive(Copy, Clone, Debug, PartialEq, Eq, Structural)]
pub struct Token {
    pub tok: Tok,  // token type and maybe its value (e.g. literals)
    pub pos: Pos,  // position in the source
}

impl Token {
    pub fn is_eof(&self) -> (r: bool)
        ensures
            r == (self.tok is Eof),
    {
        matches!(self.tok, Tok::Eof)
    }
}

/// The position of something in a byte string: its index and its length.
#[derive(Debug, Copy, Clone, PartialEq, Eq, Structural)]
pub struct Pos {
    pub beg: u32,  // beginning
    pub len: u32,  // length
}

impl Pos {
    pub fn new(beg: u32, len: u32) -> (r: Self)
        ensures
            r.beg == beg,
            r.len == len,
    {
        Pos { beg, len }
    }

    pub open spec fn spec_end(&self) -> int {
        self.beg + self.len
    }

    pub fn end(&self) -> (r: u32)
        requires
            self.beg + self.len <= u32::MAX,
        ensures
            r == self.spec_end(),
    {
        self.beg + self.len
    }

    /// The line and column of the beginning and of the end.
    pub fn to_abe2(&self, src: &[u8], nls: &[u32]) -> (r: [Abraham; 2])
        requires
            self.beg + self.len <= src@.len(),
            self.beg + self.len <= u32::MAX,
            abraham_ok(self.beg, src@, nls@),
            abraham_ok((self.beg + self.len) as u32, src@, nls@),
        ensures
            r@[0] == spec_abraham(self.beg, src@, nls@),
            r@[1] == spec_abraham((self.beg + self.len) as u32, src@, nls@),
    {
        [Abraham::from_idx(self.beg, src, nls), Abraham::from_idx(self.end(), src, nls)]
    }
}

impl Default for Pos {
    fn default() -> (r: Pos)
        ensures
            r.beg == 0,
            r.len == 0,
    {
        Pos { beg: 0, len: 0 }
    }
}

/// A line and a column, both counted from 0.
#[derive(Copy, Clone, Debug, PartialEq, Eq, Structural)]
pub struct Abraham {
    pub lin: u16,
    pub col: u16,
}

/// The index of the last newline before `idx`, or 0 where there is none.
pub open spec fn last_nl_before(src: Seq<u8>, idx: int) -> int
    decreases idx,
{
    if idx <= 0 {
        0
    } else if src[idx - 1] == 10 {
        idx - 1
    } else {
        last_nl_before(src, idx - 1)
    }
}

/// The index of `x` in `s`, or the length of `s` where it is not there.
pub open spec fn index_or_len(s: Seq<u32>, x: u32) -> int
    decreases s.len(),
{
    if s.len() == 0 {
        0
    } else if s.last() == x {
        let i = index_or_len(s.drop_last(), x);
        if i < s.len() - 1 {
            i
        } else {
            s.len() - 1
        }
    } else {
        let i = index_or_len(s.drop_last(), x);
        if i < s.len() - 1 {
            i
        } else {
            s.len() as int
        }
    }
}

/// Whether the numbers are strictly increasing.
pub open spec fn strictly_increasing(s: Seq<u32>) -> bool {
    forall|i: int, j: int| 0 <= i < j < s.len() ==> s[i] < s[j]
}

/// The line and column of index `idx` of `src`, where `nls` holds the
/// indices of the newlines of `src` and also 0.
pub open spec fn spec_abraham(idx: u32, src: Seq<u8>, nls: Seq<u32>) -> Abraham {
    let nl = last_nl_before(src, idx as int);
    let lin = index_or_len(nls, nl as u32);
    Abraham {
        lin: lin as u16,
        col: ((idx - nl) as u16 + if lin == 0 {
            1int
        } else {
            0int
        }) as u16,
    }
}

/// Whether the line and column of `idx` can be computed: it is in the
/// source, the newline indices are sorted, and the column fits.
pub open spec fn abraham_ok(idx: u32, src: Seq<u8>, nls: Seq<u32>) -> bool {
    &&& idx <= src.len()
    &&& strictly_increasing(nls)
    &&& !(index_or_len(nls, last_nl_before(src, idx as int) as u32) == 0 && (idx - last_nl_before(
        src,
        idx as int,
    )) as u16 == 0xffff)
}

pub(crate) proof fn lemma_last_nl_bounds(src: Seq<u8>, idx: int)
    ensures
        0 <= last_nl_before(src, idx),
        idx > 0 ==> last_nl_before(src, idx) < idx,
        idx <= 0 ==> last_nl_before(src, idx) == 0,
    decreases idx,
{
    if idx > 0 {
        lemma_last_nl_bounds(src, idx - 1);
    }
}

proof fn lemma_index_or_len(s: Seq<u32>, x: u32)
    ensures
        0 <= index_or_len(s, x) <= s.len(),
        index_or_len(s, x) < s.len() ==> s[index_or_len(s, x)] == x,
        forall|j: int| 0 <= j < index_or_len(s, x) ==> s[j] != x,
    decreases s.len(),
{
    if s.len() > 0 {
        lemma_index_or_len(s.drop_last(), x);
        assert(forall|j: int| 0 <= j < s.len() - 1 ==> s.drop_last()[j] == s[j]);
    }
}

/// The text of a line and a column: the line counted from 1, a colon and
/// the column.
pub open spec fn abe_text(a: Abraham) -> Seq<u8> {
    dec_digits((a.lin + 1) as nat) + seq![58u8] + dec_digits(a.col as nat)
}

/// The index of the last newline before `idx`, or 0.
pub(crate) fn last_nl(idx: u32, src: &[u8]) -> (r: u32)
    requires
        idx <= src@.len(),
    ensures
        r == last_nl_before(src@, idx as int),
{
    let mut k: usize = idx as usize;
    while k > 0 && src[k - 1] != 10
        invariant
            k <= idx <= src@.len(),
            last_nl_before(src@, idx as int) == last_nl_before(src@, k as int),
        decreases k,
    {
        k -= 1;
    }
    proof {
        lemma_last_nl_bounds(src@, idx as int);
    }
    if k > 0 {
        (k - 1) as u32
    } else {
        0
    }
}

/// The index of `x` in `nls`, or their number.
fn nl_index(nls: &[u32], x: u32) -> (r: usize)
    ensures
        r == index_or_len(nls@, x),
{
    let mut i: usize = 0;
    while i < nls.len() && nls[i] != x
        invariant
            i <= nls@.len(),
            forall|j: int| 0 <= j < i ==> nls@[j] != x,
        decreases nls@.len() - i,
    {
        i += 1;
    }
    proof {
        lemma_index_or_len(nls@, x);
    }
    i
}

/// Whether the numbers are strictly increasing.
fn is_strictly_increasing(s: &[u32]) -> (r: bool)
    ensures
        r == strictly_increasing(s@),
{
    let mut k: usize = 1;
    while k < s.len()
        invariant
            1 <= k,
            s@.len() > 0 ==> k <= s@.len(),
            strictly_increasing(s@.subrange(0, k as int)) || s@.len() == 0,
        decreases s@.len() - k,
    {
        if s[k - 1] >= s[k] {
            assert(!strictly_increasing(s@)) by {
                assert(s@[k - 1] >= s@[k as int]);
            }
            return false;
        }
        assert(strictly_increasing(s@.subrange(0, k + 1))) by {
            let t = s@.subrange(0, k as int);
            let u = s@.subrange(0, k + 1);
            assert forall|i: int, j: int| 0 <= i < j < k + 1 implies #[trigger] u[i] < #[trigger] u[j] by {
                if j < k {
                    assert(t[i] < t[j]);
                } else if i < k - 1 {
                    assert(t[i] < t[k - 1]);
                }
            }
        }
        k += 1;
    }
    if s.len() > 0 {
        assert(s@.subrange(0, s@.len() as int) =~= s@);
    }
    true
}

impl Abraham {
    /// The line and column of index `idx` in the Latin-1 source `src`,
    /// where `nls` holds the indices of its newlines and also 0 for its
    /// beginning.
    pub fn from_idx(idx: u32, src: &[u8], nls: &[u32]) -> (r: Self)
        requires
            abraham_ok(idx, src@, nls@),
        ensures
            r == spec_abraham(idx, src@, nls@),
    {
        // the last newline before idx, taking the beginning for one
        let nl_idx = last_nl(idx, src);
        proof {
            lemma_last_nl_bounds(src@, idx as int);
        }
        // the index of that newline among all the newlines
        let i = nl_index(nls, nl_idx);
        let lin = i as u16;
        let d = (idx - nl_idx) as u16;
        let col = if i == 0 {
            d + 1
        } else {
            d
        };
        Abraham { lin, col }
    }

    /// The line and column of index `idx`, where they can be computed.
    pub fn checked_from_idx(idx: u32, src: &[u8], nls: &[u32]) -> (r: Option<Self>)
        ensures
            r is Some <==> abraham_ok(idx, src@, nls@),
            r matches Some(a) ==> a == spec_abraham(idx, src@, nls@),
    {
        if idx as usize > src.len() || !is_strictly_increasing(nls) {
            return None;
        }
        let nl_idx = last_nl(idx, src);
        proof {
            lemma_last_nl_bounds(src@, idx as int);
        }
        let i = nl_index(nls, nl_idx);
        if i == 0 && (idx - nl_idx) as u16 == 0xffff {
            return None;
        }
        Some(Self::from_idx(idx, src, nls))
    }

    /// The line, counted from 1, and the column, as text.
    pub fn text(&self) -> (r: DfString)
        ensures
            r@ == abe_text(*self),
    {
        let mut v: Vec<u8> = Vec::new();
        push_dec(&mut v, self.lin as u32 + 1);
        v.push(58);
        push_dec(&mut v, self.col as u32);
        assert(v@ =~= abe_text(*self));
        DfString::from_vec(v)
    }
}

/// The kinds of tokens, with the value of a literal. The value of a real
/// literal is not held here: it is the text at the token's position.
#[derive(Debug, Copy, Clone, PartialEq, Eq, Structural)]
pub enum Tok {
    // single char
    Plus,
    Minus,
    Star,
    Slash,
    Bslash,
    And,
    Vbar,
    Caret,
    Dollar,
    Tilde,
    Equal,
    Uscore,
    Period,
    Comma,
    Colon,
    Semic,
    Hash,
    Bang,
    AtSign,
    Percent,
    Lparen,
    Rparen,
    LsqBra,
    RsqBra,
    Lbrace,
    Rbrace,
    Langle,
    Rangle,
    // double char (same)
    Plus2,
    Minus2,
    Star2,
    Slash2,
    Bslash2,
    And2,
    Vbar2,
    Caret2,
    Tilde2,
    Equal2,
    LsqBra2,
    RsqBra2,
    // 2 different chars
    Ne,  // ~=
    Ge,  // >=
    Le,  // <=
    Then,  // =>
    HashDollar,  // #$
    BangDollar,  // !$
    BsLsb,  // \[
    BsHash,  // \#
    AndQu,  // &?
    VbarQu,  // |?
    AtSign2,  // @@
    DotAt,  // .@
    DotHash,  // .#
    DotBang,  // .!
    // literals
    ValV,
    ValB(bool),
    ValC(u8),
    ValN(u32),
    ValZ(i32),
    ValR,
    String(SymId),
    Ident(SymId),
    RecT,  // $@\d*
    RecF,  // #@
    RecP,  // !@
    // other
    Comment,
    Eof,
}

} // verus!
