use vstd::prelude::*;
use crate::ast::{Block, Expr, Lit, Node, Stmt};
use crate::tok::{Abraham, Pos, Tok, Token, abraham_ok, spec_abraham};
use crate::tok::abe_text;
use crate::util::{DfString, Stack, push_bytes};
use vstd::string::StringSliceAdditionalSpecFns;

verus! {

/// Parses a list of tokens that ends with the end token.
pub fn parse(lx: &[Token]) -> (r: Result<Block, Error>)
    requires
        parsable(lx@),
    ensures
        parse_matches(r, spec_parse(lx@)),
{
    Nip::parse(lx)
}

/// A syntax error: what was expected, the token found, and the position of
/// the grammar rule being parsed.
#[derive(Clone, Copy, Debug)]
pub struct Error {
    pub exp: &'static str,  // expected (usually, a list of possible tokens)
    pub fou: Token,  // found (faulty) token
    pub pos: Pos,  // position of the whole grammar rule that was being parsed
}

/// A syntax error together with its source and the lines and columns of the
/// rule and of the token.
#[derive(Copy, Clone)]
pub struct ErrorSrc<'src> {
    err: Error,
    src: &'src [u8],
    rab: [Abraham; 2],  // rule lines and columns (from `err.pos`)
    tab: [Abraham; 2],  // token lines and columns (from `err.fou.pos`)
}

/// Whether the lines and columns of a position can be computed.
pub open spec fn pos_abe_ok(p: Pos, src: Seq<u8>, nls: Seq<u32>) -> bool {
    &&& p.beg + p.len <= src.len()
    &&& p.beg + p.len <= u32::MAX
    &&& abraham_ok(p.beg, src, nls)
    &&& abraham_ok((p.beg + p.len) as u32, src, nls)
}

impl<'src> ErrorSrc<'src> {
    pub fn new(err: Error, src: &'src [u8], nls: &[u32]) -> (r: Self)
        requires
            pos_abe_ok(err.pos, src@, nls@),
            pos_abe_ok(err.fou.pos, src@, nls@),
        ensures
            r.err() == err,
            r.src()@ == src@,
            r.rab()@[0] == spec_abraham(err.pos.beg, src@, nls@),
            r.rab()@[1] == spec_abraham((err.pos.beg + err.pos.len) as u32, src@, nls@),
            r.tab()@[0] == spec_abraham(err.fou.pos.beg, src@, nls@),
            r.tab()@[1] == spec_abraham((err.fou.pos.beg + err.fou.pos.len) as u32, src@, nls@),
    {
        ErrorSrc { err, src, rab: err.pos.to_abe2(src, nls), tab: err.fou.pos.to_abe2(src, nls) }
    }

    pub closed spec fn err(&self) -> Error {
        self.err
    }

    pub closed spec fn src(&self) -> &'src [u8] {
        self.src
    }

    pub closed spec fn rab(&self) -> [Abraham; 2] {
        self.rab
    }

    pub closed spec fn tab(&self) -> [Abraham; 2] {
        self.tab
    }

    pub fn get_err(&self) -> (r: Error)
        ensures
            r == self.err(),
    {
        self.err
    }

    pub fn get_src(&self) -> (r: &'src [u8])
        ensures
            r == self.src(),
    {
        self.src
    }

    pub fn get_tab(&self) -> (r: [Abraham; 2])
        ensures
            r == self.tab(),
    {
        self.tab
    }

    /// The report of the error, in Latin-1: the line and column of the
    /// faulty token, what was expected and the text of that token.
    pub fn report(&self) -> (r: DfString)
        requires
            self.err().fou.pos.beg + self.err().fou.pos.len <= self.src()@.len(),
        ensures
            r@ == syntax_report(self.err(), self.src()@, self.tab()@[0]),
    {
        let n = self.src.len();
        let beg = self.err.fou.pos.beg as usize;
        let end = beg + self.err.fou.pos.len as usize;
        assert(end <= n);
        let mut v: Vec<u8> = Vec::new();
        push_bytes(&mut v, "SYNTAX ERROR: at ".as_bytes());
        let t = self.tab[0].text();
        push_bytes(&mut v, t.as_bytes());
        push_bytes(&mut v, ":\nexpected ".as_bytes());
        push_bytes(&mut v, self.err.exp.as_bytes());
        push_bytes(&mut v, ", found '".as_bytes());
        let (a, _) = self.src.split_at(end);
        let (_, lx) = a.split_at(beg);
        push_bytes(&mut v, lx);
        push_bytes(&mut v, "'\n".as_bytes());
        assert(lx@ =~= self.src@.subrange(beg as int, end as int));
        assert(v@ =~= syntax_report(self.err, self.src@, self.tab@[0]));
        DfString::from_vec(v)
    }
}

/// The report of a syntax error: where the faulty token begins, what was
/// expected, and the text of that token.
pub open spec fn syntax_report(err: Error, src: Seq<u8>, at: Abraham) -> Seq<u8> {
    "SYNTAX ERROR: at ".spec_bytes() + abe_text(at) + ":\nexpected ".spec_bytes() + err.exp.spec_bytes()
        + ", found '".spec_bytes() + src.subrange(err.fou.pos.beg as int, err.fou.pos.beg + err.fou.pos.len)
        + "'\n".spec_bytes()
}

// The grammar ---------------------------------------------------------------
//
//     Block ::= Stmt*
//     Stmt  ::= Expr "=" Expr "."
//     Expr  ::= Nucle
//     Nucle ::= Literal | Ident | "(" Expr ")"

/// The cursor after advancing from `c`: it stays on the last token.
pub open spec fn adv(toks: Seq<Token>, c: int) -> int {
    if c + 1 >= toks.len() {
        c
    } else {
        c + 1
    }
}

/// The position of a rule that began at token `b`, with the cursor at
/// token `c`: from the beginning of token `b` to the end of token `c`.
pub open spec fn span(toks: Seq<Token>, b: int, c: int) -> Pos {
    Pos { beg: toks[b].pos.beg, len: (toks[c].pos.beg + toks[c].pos.len - toks[b].pos.beg) as u32 }
}

/// The error of a rule that began at token `b`, found at token `c`.
pub open spec fn err_at(toks: Seq<Token>, exp: &'static str, b: int, c: int) -> Error {
    Error { exp, fou: toks[c], pos: span(toks, b, c) }
}

/// What parsing a rule gives: a node and the cursor after it, or an error.
pub enum PRes<T> {
    Done(T, int),
    Fail(Error),
}

/// Parses a Nucle at token `c`.
pub open spec fn spec_nucle(toks: Seq<Token>, c: int) -> PRes<Node<Expr>>
    decreases toks.len() - c,
{
    if c < 0 || c >= toks.len() {
        PRes::Fail(err_at(toks, "(, identifier or literal", c, c))
    } else {
        let c1 = adv(toks, c);
        let node = |e: Expr| Node { pos: span(toks, c, c1), val: e };
        match toks[c].tok {
            Tok::Lparen => if c1 <= c {
                PRes::Fail(err_at(toks, "(, identifier or literal", c, c1))
            } else {
                match spec_nucle(toks, c1) {
                    PRes::Done(e, c2) => if 0 <= c2 < toks.len() && toks[c2].tok is Rparen {
                        let c3 = adv(toks, c2);
                        PRes::Done(Node { pos: span(toks, c, c3), val: Expr::Paren(Box::new(e)) }, c3)
                    } else {
                        PRes::Fail(err_at(toks, ")", c, c2))
                    },
                    PRes::Fail(e) => PRes::Fail(e),
                }
            },
            Tok::Ident(id) => PRes::Done(node(Expr::Ident(id)), c1),
            Tok::ValV => PRes::Done(node(Expr::Lit(Lit::V)), c1),
            Tok::ValB(b) => PRes::Done(node(Expr::Lit(Lit::B(b))), c1),
            Tok::ValC(x) => PRes::Done(node(Expr::Lit(Lit::C(x))), c1),
            Tok::ValN(n) => PRes::Done(node(Expr::Lit(Lit::N(n))), c1),
            Tok::ValZ(z) => PRes::Done(node(Expr::Lit(Lit::Z(z))), c1),
            Tok::ValR => PRes::Done(node(Expr::Lit(Lit::R)), c1),
            _ => PRes::Fail(err_at(toks, "(, identifier or literal", c, c1)),
        }
    }
}

/// Parses a Stmt at token `c`.
pub open spec fn spec_stmt(toks: Seq<Token>, c: int) -> PRes<Node<Stmt>> {
    match spec_nucle(toks, c) {
        PRes::Fail(e) => PRes::Fail(e),
        PRes::Done(e0, c1) => if 0 <= c1 < toks.len() && toks[c1].tok is Equal {
            let c2 = adv(toks, c1);
            match spec_nucle(toks, c2) {
                PRes::Fail(e) => PRes::Fail(e),
                PRes::Done(e1, c3) => if 0 <= c3 < toks.len() && toks[c3].tok is Period {
                    let c4 = adv(toks, c3);
                    PRes::Done(Node { pos: span(toks, c, c4), val: Stmt::Assign(e0, e1) }, c4)
                } else {
                    PRes::Fail(err_at(toks, ".", c, c3))
                },
            }
        } else {
            PRes::Fail(err_at(toks, "=", c, c1))
        },
    }
}

/// Parses statements from token `c` up to the last token, after the
/// statements `acc`.
pub open spec fn spec_block(toks: Seq<Token>, c: int, acc: Seq<Node<Stmt>>) -> Result<Seq<Node<Stmt>>, Error>
    decreases toks.len() - c,
{
    if c < 0 || c + 1 >= toks.len() {
        Ok(acc)
    } else {
        match spec_stmt(toks, c) {
            PRes::Fail(e) => Err(e),
            PRes::Done(s, c2) => if c2 <= c {
                Err(err_at(toks, "=", c, c))
            } else {
                spec_block(toks, c2, acc.push(s))
            },
        }
    }
}

/// Parses a whole list of tokens: its statements, or the first error.
pub open spec fn spec_parse(toks: Seq<Token>) -> Result<Seq<Node<Stmt>>, Error> {
    spec_block(toks, 0, seq![])
}

/// A Nucle that parses goes forward and ends on a token.
proof fn lemma_nucle_advances(toks: Seq<Token>, c: int)
    requires
        parsable(toks),
        0 <= c < toks.len(),
    ensures
        spec_nucle(toks, c) matches PRes::Done(_, c2) ==> c < c2 < toks.len(),
    decreases toks.len() - c,
{
    let c1 = adv(toks, c);
    if c1 > c && toks[c].tok is Lparen {
        lemma_nucle_advances(toks, c1);
    }
}

/// A Stmt that parses goes forward and ends on a token.
proof fn lemma_stmt_advances(toks: Seq<Token>, c: int)
    requires
        parsable(toks),
        0 <= c < toks.len(),
    ensures
        spec_stmt(toks, c) matches PRes::Done(_, c2) ==> c < c2 < toks.len(),
{
    lemma_nucle_advances(toks, c);
    if let PRes::Done(_, c1) = spec_nucle(toks, c) {
        lemma_nucle_advances(toks, adv(toks, c1));
    }
}

/// Whether the parser takes the tokens: they end with the end token, there
/// are at most 2^32 of them, and their positions go forward and fit in 32
/// bits.
pub open spec fn parsable(toks: Seq<Token>) -> bool {
    &&& toks.len() >= 1
    &&& toks.len() <= u32::MAX
    &&& toks.last().tok is Eof
    &&& forall|i: int| 0 <= i < toks.len() ==> #[trigger] toks[i].pos.beg + toks[i].pos.len <= u32::MAX
    &&& forall|i: int, j: int| 0 <= i <= j < toks.len() ==> #[trigger] toks[i].pos.beg <= #[trigger] toks[j].pos.beg
}

/// The result of the parser is its outcome.
pub open spec fn parse_matches(r: Result<Block, Error>, o: Result<Seq<Node<Stmt>>, Error>) -> bool {
    match r {
        Ok(b) => o == Ok::<Seq<Node<Stmt>>, Error>(b.0@),
        Err(e) => o == Err::<Seq<Node<Stmt>>, Error>(e),
    }
}

// The parser -------------------------------------------------------------------

struct Nip<'lex> {
    // input
    tokens: &'lex [Token],
    // private
    cursor: usize,  // index of the current token
    begins: Stack<u32>,  // stack of the first tokens of the rules being parsed
}

impl<'lex> Nip<'lex> {
    spec fn wf(&self) -> bool {
        &&& parsable(self.tokens@)
        &&& self.cursor < self.tokens@.len()
        &&& forall|k: int| 0 <= k < self.begins@.len() ==> #[trigger] self.begins@[k] <= self.cursor
    }

    fn new(toks: &'lex [Token]) -> (r: Self)
        requires
            parsable(toks@),
        ensures
            r.wf(),
            r.tokens == toks,
            r.cursor == 0,
            r.begins@ == Seq::<u32>::empty(),
    {
        Nip { tokens: toks, cursor: 0, begins: Stack::default() }
    }

    pub fn parse(toks: &'lex [Token]) -> (r: Result<Block, Error>)
        requires
            parsable(toks@),
        ensures
            parse_matches(r, spec_parse(toks@)),
    {
        let mut prs = Self::new(toks);
        let mut main: Vec<Node<Stmt>> = Vec::new();
        // parse the "main" block
        while !prs.is_at_end()
            invariant
                prs.wf(),
                prs.tokens == toks,
                spec_block(toks@, prs.cursor as int, main@) == spec_parse(toks@),
            decreases toks@.len() - prs.cursor,
        {
            proof {
                lemma_stmt_advances(toks@, prs.cursor as int);
            }
            let s = match prs.stmt() {
                Ok(s) => s,
                Err(e) => {
                    return Err(e);
                },
            };
            main.push(s);
        }
        Ok(Block(main))
    }

    /// Pushes a new grammar rule onto the stack, to keep track of where it
    /// begins.
    fn push_rule(&mut self)
        requires
            old(self).wf(),
        ensures
            final(self).wf(),
            final(self).tokens == old(self).tokens,
            final(self).cursor == old(self).cursor,
            final(self).begins@ == old(self).begins@.push(old(self).cursor as u32),
    {
        self.begins.push(self.cursor as u32);
    }

    fn curr_rule_beg(&self) -> (r: Option<Pos>)
        requires
            self.wf(),
        ensures
            r == if self.begins@.len() > 0 {
                Some(self.tokens@[self.begins@.last() as int].pos)
            } else {
                None::<Pos>
            },
    {
        match self.begins.peek(0) {
            Some(u) => Some(self.tokens[*u as usize].pos),
            None => None,
        }
    }

    /// Pops the beginning of the current rule: the position from its first
    /// token to the current token.
    fn pop_beg2pos(&mut self) -> (r: Option<Pos>)
        requires
            old(self).wf(),
        ensures
            final(self).wf(),
            final(self).tokens == old(self).tokens,
            final(self).cursor == old(self).cursor,
            old(self).begins@.len() > 0 ==> final(self).begins@ == old(self).begins@.drop_last() && r
                == Some(span(old(self).tokens@, old(self).begins@.last() as int, old(self).cursor as int)),
            old(self).begins@.len() == 0 ==> r is None,
    {
        let b = match self.begins.pop() {
            Some(b) => b,
            None => {
                return None;
            },
        };
        // the first token of the rule
        let beg = self.tokens[b as usize].pos;
        // the current token
        let end = self.tokens[self.cursor].pos;
        Some(Pos { beg: beg.beg, len: end.end() - beg.beg })
    }

    /// Closes the rule pushed by push_rule, giving its node.
    fn node<T>(&mut self, val: T) -> (r: Node<T>)
        requires
            old(self).wf(),
            old(self).begins@.len() > 0,
        ensures
            final(self).wf(),
            final(self).tokens == old(self).tokens,
            final(self).cursor == old(self).cursor,
            final(self).begins@ == old(self).begins@.drop_last(),
            r == (Node { pos: span(old(self).tokens@, old(self).begins@.last() as int, old(self).cursor as int), val }),
    {
        let pos = self.pop_beg2pos().unwrap();
        Node { val, pos }
    }

    /// A new error, given what was expected, at the current token.
    fn error(&mut self, exp: &'static str) -> (r: Error)
        requires
            old(self).wf(),
            old(self).begins@.len() > 0,
        ensures
            final(self).wf(),
            final(self).tokens == old(self).tokens,
            r == err_at(old(self).tokens@, exp, old(self).begins@.last() as int, old(self).cursor as int),
    {
        let fou = self.peek().unwrap();
        let pos = self.pop_beg2pos().unwrap();
        Error { exp, fou, pos }
    }

    fn pos(&self) -> (r: Option<Pos>)
        requires
            self.wf(),
        ensures
            r == Some(self.tokens@[self.cursor as int].pos),
    {
        match self.peek() {
            Some(t) => Some(t.pos),
            None => None,
        }
    }

    fn peek(&self) -> (r: Option<Token>)
        requires
            self.wf(),
        ensures
            r == Some(self.tokens@[self.cursor as int]),
    {
        self.peekn(0)
    }

    /// Peeks `la` tokens ahead.
    fn peekn(&self, la: usize) -> (r: Option<Token>)
        requires
            self.wf(),
            la <= 1,
        ensures
            r == if self.cursor + la < self.tokens@.len() {
                Some(self.tokens@[self.cursor + la])
            } else {
                None::<Token>
            },
    {
        let i = self.cursor + la;
        if i < self.tokens.len() {
            Some(self.tokens[i])
        } else {
            None
        }
    }

    fn is_at_end(&self) -> (r: bool)
        requires
            self.wf(),
        ensures
            r == (self.cursor + 1 == self.tokens@.len()),
    {
        self.cursor + 1 == self.tokens.len()  // +1 because of the end token
    }

    fn advance(&mut self)
        requires
            old(self).wf(),
        ensures
            final(self).wf(),
            final(self).tokens == old(self).tokens,
            final(self).begins@ == old(self).begins@,
            final(self).cursor == adv(old(self).tokens@, old(self).cursor as int),
    {
        if !self.is_at_end() {
            self.cursor += 1;
        }
    }

    fn read_token(&mut self) -> (r: Option<Token>)
        requires
            old(self).wf(),
        ensures
            final(self).wf(),
            final(self).tokens == old(self).tokens,
            final(self).begins@ == old(self).begins@,
            final(self).cursor == adv(old(self).tokens@, old(self).cursor as int),
            r == Some(old(self).tokens@[old(self).cursor as int]),
    {
        let tmp = self.peek();
        self.advance();
        tmp
    }

    /// Whether the current token is `t`.
    fn next_is(&self, t: Tok) -> (r: bool)
        requires
            self.wf(),
        ensures
            r == (self.tokens@[self.cursor as int].tok == t),
    {
        self.tokens[self.cursor].tok == t
    }

    /* the grammar */

    // Stmt ::= E0Stmt
    fn stmt(&mut self) -> (r: Result<Node<Stmt>, Error>)
        requires
            old(self).wf(),
        ensures
            final(self).wf(),
            final(self).tokens == old(self).tokens,
            match spec_stmt(old(self).tokens@, old(self).cursor as int) {
                PRes::Done(s, c) => r == Ok::<Node<Stmt>, Error>(s) && final(self).cursor == c
                    && final(self).begins@ == old(self).begins@,
                PRes::Fail(e) => r == Err::<Node<Stmt>, Error>(e),
            },
    {
        self.push_rule();  // Stmt
        self.e0stmt()
    }

    // E0Stmt ::= Assign
    // the statements that start with an Expr
    fn e0stmt(&mut self) -> (r: Result<Node<Stmt>, Error>)
        requires
            old(self).wf(),
            old(self).begins@.len() > 0,
            old(self).begins@.last() == old(self).cursor,
        ensures
            final(self).wf(),
            final(self).tokens == old(self).tokens,
            match spec_stmt(old(self).tokens@, old(self).cursor as int) {
                PRes::Done(s, c) => r == Ok::<Node<Stmt>, Error>(s) && final(self).cursor == c
                    && final(self).begins@ == old(self).begins@.drop_last(),
                PRes::Fail(e) => r == Err::<Node<Stmt>, Error>(e),
            },
    {
        let e0 = match self.expr() {
            Ok(e) => e,
            Err(e) => {
                return Err(e);
            },
        };
        if self.next_is(Tok::Equal) {
            self.assign(e0)
        } else {
            Err(self.error("="))
        }
    }

    // Assign ::= Expr "=" Expr "."
    fn assign(&mut self, lhs: Node<Expr>) -> (r: Result<Node<Stmt>, Error>)
        requires
            old(self).wf(),
            old(self).begins@.len() > 0,
            old(self).tokens@[old(self).cursor as int].tok is Equal,
        ensures
            final(self).wf(),
            final(self).tokens == old(self).tokens,
            ({
                let toks = old(self).tokens@;
                let b = old(self).begins@.last() as int;
                let c2 = adv(toks, old(self).cursor as int);
                match spec_nucle(toks, c2) {
                    PRes::Fail(e) => r == Err::<Node<Stmt>, Error>(e),
                    PRes::Done(e1, c3) => if toks[c3].tok is Period {
                        let c4 = adv(toks, c3);
                        &&& r == Ok::<Node<Stmt>, Error>(Node { pos: span(toks, b, c4), val: Stmt::Assign(lhs, e1) })
                        &&& final(self).cursor == c4
                        &&& final(self).begins@ == old(self).begins@.drop_last()
                    } else {
                        r == Err::<Node<Stmt>, Error>(err_at(toks, ".", b, c3))
                    },
                }
            }),
    {
        self.advance();  // =
        let e = match self.expr() {
            Ok(e) => e,
            Err(e) => {
                return Err(e);
            },
        };
        if self.next_is(Tok::Period) {
            self.advance();
        } else {
            return Err(self.error("."));
        }
        Ok(self.node(Stmt::Assign(lhs, e)))
    }

    fn expr(&mut self) -> (r: Result<Node<Expr>, Error>)
        requires
            old(self).wf(),
        ensures
            final(self).wf(),
            final(self).tokens == old(self).tokens,
            match spec_nucle(old(self).tokens@, old(self).cursor as int) {
                PRes::Done(e, c) => r == Ok::<Node<Expr>, Error>(e) && final(self).cursor == c
                    && final(self).begins@ == old(self).begins@,
                PRes::Fail(e) => r == Err::<Node<Expr>, Error>(e),
            },
        decreases old(self).tokens@.len() - old(self).cursor, 1nat,
    {
        self.nucle()
    }

    // Nucle ::= Literal | Ident | "(" Expr ")"
    fn nucle(&mut self) -> (r: Result<Node<Expr>, Error>)
        requires
            old(self).wf(),
        ensures
            final(self).wf(),
            final(self).tokens == old(self).tokens,
            match spec_nucle(old(self).tokens@, old(self).cursor as int) {
                PRes::Done(e, c) => r == Ok::<Node<Expr>, Error>(e) && final(self).cursor == c
                    && final(self).begins@ == old(self).begins@,
                PRes::Fail(e) => r == Err::<Node<Expr>, Error>(e),
            },
        decreases old(self).tokens@.len() - old(self).cursor, 0nat,
    {
        self.push_rule();  // Nucle
        let t = self.read_token().unwrap();
        match t.tok {
            Tok::Lparen => {  // "(" Expr ")"
                assert(self.cursor > old(self).cursor);
                let e = match self.expr() {
                    Ok(e) => e,
                    Err(e) => {
                        return Err(e);
                    },
                };
                if self.next_is(Tok::Rparen) {
                    self.advance();
                } else {
                    return Err(self.error(")"));
                }
                Ok(self.node(Expr::Paren(Box::new(e))))
            },
            // identifier
            Tok::Ident(id) => Ok(self.node(Expr::Ident(id))),
            // literals
            Tok::ValV => Ok(self.node(Expr::Lit(Lit::V))),
            Tok::ValB(b) => Ok(self.node(Expr::Lit(Lit::B(b)))),
            Tok::ValC(c) => Ok(self.node(Expr::Lit(Lit::C(c)))),
            Tok::ValN(n) => Ok(self.node(Expr::Lit(Lit::N(n)))),
            Tok::ValZ(z) => Ok(self.node(Expr::Lit(Lit::Z(z)))),
            Tok::ValR => Ok(self.node(Expr::Lit(Lit::R))),
            _ => Err(self.error("(, identifier or literal")),
        }
    }
}

} // verus!
