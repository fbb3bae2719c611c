use infarter::ast::{Expr, FundTy, Lit, Stmt, Type};
use infarter::lex::{tokenize, try_tokenize, ErrorSrc};
use infarter::pars::parse;
use infarter::tok::{Abraham, Pos, Tok, Token};
use infarter::util::{is_latin1, DfStr, DfString};

fn lex(src: &[u8]) -> Vec<Token> {
    match tokenize(&DfStr(src)) {
        Ok(r) => r.tokens,
        Err(_) => panic!("lexing failed"),
    }
}

#[test]
fn lex_assignment() {
    let r = match tokenize(&DfStr(b"x = 1u.")) {
        Ok(r) => r,
        Err(_) => panic!("lexing failed"),
    };
    let toks: Vec<Tok> = r.tokens.iter().map(|t| t.tok).collect();
    assert_eq!(toks, vec![Tok::Ident(0), Tok::Equal, Tok::ValN(1), Tok::Period, Tok::Eof]);
    let pos: Vec<(u32, u32)> = r.tokens.iter().map(|t| (t.pos.beg, t.pos.len)).collect();
    assert_eq!(pos, vec![(0, 1), (2, 1), (4, 2), (6, 1), (7, 0)]);
    assert_eq!(r.symbols.len(), 1);
    assert_eq!(r.symbols[0].as_bytes(), b"x");
    assert_eq!(r.newlines, vec![0]);
}

#[test]
fn lex_literals() {
    let toks: Vec<Tok> = lex(b"F T V 42 7u 100u \"a\" 3.5").iter().map(|t| t.tok).collect();
    assert_eq!(
        toks,
        vec![
            Tok::ValB(false),
            Tok::ValB(true),
            Tok::ValV,
            Tok::ValZ(42),
            Tok::ValN(7),
            Tok::ValN(100),
            Tok::ValC(97),
            Tok::ValR,
            Tok::Eof,
        ]
    );
    let r = match tokenize(&DfStr(b"100u")) {
        Ok(r) => r,
        Err(_) => panic!("lexing failed"),
    };
    assert_eq!(r.tokens[0].tok, Tok::ValN(100));
    assert_eq!((r.tokens[0].pos.beg, r.tokens[0].pos.len), (0, 4));
}

#[test]
fn lex_literal_letters_only_alone() {
    // a longer word is an identifier; a number with another letter after it
    // is an integer followed by an identifier
    let toks: Vec<Tok> = lex(b"Tx Va 1N 0B").iter().map(|t| t.tok).collect();
    assert_eq!(
        toks,
        vec![Tok::Ident(0), Tok::Ident(1), Tok::ValZ(1), Tok::Ident(2), Tok::ValZ(0), Tok::Ident(3), Tok::Eof]
    );
}

#[test]
fn lex_two_char_tokens() {
    let toks: Vec<Tok> = lex(b"== ~= <= >= => @@ .@ ++ &? |?").iter().map(|t| t.tok).collect();
    assert_eq!(
        toks,
        vec![
            Tok::Equal2, Tok::Ne, Tok::Le, Tok::Ge, Tok::Then, Tok::AtSign2, Tok::DotAt, Tok::Plus2, Tok::AndQu,
            Tok::VbarQu, Tok::Eof,
        ]
    );
}

#[test]
fn lex_interns_identifiers() {
    let r = match tokenize(&DfStr(b"ab cd ab")) {
        Ok(r) => r,
        Err(_) => panic!("lexing failed"),
    };
    let toks: Vec<Tok> = r.tokens.iter().map(|t| t.tok).collect();
    assert_eq!(toks, vec![Tok::Ident(0), Tok::Ident(1), Tok::Ident(0), Tok::Eof]);
    assert_eq!(r.symbols.len(), 2);
}

#[test]
fn lex_newlines_and_comments() {
    let r = match tokenize(&DfStr(b"a\n` note\nb")) {
        Ok(r) => r,
        Err(_) => panic!("lexing failed"),
    };
    let toks: Vec<Tok> = r.tokens.iter().map(|t| t.tok).collect();
    assert_eq!(toks, vec![Tok::Ident(0), Tok::Comment, Tok::Ident(1), Tok::Eof]);
    assert_eq!(r.newlines, vec![0, 1, 8]);
}

#[test]
fn lex_unknown_char_fails() {
    match tokenize(&DfStr(b"x ? y")) {
        Ok(_) => panic!("should fail"),
        Err((e, nls)) => {
            assert_eq!(e.wat, "unknown char");
            assert_eq!((e.pos.beg, e.pos.len), (2, 1));
            assert_eq!(nls, vec![0]);
        },
    }
}

#[test]
fn lex_unclosed_char_fails() {
    match tokenize(&DfStr(b"\"a")) {
        Ok(_) => panic!("should fail"),
        Err((e, _)) => assert_eq!(e.wat, "unclosed C literal (end \" not found)"),
    }
}

#[test]
fn parse_assignment() {
    let toks = lex(b"x = 1u.");
    let b = match parse(&toks) {
        Ok(b) => b,
        Err(_) => panic!("parsing failed"),
    };
    assert_eq!(b.0.len(), 1);
    let s = &b.0[0];
    assert_eq!((s.pos.beg, s.pos.len), (0, 7));
    match &s.val {
        Stmt::Assign(l, r) => {
            assert!(matches!(l.val, Expr::Ident(0)));
            // a node ends where the token after it ends
            assert_eq!((l.pos.beg, l.pos.len), (0, 3));
            assert!(matches!(r.val, Expr::Lit(Lit::N(1))));
            assert_eq!((r.pos.beg, r.pos.len), (4, 3));
        },
    }
}

#[test]
fn parse_parenthesized() {
    let toks = lex(b"y = (F).");
    let b = match parse(&toks) {
        Ok(b) => b,
        Err(_) => panic!("parsing failed"),
    };
    match &b.0[0].val {
        Stmt::Assign(_, r) => match &r.val {
            Expr::Paren(inner) => {
                assert!(matches!(inner.val, Expr::Lit(Lit::B(false))));
                assert_eq!((inner.pos.beg, inner.pos.len), (5, 2));
                assert_eq!((r.pos.beg, r.pos.len), (4, 4));
            },
            _ => panic!("expected a parenthesis"),
        },
    }
}

#[test]
fn parse_two_statements() {
    let toks = lex(b"a = 1. b = a.");
    let b = match parse(&toks) {
        Ok(b) => b,
        Err(_) => panic!("parsing failed"),
    };
    assert_eq!(b.0.len(), 2);
}

#[test]
fn parse_empty_program() {
    let toks = lex(b"  ");
    let b = match parse(&toks) {
        Ok(b) => b,
        Err(_) => panic!("parsing failed"),
    };
    assert_eq!(b.0.len(), 0);
}

#[test]
fn parse_missing_expression() {
    let toks = lex(b"x = .");
    match parse(&toks) {
        Ok(_) => panic!("should fail"),
        Err(e) => {
            assert_eq!(e.exp, "(, identifier or literal");
            // the token after the faulty one is reported
            assert_eq!(e.fou.tok, Tok::Eof);
            assert_eq!((e.pos.beg, e.pos.len), (4, 1));
        },
    }
}

#[test]
fn parse_missing_equal() {
    let toks = lex(b"x 1");
    match parse(&toks) {
        Ok(_) => panic!("should fail"),
        Err(e) => {
            assert_eq!(e.exp, "=");
            assert_eq!(e.fou.tok, Tok::ValZ(1));
        },
    }
}

#[test]
fn parse_missing_period() {
    let toks = lex(b"x = 1 y");
    match parse(&toks) {
        Ok(_) => panic!("should fail"),
        Err(e) => assert_eq!(e.exp, "."),
    }
}

#[test]
fn positions_and_lines() {
    let p = Pos::new(3, 4);
    assert_eq!(p.end(), 7);
    let src = b"ab\ncd\nef";
    let nls = [0u32, 2, 5];
    let a = Abraham::from_idx(4, src, &nls);
    assert_eq!((a.lin, a.col), (1, 2));
    let a0 = Abraham::from_idx(1, src, &nls);
    assert_eq!((a0.lin, a0.col), (0, 2));
    let both = Pos::new(6, 2).to_abe2(src, &nls);
    assert_eq!((both[0].lin, both[0].col), (2, 1));
    assert_eq!((both[1].lin, both[1].col), (2, 3));
}

#[test]
fn fundamental_types() {
    assert!(!FundTy::B.is_num());
    assert!(FundTy::R.is_num());
    assert_eq!(FundTy::Z.letter(), b'Z');
    assert_eq!(FundTy::try_from_letter(b'N'), Some(FundTy::N));
    assert_eq!(FundTy::try_from_letter(b'Q'), None);
    assert!(Type::from_fundty(FundTy::B).is_b());
    assert!(!Type::Fund(FundTy::C).is_b());
}

#[test]
fn try_lex_block_comment_not_handled() {
    assert!(try_tokenize(&DfStr(b"x = 1u. `' block '`")).is_none());
}

#[test]
fn try_lex_number_too_large() {
    assert!(try_tokenize(&DfStr(b"x = 99999999999u.")).is_none());
    assert!(try_tokenize(&DfStr(b"x = 2147483648.")).is_none());
    assert!(try_tokenize(&DfStr(b"x = 2147483647.")).is_some());
}

#[test]
fn try_lex_agrees_with_tokenize() {
    let a = match try_tokenize(&DfStr(b"ab = 4294967295u.")) {
        Some(Ok(r)) => r,
        _ => panic!("expected tokens"),
    };
    let b = match tokenize(&DfStr(b"ab = 4294967295u.")) {
        Ok(r) => r,
        Err(_) => panic!("expected tokens"),
    };
    assert_eq!(a.tokens.len(), b.tokens.len());
    assert_eq!(a.tokens[2].tok, Tok::ValN(4294967295));
    assert!(matches!(try_tokenize(&DfStr(b"x ? y")), Some(Err(_))));
}

#[test]
fn token_error_report_one_line() {
    let src: &[u8] = b"x ? y";
    let (e, n) = match tokenize(&DfStr(src)) {
        Err(x) => x,
        Ok(_) => panic!("expected a token error"),
    };
    let es = match ErrorSrc::try_new(e, src, &n) {
        Some(es) => es,
        None => panic!("expected a located error"),
    };
    assert!(es.can_report());
    assert_eq!(es.report().as_bytes(), b"TOKEN ERROR: unknown char\nat 1:3 ~ 1:4:\nx ? y\n  ^  \n");
}

#[test]
fn token_error_report_second_line() {
    let src: &[u8] = b"a\nb ? c";
    let (e, n) = match tokenize(&DfStr(src)) {
        Err(x) => x,
        Ok(_) => panic!("expected a token error"),
    };
    assert_eq!(n, vec![0, 1]);
    let es = match ErrorSrc::try_new(e, src, &n) {
        Some(es) => es,
        None => panic!("expected a located error"),
    };
    assert!(es.can_report());
    assert_eq!(es.report().as_bytes(), b"TOKEN ERROR: unknown char\nat 2:3 ~ 2:4:\n\nb ? c\n  ^   \n");
}

#[test]
fn error_src_rejects_unsorted_newlines() {
    let e = infarter::lex::Error { wat: "w", pos: Pos::new(0, 1) };
    assert!(ErrorSrc::try_new(e, b"ab", &[3, 1]).is_none());
    assert!(ErrorSrc::try_new(e, b"ab", &[0]).is_some());
    let far = infarter::lex::Error { wat: "w", pos: Pos::new(5, 1) };
    assert!(ErrorSrc::try_new(far, b"ab", &[0]).is_none());
}

#[test]
fn abraham_text_and_checked() {
    assert_eq!(Abraham { lin: 0, col: 7 }.text().as_bytes(), b"1:7");
    assert_eq!(Abraham { lin: 11, col: 0 }.text().as_bytes(), b"12:0");
    assert!(Abraham::checked_from_idx(9, b"ab", &[0]).is_none());
    let a = match Abraham::checked_from_idx(3, b"ab\ncd", &[0, 2]) {
        Some(a) => a,
        None => panic!("expected a line and column"),
    };
    assert_eq!((a.lin, a.col), (1, 1));
}

#[test]
fn latin1_check() {
    assert!(is_latin1("abc"));
    assert!(is_latin1("caf\u{e9}"));
    assert!(!is_latin1("\u{20ac}"));
    assert_eq!(DfString::fast_from_string(String::from("caf\u{e9}")).as_bytes(), b"caf\xe9");
}

#[test]
fn syntax_error_report() {
    let src: &[u8] = b"x 1";
    let toks = lex(src);
    let e = match parse(&toks) {
        Ok(_) => panic!("should fail"),
        Err(e) => e,
    };
    let es = infarter::pars::ErrorSrc::new(e, src, &[0]);
    assert_eq!(es.report().as_bytes(), b"SYNTAX ERROR: at 1:3:\nexpected =, found '1'\n");
}

#[test]
fn identifier_ids_name_their_text() {
    let src: &[u8] = b"ab = cd.\ncd = ab.";
    let r = match tokenize(&DfStr(src)) {
        Ok(r) => r,
        Err(_) => panic!("lexing failed"),
    };
    assert_eq!(r.symbols.len(), 2);
    assert!(r.symbols[0].as_bytes() != r.symbols[1].as_bytes());
    for t in r.tokens.iter() {
        if let Tok::Ident(id) = t.tok {
            let text = &src[t.pos.beg as usize..(t.pos.beg + t.pos.len) as usize];
            assert_eq!(r.symbols[id as usize].as_bytes(), text);
        }
    }
}

#[test]
fn newlines_in_order() {
    let r = match tokenize(&DfStr(b"a = 1.\n\nb = 2.\n")) {
        Ok(r) => r,
        Err(_) => panic!("lexing failed"),
    };
    assert_eq!(r.newlines, vec![0, 6, 7, 14]);
    let e = match tokenize(&DfStr(b"\na ? b")) {
        Err((_, n)) => n,
        Ok(_) => panic!("expected a token error"),
    };
    assert_eq!(e, vec![0, 0]);
}

#[test]
fn parse_void_literal() {
    let toks = lex(b"v = V.");
    let b = match parse(&toks) {
        Ok(b) => b,
        Err(_) => panic!("parsing failed"),
    };
    match &b.0[0].val {
        Stmt::Assign(_, r) => assert!(matches!(r.val, Expr::Lit(Lit::V))),
    }
}
