use infarter::asterix::{
    BinOp, BinOpWt, CmpOp, CmpOpWt, EquOpWt, EquTyp, Expr, ExprWt, ExprWte, Loop, LoopWt, OrdOp, OrdOpWt, OrdTyp,
    Stmt, StmtWt, Type, UniOp, UniOpWt, Val,
};
use infarter::cgen::{binop2c, cmpop2c, fundty2c, into_c, literal_in_c, tacbinop2c, type2c, uniop2c};
use infarter::dflib::funcs::NatFn;
use infarter::dflib::procs::NatPc;
use infarter::dflib::tables::NatTb;
use infarter::semanal::{binop_types, cmpop_types, semanalize, uniop_types};
use infarter::ssa_ir::{Gen, Locals, Tac, TacBinOp};
use infarter::intrep::{Compiler, ImOp, Jmp, Term};
use infarter::tast;
use infarter::util::{ArraySet, DfString};

fn name(s: &str) -> DfString {
    DfString::from_vec(s.as_bytes().to_vec())
}

fn konst(v: Val, t: Type) -> ExprWt {
    ExprWt { e: ExprWte::Const(v), t }
}

fn is_name(d: &DfString, s: &str) -> bool {
    d.as_bytes() == s.as_bytes()
}

#[test]
fn operation_tables() {
    assert_eq!(binop_types(&Type::N, &BinOp::Add, &Type::N), (BinOpWt::ADN, Type::N));
    assert_eq!(binop_types(&Type::Z, &BinOp::Mod, &Type::N), (BinOpWt::MOZ, Type::N));
    assert_eq!(binop_types(&Type::B, &BinOp::Xor, &Type::B), (BinOpWt::XOB, Type::B));
    assert_eq!(uniop_types(&Type::R, &UniOp::Inv), (UniOpWt::INR, Type::R));
    assert_eq!(uniop_types(&Type::C, &UniOp::Not), (UniOpWt::NOC, Type::C));
    assert_eq!(cmpop_types(&Type::N, &CmpOp::Equ(false)), CmpOpWt::Equ(EquOpWt(false, EquTyp::N)));
    assert_eq!(cmpop_types(&Type::R, &CmpOp::Ord(OrdOp::Le)), CmpOpWt::Ord(OrdOpWt(OrdOp::Le, OrdTyp::R)));
    assert_eq!(EquTyp::try_from_type(&Type::R), Err(()));
    assert_eq!(OrdTyp::try_from_type(&Type::B), Err(()));
    assert_eq!(OrdTyp::try_from_type(&Type::Z), Ok(OrdTyp::Z));
}

#[test]
fn analysis_declares_and_assigns() {
    let prog = vec![
        Stmt::Assign(Expr::Ident(name("x")), Expr::Const(Val::N(5))),
        Stmt::Assign(
            Expr::Ident(name("x")),
            Expr::BinOp(Box::new(Expr::Ident(name("x"))), BinOp::Add, Box::new(Expr::Const(Val::N(1)))),
        ),
        Stmt::Assign(Expr::Ident(name("x")), Expr::Const(Val::Z(1))),
        Stmt::Loooop(Loop::Inf(vec![Stmt::Assign(Expr::Ident(name("x")), Expr::Const(Val::Z(2)))])),
    ];
    let w = semanalize(prog);
    assert_eq!(w.len(), 4);
    match &w[0] {
        StmtWt::Declar(i, e) => {
            assert!(is_name(i, "x"));
            assert_eq!(e.t, Type::N);
        },
        _ => panic!("expected a declaration"),
    }
    match &w[1] {
        StmtWt::VarAss(i, e, d) => {
            assert!(is_name(i, "x"));
            assert_eq!(*d, 0);
            assert_eq!(e.t, Type::N);
            match &e.e {
                ExprWte::BinOp(l, o, _) => {
                    assert_eq!(*o, BinOpWt::ADN);
                    assert!(matches!(l.e, ExprWte::Local(_, 0)));
                },
                _ => panic!("expected an operation"),
            }
        },
        _ => panic!("expected an assignment"),
    }
    // another type: a new declaration
    match &w[2] {
        StmtWt::Declar(_, e) => assert_eq!(e.t, Type::Z),
        _ => panic!("expected a declaration"),
    }
    // found one scope out
    match &w[3] {
        StmtWt::Loooop(LoopWt::Inf(b)) => match &b[0] {
            StmtWt::VarAss(_, _, d) => assert_eq!(*d, 1),
            _ => panic!("expected an assignment"),
        },
        _ => panic!("expected a loop"),
    }
}

#[test]
fn analysis_of_comparison_and_cast() {
    let prog = vec![
        Stmt::Assign(Expr::Ident(name("n")), Expr::Const(Val::N(3))),
        Stmt::Assign(
            Expr::Ident(name("b")),
            Expr::CmpOp(
                Box::new(Expr::Ident(name("n"))),
                vec![(CmpOp::Ord(OrdOp::Lt), Expr::Const(Val::N(4)))],
            ),
        ),
        Stmt::Assign(
            Expr::Ident(name("r")),
            Expr::BinOp(Box::new(Expr::Ident(name("n"))), BinOp::Typ, Box::new(Expr::Ident(name("R")))),
        ),
    ];
    let w = semanalize(prog);
    match &w[1] {
        StmtWt::Declar(_, e) => {
            assert_eq!(e.t, Type::B);
            match &e.e {
                ExprWte::CmpOp(_, v) => assert_eq!(v[0].0, CmpOpWt::Ord(OrdOpWt(OrdOp::Lt, OrdTyp::N))),
                _ => panic!("expected a comparison"),
            }
        },
        _ => panic!("expected a declaration"),
    }
    match &w[2] {
        StmtWt::Declar(_, e) => {
            assert_eq!(e.t, Type::R);
            assert!(matches!(e.e, ExprWte::Tcast(_, Type::R)));
        },
        _ => panic!("expected a declaration"),
    }
}

#[test]
fn locals_scopes() {
    let mut l = Locals::default();
    let x = name("x");
    l.set(&x, 0, 4);
    assert_eq!(l.get(&x, 0), 4);
    l.init_scope();
    l.set(&x, 0, 7);
    assert_eq!(l.get(&x, 0), 7);
    assert_eq!(l.get(&x, 1), 4);
    l.set(&x, 1, 5);
    l.exit_scope();
    assert_eq!(l.get(&x, 0), 5);
}

fn tacs_eq(a: &[Tac], b: &[Tac]) -> bool {
    format!("{:?}", a) == format!("{:?}", b)
}

#[test]
fn three_address_code() {
    let prog = vec![
        StmtWt::Declar(name("x"), konst(Val::N(5), Type::N)),
        StmtWt::VarAss(
            name("x"),
            ExprWt {
                e: ExprWte::BinOp(
                    Box::new(ExprWt { e: ExprWte::Local(name("x"), 0), t: Type::N }),
                    BinOpWt::ADN,
                    Box::new(konst(Val::N(1), Type::N)),
                ),
                t: Type::N,
            },
            0,
        ),
    ];
    let g = Gen::from_prog(&prog);
    assert!(tacs_eq(
        &g.out,
        &[Tac::CTN(0, 0), Tac::CTN(1, 1), Tac::BIO(2, 0, TacBinOp::Bin(BinOpWt::ADN), 1), Tac::CPY(0, 2)]
    ));
    assert_eq!(g.tmp, vec![Type::N, Type::N, Type::N]);
    let c = into_c(&g, &[String::new(), String::new()]);
    assert_eq!(
        c,
        "#include <stdint.h>\n#include \"dfc/mem.h\"\n#include \"dfc/arr.h\"\n\nint main(void)\n{\ndfc_mem_init();\n\
         uint32_t t0,t1,t2;\nt0 = 5;\nt1 = 1;\nt2 = t0 + t1;\nt0 = t2;\ndfc_mem_exit();\nreturn 0;\n}"
    );
}

#[test]
fn three_address_code_of_a_loop() {
    let prog = vec![
        StmtWt::Declar(name("b"), konst(Val::B(true), Type::B)),
        StmtWt::Loooop(LoopWt::Cdt(
            vec![],
            ExprWt { e: ExprWte::Local(name("b"), 1), t: Type::B },
            vec![StmtWt::VarAss(name("b"), konst(Val::B(false), Type::B), 1)],
        )),
    ];
    let g = Gen::from_prog(&prog);
    assert!(tacs_eq(
        &g.out,
        &[Tac::CTN(0, 0), Tac::LAB(0), Tac::JIF(1, 0, false), Tac::CTN(1, 1), Tac::CPY(0, 1), Tac::JMP(0), Tac::LAB(1)]
    ));
    assert_eq!(g.lab, 2);
    let c = into_c(&g, &[String::new(), String::new()]);
    assert!(c.contains("int t0,t1;\nt0 = 1;\nL0:\nif (!t0) goto L1;\nt1 = 0;\nt0 = t1;\ngoto L0;\nL1:\n"));
}

#[test]
fn c_of_a_modulo() {
    let g = Gen {
        ctn: ArraySet::new(),
        tmp: vec![Type::Z, Type::N, Type::N],
        out: vec![Tac::BIO(2, 0, TacBinOp::Bin(BinOpWt::MOZ), 1)],
        loc: Locals::default(),
        lab: 0,
    };
    let c = into_c(&g, &[]);
    assert!(c.contains("\nuint32_t t1,t2;\nint32_t t0;\nt2 = (t0%t1+t1)%t1;\n"));
}

#[test]
fn c_names() {
    assert_eq!(type2c(&Type::C), "uint8_t");
    assert_eq!(fundty2c(&infarter::ast::FundTy::R), "double");
    assert_eq!(uniop2c(&UniOpWt::INR), "1.0 / ");
    assert_eq!(binop2c(&BinOpWt::MON), "%");
    assert_eq!(cmpop2c(&CmpOpWt::Equ(EquOpWt(false, EquTyp::C))), "!=");
    assert_eq!(tacbinop2c(&TacBinOp::Cmp(CmpOpWt::Ord(OrdOpWt(OrdOp::Ge, OrdTyp::Z)))), ">=");
    assert_eq!(tacbinop2c(&TacBinOp::Bin(BinOpWt::XON)), "^");
}

#[test]
fn c_literals() {
    assert_eq!(literal_in_c(&Val::B(true), ""), "1");
    assert_eq!(literal_in_c(&Val::C(65), ""), "65");
    assert_eq!(literal_in_c(&Val::N(4000000000), ""), "4000000000");
    assert_eq!(literal_in_c(&Val::Z(-12), ""), "-12");
    assert_eq!(literal_in_c(&Val::Z(i32::MIN), ""), "-2147483648");
    assert_eq!(literal_in_c(&Val::R(2.5f64.to_bits()), "2.5"), "2.5");
}

#[test]
fn native_library() {
    assert_eq!(NatFn::A_LEN.arity(), 1);
    assert_eq!(NatPc::A_EKE.arity(), 2);
    assert_eq!(NatPc::GC.arity(), 0);
    assert_eq!(NatTb::IO.name(), "STD$io");
    assert_eq!(NatTb::STD.name(), "STD");
}

#[test]
fn typed_ast_comparisons() {
    let c = tast::CmpOp::Ord(tast::OrdOp(OrdOp::Lt, tast::OrdTyp::N));
    assert_eq!(c.negated(), tast::CmpOp::Ord(tast::OrdOp(OrdOp::Ge, tast::OrdTyp::N)));
    let e = tast::CmpOp::Equ(tast::EquOp(true, tast::EquTyp::B));
    assert_eq!(e.negated().negated(), e);
}

#[test]
fn generated_constants_are_in_the_pool() {
    let prog = vec![
        StmtWt::Declar(name("x"), konst(Val::N(5), Type::N)),
        StmtWt::Declar(name("y"), konst(Val::N(5), Type::N)),
        StmtWt::Loooop(LoopWt::Inf(vec![StmtWt::VarAss(name("x"), konst(Val::N(7), Type::N), 1)])),
    ];
    let g = Gen::from_prog(&prog);
    assert_eq!(g.ctn.size(), 2);
    let mut seen = 0;
    for t in g.out.iter() {
        if let Tac::CTN(_, ci) = t {
            assert!((*ci as usize) < g.ctn.size());
            seen += 1;
        }
    }
    assert_eq!(seen, 3);
}

#[test]
fn analyzed_program_generates() {
    let prog = vec![
        Stmt::Assign(Expr::Ident(name("x")), Expr::Const(Val::N(1))),
        Stmt::Loooop(Loop::Cdt(
            vec![Stmt::Assign(Expr::Ident(name("y")), Expr::Ident(name("x")))],
            Expr::CmpOp(
                Box::new(Expr::Ident(name("y"))),
                vec![(CmpOp::Ord(OrdOp::Lt), Expr::Const(Val::N(9)))],
            ),
            vec![Stmt::Assign(
                Expr::Ident(name("x")),
                Expr::BinOp(Box::new(Expr::Ident(name("y"))), BinOp::Add, Box::new(Expr::Const(Val::N(1)))),
            )],
        )),
    ];
    let w = semanalize(prog);
    let g = Gen::from_prog(&w);
    // x (which y shares), the constant 9, the comparison, the constant 1 and the sum
    assert_eq!(g.tmp.len(), 5);
    assert_eq!(g.lab, 2);
    assert_eq!(g.ctn.size(), 2);
    let c = into_c(&g, &[String::new(), String::new()]);
    assert!(c.contains("L0:\n"));
    assert!(c.contains("goto L0;\nL1:\n"));
}

#[test]
fn analyzed_program_compiles() {
    let prog = vec![
        Stmt::Assign(Expr::Ident(name("x")), Expr::Const(Val::N(5))),
        Stmt::Loooop(Loop::Cdt(
            vec![Stmt::Assign(Expr::Ident(name("y")), Expr::Ident(name("x")))],
            Expr::CmpOp(
                Box::new(Expr::Ident(name("y"))),
                vec![(CmpOp::Ord(OrdOp::Lt), Expr::Const(Val::N(9)))],
            ),
            vec![Stmt::Assign(
                Expr::Ident(name("x")),
                Expr::BinOp(Box::new(Expr::Ident(name("y"))), BinOp::Add, Box::new(Expr::Const(Val::N(1)))),
            )],
        )),
    ];
    let w = semanalize(prog);
    let c = Compiler::from_asterix(&w);
    let b = &c.curr.blocks;
    assert_eq!(b.len(), 4);
    // x, then the place of y
    assert_eq!(b[0].code, vec![ImOp::LKX(0), ImOp::DUM]);
    // y = x, then y < 9
    assert_eq!(
        b[1].code,
        vec![ImOp::LLX(0), ImOp::LLX(1), ImOp::LKX(1), ImOp::CMP(CmpOpWt::Ord(OrdOpWt(OrdOp::Lt, OrdTyp::N)))]
    );
    assert_eq!(b[1].term, Term::JMP(Jmp::YX(false), 3));
    // x = y + 1
    assert_eq!(b[2].code, vec![ImOp::LLX(1), ImOp::LN1, ImOp::BIO(BinOpWt::ADN), ImOp::SLX(0)]);
    assert_eq!(b[3].term, Term::HLT);
}

#[test]
fn locals_set_then_get_across_scopes() {
    let mut l = Locals::default();
    l.set(&name("x"), 0, 3);
    l.init_scope();
    assert_eq!(l.get(&name("x"), 1), 3);
    l.set(&name("y"), 0, 4);
    assert_eq!(l.get(&name("y"), 0), 4);
    l.exit_scope();
    assert_eq!(l.get(&name("x"), 0), 3);
}
