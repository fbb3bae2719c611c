use infarter::asterix::{
    BinOpWt, CmpOpWt, EquOpWt, EquTyp, ExprWt, ExprWte, LoopWt, OrdOp, OrdOpWt, OrdTyp, StmtWt, Type, UniOpWt, Val,
};
use infarter::genesis::{comp_into_bytes, imop_to_u8, term_to_op, LowerTerm, Op};
use infarter::intrep::{BasicBlock, Compiler, ImOp, Jmp, Scope, Term};
use infarter::optimus::opt_bblocks;
use infarter::optimus::peep::opt_one_bb;
use infarter::optimus::term::red::red;
use infarter::optimus::term::reduce;
use infarter::optimus::term::thr::thr;
use infarter::util::{ArraySet, DfString};

fn name(s: &str) -> DfString {
    DfString::from_vec(s.as_bytes().to_vec())
}

fn konst(v: Val, t: Type) -> ExprWt {
    ExprWt { e: ExprWte::Const(v), t }
}

fn block(code: Vec<ImOp>, term: Term) -> BasicBlock {
    BasicBlock { code, term, pred: ArraySet::new() }
}

#[test]
fn values_and_types() {
    assert_eq!(Val::escape_char(b'N'), Ok(10));
    assert_eq!(Val::escape_char(b'?'), Ok(b'?'));
    assert_eq!(Val::escape_char(b'x'), Err(()));
    assert_eq!(Type::R.letter(), b'R');
    assert!(!Type::B.is_num());
    assert!(matches!(Type::Z.default_val(), Val::Z(0)));
    assert_eq!(Type::from_val(&Val::C(3)), Type::C);
    assert!(Val::N(3) == Val::N(3));
    assert!(!(Val::R(0) == Val::R(0)));
}

#[test]
fn negated_comparisons() {
    assert_eq!(OrdOp::Le.negated(), OrdOp::Gt);
    let c = CmpOpWt::Ord(OrdOpWt(OrdOp::Lt, OrdTyp::N));
    assert_eq!(c.negated(), CmpOpWt::Ord(OrdOpWt(OrdOp::Ge, OrdTyp::N)));
    assert_eq!(c.negated().negated(), c);
    let e = CmpOpWt::Equ(EquOpWt(true, EquTyp::B));
    assert_eq!(e.negated(), CmpOpWt::Equ(EquOpWt(false, EquTyp::B)));
}

#[test]
fn terminators() {
    let mut t = Term::JMP(Jmp::YX(false), 3);
    assert!(t.can_thru());
    assert_eq!(t.jmp_target(), Some(3));
    t.set_jmp_target(9);
    assert_eq!(t, Term::JMP(Jmp::YX(false), 9));
    assert!(!Term::JMP(Jmp::JX, 1).can_thru());
    assert!(!Term::HLT.can_thru());
    assert!(Term::NOP.can_thru());
    assert_eq!(ImOp::SLX(4).get_operand(), Some(4));
    assert_eq!(ImOp::DUP.get_operand(), None);
}

#[test]
fn scope_declarations() {
    let mut s = Scope::with_locsiz(2);
    let x = name("x");
    let y = name("y");
    s.declar(&x);
    assert_eq!(s.resolve_var(&x), Some(&2));
    assert_eq!(s.locsiz, 3);
    s.declar_dummy(&y);
    assert_eq!(s.resolve_var(&y), None);
    assert_eq!(s.locsiz, 4);
    s.declar(&y);
    assert_eq!(s.resolve_var(&y), Some(&3));
    assert_eq!(s.locsiz, 4);
}

#[test]
fn compile_declaration() {
    let prog = vec![StmtWt::Declar(name("x"), konst(Val::N(5), Type::N))];
    let c = Compiler::from_asterix(&prog);
    assert_eq!(c.curr.blocks.len(), 1);
    assert_eq!(c.curr.blocks[0].code, vec![ImOp::LKX(0)]);
    assert_eq!(c.curr.blocks[0].term, Term::HLT);
    assert_eq!(c.consts.size(), 1);
}

#[test]
fn compile_one_and_constants() {
    let prog = vec![
        StmtWt::Declar(name("x"), konst(Val::N(1), Type::N)),
        StmtWt::Declar(name("y"), konst(Val::R(0x3FF0_0000_0000_0000), Type::R)),
        StmtWt::Declar(name("z"), konst(Val::N(7), Type::N)),
        StmtWt::Declar(name("w"), konst(Val::N(7), Type::N)),
    ];
    let c = Compiler::from_asterix(&prog);
    assert_eq!(c.curr.blocks[0].code, vec![ImOp::LN1, ImOp::LR1, ImOp::LKX(0), ImOp::LKX(0)]);
    assert_eq!(c.consts.size(), 1);
}

#[test]
fn compile_infinite_loop() {
    let prog = vec![
        StmtWt::Declar(name("x"), konst(Val::N(5), Type::N)),
        StmtWt::Loooop(LoopWt::Inf(vec![StmtWt::VarAss(name("x"), konst(Val::N(2), Type::N), 1)])),
    ];
    let c = Compiler::from_asterix(&prog);
    let b = &c.curr.blocks;
    assert_eq!(b.len(), 3);
    assert_eq!(b[0].code, vec![ImOp::LKX(0)]);
    assert_eq!(b[0].term, Term::NOP);
    assert_eq!(b[1].code, vec![ImOp::LKX(1), ImOp::SLX(0)]);
    assert_eq!(b[1].term, Term::JMP(Jmp::JX, 1));
    assert_eq!(b[2].code, vec![]);
    assert_eq!(b[2].term, Term::HLT);
}

#[test]
fn compile_conditional_loop() {
    let b_local = ExprWt { e: ExprWte::Local(name("b"), 1), t: Type::B };
    let prog = vec![
        StmtWt::Declar(name("b"), konst(Val::B(true), Type::B)),
        StmtWt::Loooop(LoopWt::Cdt(vec![], b_local, vec![StmtWt::Declar(name("k"), konst(Val::N(3), Type::N))])),
    ];
    let c = Compiler::from_asterix(&prog);
    let b = &c.curr.blocks;
    assert_eq!(b.len(), 4);
    // the loop variable is preloaded
    assert_eq!(b[0].code, vec![ImOp::LKX(0), ImOp::DUM]);
    assert_eq!(b[0].term, Term::NOP);
    assert_eq!(b[1].code, vec![ImOp::LLX(0)]);
    assert_eq!(b[1].term, Term::JMP(Jmp::YX(false), 3));
    assert_eq!(b[2].code, vec![ImOp::LKX(1)]);
    assert_eq!(b[2].term, Term::JMP(Jmp::JX, 1));
    assert_eq!(b[3].term, Term::HLT);
}

#[test]
fn bytecode_of_a_declaration() {
    let prog = vec![StmtWt::Declar(name("x"), konst(Val::N(5), Type::N))];
    let c = Compiler::from_asterix(&prog);
    let bytes = comp_into_bytes(&c);
    assert_eq!(
        bytes,
        vec![0xdf, b'D', b'R', b'Y', b'F', b'A', b'R', b'T', 0, 0, 0, 1, 3, 0, 0, 0, 5, 0, 0, 0, 3, 1, 0, 76, 0]
    );
}

#[test]
fn bytecode_of_a_loop() {
    let prog = vec![
        StmtWt::Declar(name("x"), konst(Val::N(5), Type::N)),
        StmtWt::Loooop(LoopWt::Inf(vec![StmtWt::VarAss(name("x"), konst(Val::N(2), Type::N), 1)])),
    ];
    let c = Compiler::from_asterix(&prog);
    let bytes = comp_into_bytes(&c);
    // block 1 jumps back to its own beginning: 4 bytes of code and 2 of jump
    let code = vec![1, 0, 1, 1, 60, 0, 64, 0xfa, 76];
    let mut expected = vec![0xdf, b'D', b'R', b'Y', b'F', b'A', b'R', b'T', 0, 0, 0, 2, 3, 0, 0, 0, 5, 3, 0, 0, 0, 2];
    expected.extend_from_slice(&[0, 0, 0, code.len() as u8]);
    expected.extend_from_slice(&code);
    expected.push(0);
    assert_eq!(bytes, expected);
}

#[test]
fn simple_opcodes() {
    assert_eq!(imop_to_u8(ImOp::POP), Ok(75));
    assert_eq!(imop_to_u8(ImOp::LKX(0)), Err(()));
    assert_eq!(imop_to_u8(ImOp::UNO(UniOpWt::NEZ)), Ok(3));
    assert_eq!(imop_to_u8(ImOp::BIO(BinOpWt::ADC)), Ok(9));
    assert_eq!(term_to_op(Term::HLT), Ok(Op::HLT));
    assert!(term_to_op(Term::JMP(Jmp::JX, 0)).is_err());
    assert_eq!(LowerTerm::One.size(), 1);
    assert_eq!(LowerTerm::Nop.size(), 0);
}

#[test]
fn peephole_rules() {
    let mut bb = block(
        vec![
            ImOp::LLX(3),
            ImOp::SLX(3),
            ImOp::SLX(2),
            ImOp::LLX(2),
            ImOp::LLX(1),
            ImOp::LLX(1),
            ImOp::LKX(0),
            ImOp::LKX(0),
            ImOp::POP,
        ],
        Term::HLT,
    );
    opt_one_bb(&mut bb);
    assert_eq!(bb.code, vec![ImOp::ULX(2), ImOp::LLX(1), ImOp::DUP, ImOp::LKX(0), ImOp::DUP, ImOp::POP]);
    reduce(&mut bb, 0);
    assert_eq!(bb.code, vec![ImOp::ULX(2), ImOp::LLX(1), ImOp::DUP, ImOp::LKX(0), ImOp::DUP]);
    assert_eq!(bb.term, Term::HLT);
}

#[test]
fn peephole_takes_the_last_window() {
    let mut bb = block(vec![ImOp::LLX(1), ImOp::SLX(1)], Term::NOP);
    opt_one_bb(&mut bb);
    assert_eq!(bb.code, vec![]);
    let mut bb2 = block(vec![ImOp::LKX(0), ImOp::SLX(2), ImOp::LLX(2)], Term::NOP);
    opt_one_bb(&mut bb2);
    assert_eq!(bb2.code, vec![ImOp::LKX(0), ImOp::ULX(2)]);
}

#[test]
fn jump_if_false_after_comparison() {
    let lt = CmpOpWt::Ord(OrdOpWt(OrdOp::Lt, OrdTyp::N));
    let mut bb = block(vec![ImOp::LKX(0), ImOp::LKX(1), ImOp::CMP(lt)], Term::JMP(Jmp::YX(false), 7));
    red(&mut bb, 0);
    assert_eq!(bb.code, vec![ImOp::LKX(0), ImOp::LKX(1)]);
    assert_eq!(bb.term, Term::JMP(Jmp::CX(CmpOpWt::Ord(OrdOpWt(OrdOp::Ge, OrdTyp::N))), 7));
    // a goto stays
    let mut g = block(vec![ImOp::POP], Term::JMP(Jmp::JX, 1));
    red(&mut g, 0);
    assert_eq!(g.code, vec![ImOp::POP]);
}

#[test]
fn jump_threading() {
    let mut bbs = vec![
        block(vec![ImOp::POP], Term::JMP(Jmp::JX, 1)),
        block(vec![], Term::JMP(Jmp::JX, 2)),
        block(vec![], Term::HLT),
    ];
    thr(&mut bbs);
    assert_eq!(bbs[0].term, Term::JMP(Jmp::JX, 2));
    assert_eq!(bbs[1].term, Term::JMP(Jmp::JX, 2));
    assert_eq!(bbs[2].term, Term::HLT);
}

#[test]
fn optimize_compiled_loop() {
    let prog = vec![
        StmtWt::Declar(name("x"), konst(Val::N(5), Type::N)),
        StmtWt::Loooop(LoopWt::Inf(vec![StmtWt::VarAss(name("x"), konst(Val::N(2), Type::N), 1)])),
    ];
    let mut c = Compiler::from_asterix(&prog);
    opt_bblocks(&mut c);
    assert_eq!(c.curr.blocks.len(), 3);
    assert_eq!(c.curr.blocks[1].code, vec![ImOp::LKX(1), ImOp::SLX(0)]);
    assert_eq!(c.curr.blocks[1].term, Term::JMP(Jmp::JX, 1));
}

#[test]
fn compiled_predecessors() {
    let b_local = ExprWt { e: ExprWte::Local(name("b"), 1), t: Type::B };
    let prog = vec![
        StmtWt::Declar(name("b"), konst(Val::B(true), Type::B)),
        StmtWt::Loooop(LoopWt::Cdt(vec![], b_local, vec![StmtWt::VarAss(name("b"), konst(Val::B(false), Type::B), 1)])),
    ];
    let c = Compiler::from_asterix(&prog);
    let b = &c.curr.blocks;
    assert_eq!(b.len(), 4);
    let empty: &[usize] = &[];
    assert_eq!(b[0].pred.as_slice(), empty);
    // entered from the block before the loop
    assert_eq!(b[1].pred.as_slice(), &[0]);
    // the body follows the branch where the condition holds
    assert_eq!(b[2].pred.as_slice(), &[1]);
    // after the loop: only the branch out, not the jump back
    assert_eq!(b[3].pred.as_slice(), &[1]);
    assert_eq!(b[2].code, vec![ImOp::LKX(1), ImOp::SLX(0)]);
}
