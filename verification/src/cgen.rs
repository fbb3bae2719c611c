use vstd::prelude::*;
use vstd::string::StringExecFns;
use crate::ast::FundTy;
use crate::asterix::{BinOpWt, CmpOpWt, EquOpWt, OrdOp, OrdOpWt, Type, UniOpWt, Val};
use crate::asterix::{BinOp, UniOp, binop_wt_kind, uniop_wt_kind, uniop_wt_type, cmp_wt_holds};
use crate::asterix::{ExprWt, ExprWte, LoopWt, StmtWt};
use crate::intrep::intern;
use crate::ssa_ir::{Gen, GenModel, Tac, TacBinOp, gen_block, gen_expr, gen_prog, gen_stmt, new_tmp, emit, new_label};

verus! {

// Names of C ---------------------------------------------------------------------

pub open spec fn type_c(t: Type) -> Seq<char> {
    match t {
        Type::B => "int"@,
        Type::C => "uint8_t"@,
        Type::N => "uint32_t"@,
        Type::Z => "int32_t"@,
        Type::R => "double"@,
    }
}

/// The C type of a value type.
pub fn type2c(t: &Type) -> (r: &'static str)
    ensures
        r@ == type_c(*t),
{
    match t {
        Type::B => "int",
        Type::C => "uint8_t",
        Type::N => "uint32_t",
        Type::Z => "int32_t",
        Type::R => "double",
    }
}

/// The C type of a fundamental type.
pub fn fundty2c(t: &FundTy) -> (r: &'static str)
    ensures
        r@ == type_c(match *t {
            FundTy::B => Type::B,
            FundTy::C => Type::C,
            FundTy::N => Type::N,
            FundTy::Z => Type::Z,
            FundTy::R => Type::R,
        }),
{
    match t {
        FundTy::B => "int",
        FundTy::C => "uint8_t",
        FundTy::N => "uint32_t",
        FundTy::Z => "int32_t",
        FundTy::R => "double",
    }
}

pub open spec fn uniop_c(op: UniOpWt) -> Seq<char> {
    match op {
        UniOpWt::NEZ | UniOpWt::NER => "-"@,
        UniOpWt::INR => "1.0 / "@,
        UniOpWt::NOB => "!"@,
        UniOpWt::NOC | UniOpWt::NON => "~"@,
    }
}

pub fn uniop2c(op: &UniOpWt) -> (r: &'static str)
    ensures
        r@ == uniop_c(*op),
{
    match op {
        UniOpWt::NEZ | UniOpWt::NER => "-",
        UniOpWt::INR => "1.0 / ",
        UniOpWt::NOB => "!",
        UniOpWt::NOC | UniOpWt::NON => "~",
    }
}

pub open spec fn binop_c(op: BinOpWt) -> Seq<char> {
    match op {
        BinOpWt::ADC | BinOpWt::ADN | BinOpWt::ADZ | BinOpWt::ADR => "+"@,
        BinOpWt::SUZ | BinOpWt::SUR => "-"@,
        BinOpWt::MUC | BinOpWt::MUN | BinOpWt::MUZ | BinOpWt::MUR => "*"@,
        BinOpWt::DIN | BinOpWt::DIR => "/"@,
        BinOpWt::MOC | BinOpWt::MON | BinOpWt::MOZ => "%"@,
        BinOpWt::ANB | BinOpWt::ANC | BinOpWt::ANN => "&"@,
        BinOpWt::IOB | BinOpWt::IOC | BinOpWt::ION => "|"@,
        BinOpWt::XOB | BinOpWt::XOC | BinOpWt::XON => "^"@,
    }
}

/// The C operator of a binary operation; the modulo of a Z% by an N% has no
/// operator of C (its `%` is a remainder).
pub fn binop2c(op: &BinOpWt) -> (r: &'static str)
    requires
        *op != BinOpWt::MOZ,
    ensures
        r@ == binop_c(*op),
{
    match op {
        BinOpWt::ADC | BinOpWt::ADN | BinOpWt::ADZ | BinOpWt::ADR => "+",
        BinOpWt::SUZ | BinOpWt::SUR => "-",
        BinOpWt::MUC | BinOpWt::MUN | BinOpWt::MUZ | BinOpWt::MUR => "*",
        BinOpWt::DIN | BinOpWt::DIR => "/",
        BinOpWt::MOC | BinOpWt::MON => "%",
        BinOpWt::MOZ => vstd::pervasive::unreached(),  // a special case
        BinOpWt::ANB | BinOpWt::ANC | BinOpWt::ANN => "&",
        BinOpWt::IOB | BinOpWt::IOC | BinOpWt::ION => "|",
        BinOpWt::XOB | BinOpWt::XOC | BinOpWt::XON => "^",
    }
}

pub open spec fn cmpop_c(op: CmpOpWt) -> Seq<char> {
    match op {
        CmpOpWt::Equ(EquOpWt(b, _)) => if b {
            "=="@
        } else {
            "!="@
        },
        CmpOpWt::Ord(OrdOpWt(o, _)) => match o {
            OrdOp::Lt => "<"@,
            OrdOp::Le => "<="@,
            OrdOp::Gt => ">"@,
            OrdOp::Ge => ">="@,
        },
    }
}

pub fn cmpop2c(op: &CmpOpWt) -> (r: &'static str)
    ensures
        r@ == cmpop_c(*op),
{
    match op {
        CmpOpWt::Equ(EquOpWt(b, _)) => if *b {
            "=="
        } else {
            "!="
        },
        CmpOpWt::Ord(OrdOpWt(o, _)) => match o {
            OrdOp::Lt => "<",
            OrdOp::Le => "<=",
            OrdOp::Gt => ">",
            OrdOp::Ge => ">=",
        },
    }
}

pub open spec fn tacbinop_c(op: TacBinOp) -> Seq<char> {
    match op {
        TacBinOp::Bin(b) => binop_c(b),
        TacBinOp::Cmp(c) => cmpop_c(c),
    }
}

pub fn tacbinop2c(op: &TacBinOp) -> (r: &'static str)
    requires
        *op != TacBinOp::Bin(BinOpWt::MOZ),
    ensures
        r@ == tacbinop_c(*op),
{
    match op {
        TacBinOp::Bin(b) => binop2c(b),
        TacBinOp::Cmp(b) => cmpop2c(b),
    }
}

// Numbers -------------------------------------------------------------------------

pub open spec fn digit(d: nat) -> char {
    if d == 0 {
        '0'
    } else if d == 1 {
        '1'
    } else if d == 2 {
        '2'
    } else if d == 3 {
        '3'
    } else if d == 4 {
        '4'
    } else if d == 5 {
        '5'
    } else if d == 6 {
        '6'
    } else if d == 7 {
        '7'
    } else if d == 8 {
        '8'
    } else {
        '9'
    }
}

/// The decimal digits of `n`.
pub open spec fn dec(n: nat) -> Seq<char>
    decreases n,
{
    if n < 10 {
        seq![digit(n)]
    } else {
        dec(n / 10).push(digit(n % 10))
    }
}

/// An integer in decimal, with a minus sign where it is negative.
pub open spec fn zdec(z: int) -> Seq<char> {
    if z < 0 {
        "-"@ + dec((-z) as nat)
    } else {
        dec(z as nat)
    }
}

fn push_digit(s: &mut String, d: u32)
    requires
        d < 10,
    ensures
        final(s)@ == old(s)@.push(digit(d as nat)),
{
    proof {
        reveal_strlit("0");
        reveal_strlit("1");
        reveal_strlit("2");
        reveal_strlit("3");
        reveal_strlit("4");
        reveal_strlit("5");
        reveal_strlit("6");
        reveal_strlit("7");
        reveal_strlit("8");
        reveal_strlit("9");
    }
    let t = if d == 0 {
        "0"
    } else if d == 1 {
        "1"
    } else if d == 2 {
        "2"
    } else if d == 3 {
        "3"
    } else if d == 4 {
        "4"
    } else if d == 5 {
        "5"
    } else if d == 6 {
        "6"
    } else if d == 7 {
        "7"
    } else if d == 8 {
        "8"
    } else {
        "9"
    };
    s.append(t);
    assert(s@ =~= old(s)@.push(digit(d as nat)));
}

/// Appends `n` in decimal.
fn push_dec(s: &mut String, n: u32)
    ensures
        final(s)@ == old(s)@ + dec(n as nat),
    decreases n,
{
    if n >= 10 {
        push_dec(s, n / 10);
    }
    push_digit(s, n % 10);
    assert(s@ =~= old(s)@ + dec(n as nat));
}

/// Appends `z` in decimal.
fn push_int(s: &mut String, z: i32)
    ensures
        final(s)@ == old(s)@ + zdec(z as int),
{
    if z < 0 {
        s.append("-");
        let m: u32 = if z == i32::MIN {
            2147483648u32
        } else {
            (0 - z) as u32
        };
        push_dec(s, m);
        assert(s@ =~= old(s)@ + zdec(z as int));
    } else {
        push_dec(s, z as u32);
    }
}

fn widen(x: u16) -> (r: u32)
    ensures
        r == x,
{
    x as u32
}

fn wide8(x: u8) -> (r: u32)
    ensures
        r == x,
{
    x as u32
}

fn index(x: u16) -> (r: usize)
    ensures
        r == x,
{
    x as usize
}

fn narrow(x: usize) -> (r: u16)
    ensures
        r == x as u16,
{
    x as u16
}

// The program in C -----------------------------------------------------------------

/// The C literal of a constant; a real's comes from outside, in `text`.
pub open spec fn lit_c(v: Val, text: Seq<char>) -> Seq<char> {
    match v {
        Val::B(b) => if b {
            "1"@
        } else {
            "0"@
        },
        Val::C(c) => dec(c as nat),
        Val::N(n) => dec(n as nat),
        Val::Z(z) => zdec(z as int),
        Val::R(_) => text,
    }
}

/// The C literal of a constant; the text of a real is `text`, as only the
/// formatting of floats can write it.
pub fn literal_in_c(v: &Val, text: &str) -> (r: String)
    ensures
        r@ == lit_c(*v, text@),
{
    let mut s = String::new();
    match v {
        Val::B(b) => if *b {
            s.append("1");
        } else {
            s.append("0");
        },
        Val::C(c) => push_dec(&mut s, wide8(*c)),
        Val::N(n) => push_dec(&mut s, *n),
        Val::Z(z) => push_int(&mut s, *z),
        Val::R(_) => s.append(text),
    }
    assert(s@ =~= lit_c(*v, text@));
    s
}

/// The name of temporary `i`.
pub open spec fn tname(i: u16) -> Seq<char> {
    "t"@ + dec(i as nat)
}

/// The C statement of one instruction.
pub open spec fn tac_c(c: Tac, ctn: Seq<Val>, reals: Seq<Seq<char>>) -> Seq<char> {
    match c {
        Tac::CTN(a, ci) => tname(a) + " = "@ + lit_c(ctn[ci as int], reals[ci as int]) + ";\n"@,
        Tac::CPY(ta, tb) => tname(ta) + " = "@ + tname(tb) + ";\n"@,
        Tac::UNO(ta, tb, op) => tname(ta) + " = "@ + uniop_c(op) + " "@ + tname(tb) + ";\n"@,
        Tac::BIO(ta, tb, op, tc) => if op == TacBinOp::Bin(BinOpWt::MOZ) {
            // a modulo, not the remainder of C
            tname(ta) + " = ("@ + tname(tb) + "%"@ + tname(tc) + "+"@ + tname(tc) + ")%"@ + tname(tc) + ";\n"@
        } else {
            tname(ta) + " = "@ + tname(tb) + " "@ + tacbinop_c(op) + " "@ + tname(tc) + ";\n"@
        },
        Tac::LAB(i) => "L"@ + dec(i as nat) + ":\n"@,
        Tac::JMP(i) => "goto L"@ + dec(i as nat) + ";\n"@,
        Tac::JIF(li, ti, b) => "if ("@ + (if b {
            ""@
        } else {
            "!"@
        }) + tname(ti) + ") goto L"@ + dec(li as nat) + ";\n"@,
    }
}

/// The C statements of the first `n` instructions.
pub open spec fn tacs_c(out: Seq<Tac>, n: int, ctn: Seq<Val>, reals: Seq<Seq<char>>) -> Seq<char>
    decreases n,
{
    if n <= 0 {
        seq![]
    } else {
        tacs_c(out, n - 1, ctn, reals) + tac_c(out[n - 1], ctn, reals)
    }
}

/// The temporaries of type `t` among the first `n`, separated by commas.
pub open spec fn group_list(tmp: Seq<Type>, t: Type, n: int) -> Seq<char>
    decreases n,
{
    if n <= 0 {
        seq![]
    } else {
        let prev = group_list(tmp, t, n - 1);
        if tmp[n - 1] == t {
            if prev.len() == 0 {
                tname((n - 1) as u16)
            } else {
                prev + ","@ + tname((n - 1) as u16)
            }
        } else {
            prev
        }
    }
}

/// The declaration of the temporaries of type `t`, where there are some.
pub open spec fn group_c(tmp: Seq<Type>, t: Type) -> Seq<char> {
    let l = group_list(tmp, t, tmp.len() as int);
    if l.len() == 0 {
        seq![]
    } else {
        type_c(t) + " "@ + l + ";\n"@
    }
}

/// The declarations of all the temporaries, grouped by type.
pub open spec fn decl_c(tmp: Seq<Type>) -> Seq<char> {
    group_c(tmp, Type::B) + group_c(tmp, Type::C) + group_c(tmp, Type::N) + group_c(tmp, Type::Z) + group_c(tmp, Type::R)
}

pub open spec fn head_c() -> Seq<char> {
    "#include <stdint.h>\n"@ + "#include \"dfc/mem.h\"\n"@ + "#include \"dfc/arr.h\"\n"@ + "\n"@ + "int main(void)\n{\n"@
        + "dfc_mem_init();\n"@
}

pub open spec fn tail_c() -> Seq<char> {
    "dfc_mem_exit();\n"@ + "return 0;\n"@ + "}"@
}

/// The C program of some three-address code.
pub open spec fn program_c(out: Seq<Tac>, tmp: Seq<Type>, ctn: Seq<Val>, reals: Seq<Seq<char>>) -> Seq<char> {
    head_c() + decl_c(tmp) + tacs_c(out, out.len() as int, ctn, reals) + tail_c()
}

/// Whether every constant that the code loads is in the pool.
pub open spec fn ctns_ok(out: Seq<Tac>, nc: int) -> bool {
    forall|k: int| 0 <= k < out.len() ==> match #[trigger] out[k] {
        Tac::CTN(_, ci) => ci < nc,
        _ => true,
    }
}

/// Appends the name of temporary `i`.
fn push_tname(s: &mut String, i: u16)
    ensures
        final(s)@ == old(s)@ + tname(i),
{
    s.append("t");
    push_dec(s, widen(i));
    assert(s@ =~= old(s)@ + tname(i));
}

/// Appends the declaration of the temporaries of type `t`.
fn declar_group(res: &mut String, tmp: &[Type], t: Type)
    ensures
        final(res)@ == old(res)@ + group_c(tmp@, t),
{
    let mut list = String::new();
    let mut any = false;
    let mut i: usize = 0;
    while i < tmp.len()
        invariant
            i <= tmp@.len(),
            list@ == group_list(tmp@, t, i as int),
            any == (list@.len() > 0),
        decreases tmp@.len() - i,
    {
        if tmp[i] == t {
            let ghost prev = list@;
            if any {
                list.append(",");
            }
            push_tname(&mut list, narrow(i));
            proof {
                reveal_strlit("t");
                if prev.len() == 0 {
                    assert(list@ =~= tname(i as u16));
                } else {
                    assert(list@ =~= prev + ","@ + tname(i as u16));
                }
            }
            any = true;
        }
        i += 1;
    }
    if any {
        res.append(type2c(&t));
        res.append(" ");
        res.append(list.as_str());
        res.append(";\n");
    }
    assert(res@ =~= old(res)@ + group_c(tmp@, t));
}

/// Declares all the temporaries at the beginning, grouped by type.
fn declar_vars(tmp: &[Type]) -> (r: String)
    ensures
        r@ == decl_c(tmp@),
{
    let mut res = String::new();
    declar_group(&mut res, tmp, Type::B);
    declar_group(&mut res, tmp, Type::C);
    declar_group(&mut res, tmp, Type::N);
    declar_group(&mut res, tmp, Type::Z);
    declar_group(&mut res, tmp, Type::R);
    assert(res@ =~= decl_c(tmp@));
    res
}

/// Writes the C statement of one instruction.
fn push_tac(res: &mut String, c: &Tac, ctn: &[Val], reals: &[String])
    requires
        reals@.len() == ctn@.len(),
        c matches Tac::CTN(_, ci) ==> ci < ctn@.len(),
    ensures
        final(res)@ == old(res)@ + tac_c(*c, ctn@, reals@.map_values(|s: String| s@)),
{
    let ghost rs = reals@.map_values(|s: String| s@);
    match c {
        Tac::CTN(a, ci) => {
            push_tname(res, *a);
            res.append(" = ");
            let k = index(*ci);
            let lit = literal_in_c(&ctn[k], reals[k].as_str());
            res.append(lit.as_str());
            res.append(";\n");
        },
        Tac::CPY(ta, tb) => {
            push_tname(res, *ta);
            res.append(" = ");
            push_tname(res, *tb);
            res.append(";\n");
        },
        Tac::UNO(ta, tb, op) => {
            push_tname(res, *ta);
            res.append(" = ");
            res.append(uniop2c(op));
            res.append(" ");
            push_tname(res, *tb);
            res.append(";\n");
        },
        Tac::BIO(ta, tb, op, tc) => {
            if *op == TacBinOp::Bin(BinOpWt::MOZ) {
                // a modulo, not the remainder of C
                push_tname(res, *ta);
                res.append(" = (");
                push_tname(res, *tb);
                res.append("%");
                push_tname(res, *tc);
                res.append("+");
                push_tname(res, *tc);
                res.append(")%");
                push_tname(res, *tc);
                res.append(";\n");
            } else {
                push_tname(res, *ta);
                res.append(" = ");
                push_tname(res, *tb);
                res.append(" ");
                res.append(tacbinop2c(op));
                res.append(" ");
                push_tname(res, *tc);
                res.append(";\n");
            }
        },
        Tac::LAB(i) => {
            res.append("L");
            push_dec(res, widen(*i));
            res.append(":\n");
        },
        Tac::JMP(i) => {
            res.append("goto L");
            push_dec(res, widen(*i));
            res.append(";\n");
        },
        Tac::JIF(li, ti, b) => {
            res.append("if (");
            if *b {
                res.append("");
            } else {
                res.append("!");
            }
            push_tname(res, *ti);
            res.append(") goto L");
            push_dec(res, widen(*li));
            res.append(";\n");
        },
    }
    assert(res@ =~= old(res)@ + tac_c(*c, ctn@, rs));
}

/// The C program of the generated code; the texts of the real constants,
/// which only the formatting of floats can write, are given in `reals`, by
/// their index in the pool.
pub fn into_c(g: &Gen, reals: &[String]) -> (r: String)
    requires
        reals@.len() == g.ctn@.len(),
        ctns_ok(g.out@, g.ctn@.len() as int),
    ensures
        r@ == program_c(g.out@, g.tmp@, g.ctn@, reals@.map_values(|s: String| s@)),
{
    let ghost rs = reals@.map_values(|s: String| s@);
    let mut res = String::new();
    res.append("#include <stdint.h>\n");
    res.append("#include \"dfc/mem.h\"\n");
    res.append("#include \"dfc/arr.h\"\n");
    res.append("\n");
    res.append("int main(void)\n{\n");
    res.append("dfc_mem_init();\n");
    // declare them all at the beginning
    let decl = declar_vars(g.tmp.as_slice());
    res.append(decl.as_str());
    let ghost start = res@;
    let ctn = g.ctn.as_slice();
    let mut k: usize = 0;
    while k < g.out.len()
        invariant
            k <= g.out@.len(),
            ctn@ == g.ctn@,
            reals@.len() == g.ctn@.len(),
            ctns_ok(g.out@, g.ctn@.len() as int),
            rs == reals@.map_values(|s: String| s@),
            res@ == start + tacs_c(g.out@, k as int, g.ctn@, rs),
        decreases g.out@.len() - k,
    {
        let ghost before = res@;
        push_tac(&mut res, &g.out[k], ctn, reals);
        k += 1;
        assert(res@ =~= start + tacs_c(g.out@, k as int, g.ctn@, rs));
    }
    res.append("dfc_mem_exit();\n");
    res.append("return 0;\n");
    res.append("}");
    assert(res@ =~= program_c(g.out@, g.tmp@, g.ctn@, rs));
    res
}


// Generated code and the constant pool -------------------------------------------

/// A constant that is interned gets an index in the pool, which only grows.
proof fn lemma_intern_index(cs: Seq<Val>, v: Val)
    ensures
        intern(cs, v).0.len() >= cs.len(),
        intern(cs, v).1 < intern(cs, v).0.len(),
{
    if exists|i: usize| crate::util::is_first_match(cs, v, Some(i)) {
        let i = choose|i: usize| crate::util::is_first_match(cs, v, Some(i));
        assert(i < cs.len());
    }
}

/// The state of generation where every loaded constant is in the pool.
pub open spec fn gen_ctns_ok(g: GenModel) -> bool {
    ctns_ok(g.out, g.ctn.len() as int)
}

proof fn lemma_expr_ctns(e: ExprWt, g: GenModel)
    requires
        gen_expr(e, g) is Some,
        gen_ctns_ok(g),
    ensures
        gen_ctns_ok(gen_expr(e, g)->Some_0.0),
        gen_expr(e, g)->Some_0.0.ctn.len() >= g.ctn.len(),
    decreases e,
{
    match e.e {
        ExprWte::Const(v) => {
            lemma_intern_index(g.ctn, v);
            let g1 = gen_expr(e, g)->Some_0.0;
            assert forall|k: int| 0 <= k < g1.out.len() implies match #[trigger] g1.out[k] {
                Tac::CTN(_, ci) => ci < g1.ctn.len(),
                _ => true,
            } by {
                if k < g.out.len() {
                    assert(g1.out[k] == g.out[k]);
                }
            }
        },
        ExprWte::UniOp(x, _) => {
            lemma_expr_ctns(*x, g);
            let g1 = gen_expr(*x, g)->Some_0.0;
            let g2 = gen_expr(e, g)->Some_0.0;
            assert forall|k: int| 0 <= k < g2.out.len() implies match #[trigger] g2.out[k] {
                Tac::CTN(_, ci) => ci < g2.ctn.len(),
                _ => true,
            } by {
                if k < g1.out.len() {
                    assert(g2.out[k] == g1.out[k]);
                }
            }
        },
        ExprWte::BinOp(l, _, r) => {
            lemma_expr_ctns(*l, g);
            let g1 = gen_expr(*l, g)->Some_0.0;
            lemma_expr_ctns(*r, g1);
            let g2 = gen_expr(*r, g1)->Some_0.0;
            let g3 = gen_expr(e, g)->Some_0.0;
            assert forall|k: int| 0 <= k < g3.out.len() implies match #[trigger] g3.out[k] {
                Tac::CTN(_, ci) => ci < g3.ctn.len(),
                _ => true,
            } by {
                if k < g2.out.len() {
                    assert(g3.out[k] == g2.out[k]);
                }
            }
        },
        ExprWte::CmpOp(f, v) => {
            lemma_expr_ctns(*f, g);
            let g1 = gen_expr(*f, g)->Some_0.0;
            if v@.len() == 1 {
                lemma_expr_ctns(v@[0].1, g1);
                let g2 = gen_expr(v@[0].1, g1)->Some_0.0;
                let g3 = gen_expr(e, g)->Some_0.0;
                assert forall|k: int| 0 <= k < g3.out.len() implies match #[trigger] g3.out[k] {
                    Tac::CTN(_, ci) => ci < g3.ctn.len(),
                    _ => true,
                } by {
                    if k < g2.out.len() {
                        assert(g3.out[k] == g2.out[k]);
                    }
                }
            }
        },
        _ => {},
    }
}

/// Code that loads no constant keeps every loaded constant in the pool.
proof fn lemma_push_no_ctn(g: GenModel, t: Tac)
    requires
        gen_ctns_ok(g),
        !(t is CTN),
    ensures
        gen_ctns_ok(emit(g, t)),
        gen_ctns_ok(new_label(g)),
{
    let g1 = emit(g, t);
    assert forall|k: int| 0 <= k < g1.out.len() implies match #[trigger] g1.out[k] {
        Tac::CTN(_, ci) => ci < g1.ctn.len(),
        _ => true,
    } by {
        if k < g.out.len() {
            assert(g1.out[k] == g.out[k]);
        }
    }
    let g2 = new_label(g);
    assert forall|k: int| 0 <= k < g2.out.len() implies match #[trigger] g2.out[k] {
        Tac::CTN(_, ci) => ci < g2.ctn.len(),
        _ => true,
    } by {
        if k < g.out.len() {
            assert(g2.out[k] == g.out[k]);
        }
    }
}

proof fn lemma_stmt_ctns(s: StmtWt, g: GenModel)
    requires
        gen_stmt(s, g) is Some,
        gen_ctns_ok(g),
    ensures
        gen_ctns_ok(gen_stmt(s, g)->Some_0),
        gen_stmt(s, g)->Some_0.ctn.len() >= g.ctn.len(),
    decreases s, 0int,
{
    match s {
        StmtWt::Declar(_, e) => {
            lemma_expr_ctns(e, g);
        },
        StmtWt::VarAss(i, e, d) => {
            lemma_expr_ctns(e, g);
            let g1 = gen_expr(e, g)->Some_0.0;
            let t1 = gen_expr(e, g)->Some_0.1;
            let t0 = crate::ssa_ir::loc_get(g1.loc, i@, d)->Some_0;
            lemma_push_no_ctn(g1, Tac::CPY(t0, t1));
        },
        StmtWt::Loooop(l) => match l {
            LoopWt::Inf(b) => {
                lemma_push_no_ctn(g, Tac::JMP(0));
                let g1 = new_label(g);
                let g1l = GenModel { loc: g1.loc.push(seq![]), ..g1 };
                lemma_block_ctns(b@, b@.len() as int, g1l);
                let g2 = gen_block(b@, b@.len() as int, g1l)->Some_0;
                lemma_push_no_ctn(g2, Tac::JMP(g.lab));
            },
            LoopWt::Cdt(b0, cd, b1) => {
                let g0 = GenModel { loc: g.loc.push(seq![]), ..g };
                lemma_push_no_ctn(g0, Tac::JMP(0));
                let g1 = new_label(g0);
                lemma_block_ctns(b0@, b0@.len() as int, g1);
                let g2 = gen_block(b0@, b0@.len() as int, g1)->Some_0;
                lemma_expr_ctns(cd, g2);
                let (g3, ct) = gen_expr(cd, g2)->Some_0;
                let at = g3.out.len();
                lemma_push_no_ctn(g3, Tac::JIF(0, ct, false));
                let g4 = emit(g3, Tac::JIF(0, ct, false));
                lemma_block_ctns(b1@, b1@.len() as int, g4);
                let g5 = gen_block(b1@, b1@.len() as int, g4)->Some_0;
                crate::ssa_ir::lemma_gen_block_frame(b1@, b1@.len() as int, g4);
                lemma_push_no_ctn(g5, Tac::JMP(g.lab));
                let g6 = emit(g5, Tac::JMP(g.lab));
                lemma_push_no_ctn(g6, Tac::JMP(0));
                let g7 = new_label(g6);
                let g8 = gen_stmt(s, g)->Some_0;
                assert(g8.out == g7.out.update(at as int, Tac::JIF(g5.lab, ct, false)));
                assert forall|k: int| 0 <= k < g8.out.len() implies match #[trigger] g8.out[k] {
                    Tac::CTN(_, ci) => ci < g8.ctn.len(),
                    _ => true,
                } by {
                    if k != at {
                        assert(g8.out[k] == g7.out[k]);
                    }
                }
            },
        },
    }
}

proof fn lemma_block_ctns(b: Seq<StmtWt>, n: int, g: GenModel)
    requires
        gen_block(b, n, g) is Some,
        gen_ctns_ok(g),
    ensures
        gen_ctns_ok(gen_block(b, n, g)->Some_0),
        gen_block(b, n, g)->Some_0.ctn.len() >= g.ctn.len(),
    decreases b, n,
{
    if 0 < n <= b.len() {
        lemma_block_ctns(b, n - 1, g);
        lemma_stmt_ctns(b[n - 1], gen_block(b, n - 1, g)->Some_0);
    }
}

/// Every constant that the generated code of a program loads is in its
/// pool: what `Gen::from_prog` makes, `into_c` takes.
pub proof fn lemma_generated_code_has_its_constants(main: Seq<StmtWt>)
    requires
        gen_prog(main) is Some,
    ensures
        ctns_ok(gen_prog(main)->Some_0.out, gen_prog(main)->Some_0.ctn.len() as int),
{
    let g0 = GenModel { loc: seq![seq![], seq![]], ..crate::ssa_ir::gen_start() };
    lemma_block_ctns(main, main.len() as int, g0);
}

// What the C operators mean ----------------------------------------------------------

/// What the C relational operator written `text` says of two numbers.
pub open spec fn c_relation(text: Seq<char>, a: int, b: int) -> bool {
    if text == "<"@ {
        a < b
    } else if text == "<="@ {
        a <= b
    } else if text == ">"@ {
        a > b
    } else if text == ">="@ {
        a >= b
    } else if text == "=="@ {
        a == b
    } else if text == "!="@ {
        a != b
    } else {
        false
    }
}

/// The operator that the C binary operator written `text` performs.
pub open spec fn c_binop(text: Seq<char>) -> Option<BinOp> {
    if text == "+"@ {
        Some(BinOp::Add)
    } else if text == "-"@ {
        Some(BinOp::Sub)
    } else if text == "*"@ {
        Some(BinOp::Mul)
    } else if text == "/"@ {
        Some(BinOp::Div)
    } else if text == "%"@ {
        Some(BinOp::Mod)
    } else if text == "&"@ {
        Some(BinOp::And)
    } else if text == "|"@ {
        Some(BinOp::Ior)
    } else if text == "^"@ {
        Some(BinOp::Xor)
    } else {
        None
    }
}

/// The operator that the C prefix written `text` performs: `-` negates,
/// `1.0 / ` inverts a double, `!` is the logical not of a truth value, `~`
/// the bitwise not of a number.
pub open spec fn c_uniop(text: Seq<char>) -> Option<(UniOp, bool)> {
    if text == "-"@ {
        Some((UniOp::Neg, false))
    } else if text == "1.0 / "@ {
        Some((UniOp::Inv, false))
    } else if text == "!"@ {
        Some((UniOp::Not, true))
    } else if text == "~"@ {
        Some((UniOp::Not, false))
    } else {
        None
    }
}

/// The C text of a comparison says of any two numbers what the comparison
/// says of them.
pub proof fn lemma_cmpop_c_means(c: CmpOpWt, a: int, b: int)
    ensures
        c_relation(cmpop_c(c), a, b) == cmp_wt_holds(c, a, b),
{
    reveal_strlit("<");
    reveal_strlit("<=");
    reveal_strlit(">");
    reveal_strlit(">=");
    reveal_strlit("==");
    reveal_strlit("!=");
    assert("<"@ != "<="@) by {
        assert("<"@.len() != "<="@.len() || "<"@[0] != "<="@[0]);
    }
    assert("<"@ != ">"@) by {
        assert("<"@.len() != ">"@.len() || "<"@[0] != ">"@[0]);
    }
    assert("<"@ != ">="@) by {
        assert("<"@.len() != ">="@.len() || "<"@[0] != ">="@[0]);
    }
    assert("<"@ != "=="@) by {
        assert("<"@.len() != "=="@.len() || "<"@[0] != "=="@[0]);
    }
    assert("<"@ != "!="@) by {
        assert("<"@.len() != "!="@.len() || "<"@[0] != "!="@[0]);
    }
    assert("<="@ != ">"@) by {
        assert("<="@.len() != ">"@.len() || "<="@[0] != ">"@[0]);
    }
    assert("<="@ != ">="@) by {
        assert("<="@.len() != ">="@.len() || "<="@[0] != ">="@[0]);
    }
    assert("<="@ != "=="@) by {
        assert("<="@.len() != "=="@.len() || "<="@[0] != "=="@[0]);
    }
    assert("<="@ != "!="@) by {
        assert("<="@.len() != "!="@.len() || "<="@[0] != "!="@[0]);
    }
    assert(">"@ != ">="@) by {
        assert(">"@.len() != ">="@.len() || ">"@[0] != ">="@[0]);
    }
    assert(">"@ != "=="@) by {
        assert(">"@.len() != "=="@.len() || ">"@[0] != "=="@[0]);
    }
    assert(">"@ != "!="@) by {
        assert(">"@.len() != "!="@.len() || ">"@[0] != "!="@[0]);
    }
    assert(">="@ != "=="@) by {
        assert(">="@.len() != "=="@.len() || ">="@[0] != "=="@[0]);
    }
    assert(">="@ != "!="@) by {
        assert(">="@.len() != "!="@.len() || ">="@[0] != "!="@[0]);
    }
    assert("=="@ != "!="@) by {
        assert("=="@.len() != "!="@.len() || "=="@[0] != "!="@[0]);
    }
}

/// The C operator of a binary operation performs that operation's operator.
pub proof fn lemma_binop_c_means(w: BinOpWt)
    ensures
        c_binop(binop_c(w)) == Some(binop_wt_kind(w)),
{
    reveal_strlit("+");
    reveal_strlit("-");
    reveal_strlit("*");
    reveal_strlit("/");
    reveal_strlit("%");
    reveal_strlit("&");
    reveal_strlit("|");
    reveal_strlit("^");
    assert("+"@ != "-"@) by {
        assert("+"@.len() != "-"@.len() || "+"@[0] != "-"@[0]);
    }
    assert("+"@ != "*"@) by {
        assert("+"@.len() != "*"@.len() || "+"@[0] != "*"@[0]);
    }
    assert("+"@ != "/"@) by {
        assert("+"@.len() != "/"@.len() || "+"@[0] != "/"@[0]);
    }
    assert("+"@ != "%"@) by {
        assert("+"@.len() != "%"@.len() || "+"@[0] != "%"@[0]);
    }
    assert("+"@ != "&"@) by {
        assert("+"@.len() != "&"@.len() || "+"@[0] != "&"@[0]);
    }
    assert("+"@ != "|"@) by {
        assert("+"@.len() != "|"@.len() || "+"@[0] != "|"@[0]);
    }
    assert("+"@ != "^"@) by {
        assert("+"@.len() != "^"@.len() || "+"@[0] != "^"@[0]);
    }
    assert("-"@ != "*"@) by {
        assert("-"@.len() != "*"@.len() || "-"@[0] != "*"@[0]);
    }
    assert("-"@ != "/"@) by {
        assert("-"@.len() != "/"@.len() || "-"@[0] != "/"@[0]);
    }
    assert("-"@ != "%"@) by {
        assert("-"@.len() != "%"@.len() || "-"@[0] != "%"@[0]);
    }
    assert("-"@ != "&"@) by {
        assert("-"@.len() != "&"@.len() || "-"@[0] != "&"@[0]);
    }
    assert("-"@ != "|"@) by {
        assert("-"@.len() != "|"@.len() || "-"@[0] != "|"@[0]);
    }
    assert("-"@ != "^"@) by {
        assert("-"@.len() != "^"@.len() || "-"@[0] != "^"@[0]);
    }
    assert("*"@ != "/"@) by {
        assert("*"@.len() != "/"@.len() || "*"@[0] != "/"@[0]);
    }
    assert("*"@ != "%"@) by {
        assert("*"@.len() != "%"@.len() || "*"@[0] != "%"@[0]);
    }
    assert("*"@ != "&"@) by {
        assert("*"@.len() != "&"@.len() || "*"@[0] != "&"@[0]);
    }
    assert("*"@ != "|"@) by {
        assert("*"@.len() != "|"@.len() || "*"@[0] != "|"@[0]);
    }
    assert("*"@ != "^"@) by {
        assert("*"@.len() != "^"@.len() || "*"@[0] != "^"@[0]);
    }
    assert("/"@ != "%"@) by {
        assert("/"@.len() != "%"@.len() || "/"@[0] != "%"@[0]);
    }
    assert("/"@ != "&"@) by {
        assert("/"@.len() != "&"@.len() || "/"@[0] != "&"@[0]);
    }
    assert("/"@ != "|"@) by {
        assert("/"@.len() != "|"@.len() || "/"@[0] != "|"@[0]);
    }
    assert("/"@ != "^"@) by {
        assert("/"@.len() != "^"@.len() || "/"@[0] != "^"@[0]);
    }
    assert("%"@ != "&"@) by {
        assert("%"@.len() != "&"@.len() || "%"@[0] != "&"@[0]);
    }
    assert("%"@ != "|"@) by {
        assert("%"@.len() != "|"@.len() || "%"@[0] != "|"@[0]);
    }
    assert("%"@ != "^"@) by {
        assert("%"@.len() != "^"@.len() || "%"@[0] != "^"@[0]);
    }
    assert("&"@ != "|"@) by {
        assert("&"@.len() != "|"@.len() || "&"@[0] != "|"@[0]);
    }
    assert("&"@ != "^"@) by {
        assert("&"@.len() != "^"@.len() || "&"@[0] != "^"@[0]);
    }
    assert("|"@ != "^"@) by {
        assert("|"@.len() != "^"@.len() || "|"@[0] != "^"@[0]);
    }
}

/// The C prefix of a unary operation performs that operation's operator,
/// logically on a B% and bitwise on a number.
pub proof fn lemma_uniop_c_means(w: UniOpWt)
    ensures
        c_uniop(uniop_c(w)) == Some((uniop_wt_kind(w), uniop_wt_type(w) == Type::B)),
{
    reveal_strlit("-");
    reveal_strlit("1.0 / ");
    reveal_strlit("!");
    reveal_strlit("~");
    assert("-"@ != "1.0 / "@) by {
        assert("-"@.len() != "1.0 / "@.len() || "-"@[0] != "1.0 / "@[0]);
    }
    assert("-"@ != "!"@) by {
        assert("-"@.len() != "!"@.len() || "-"@[0] != "!"@[0]);
    }
    assert("-"@ != "~"@) by {
        assert("-"@.len() != "~"@.len() || "-"@[0] != "~"@[0]);
    }
    assert("1.0 / "@ != "!"@) by {
        assert("1.0 / "@.len() != "!"@.len() || "1.0 / "@[0] != "!"@[0]);
    }
    assert("1.0 / "@ != "~"@) by {
        assert("1.0 / "@.len() != "~"@.len() || "1.0 / "@[0] != "~"@[0]);
    }
    assert("!"@ != "~"@) by {
        assert("!"@.len() != "~"@.len() || "!"@[0] != "~"@[0]);
    }
}
} // verus!
