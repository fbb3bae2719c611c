use vstd::prelude::*;
use crate::tok::Pos;
use crate::util::SymId;

verus! {

/// The fundamental types.
#[derive(Debug, Copy, Clone, PartialEq, Eq, Structural)]
pub enum FundTy {
    B,  // bool
    C,  // char
    N,  // natural
    Z,  // zahl
    R,  // real
}

/// The letter that names a fundamental type.
pub open spec fn fundty_letter(t: FundTy) -> u8 {
    match t {
        FundTy::B => 66,
        FundTy::C => 67,
        FundTy::N => 78,
        FundTy::Z => 90,
        FundTy::R => 82,
    }
}

impl FundTy {
    pub fn is_num(&self) -> (r: bool)
        ensures
            r == !(*self is B),
    {
        matches!(self, FundTy::C | FundTy::N | FundTy::Z | FundTy::R)
    }

    /// The letter that names the type.
    pub fn letter(&self) -> (r: u8)
        ensures
            r == fundty_letter(*self),
    {
        match self {
            FundTy::B => 66,
            FundTy::C => 67,
            FundTy::N => 78,
            FundTy::Z => 90,
            FundTy::R => 82,
        }
    }

    /// The type named by a letter.
    pub fn try_from_letter(b: u8) -> (r: Option<FundTy>)
        ensures
            match r {
                Some(t) => fundty_letter(t) == b,
                None => forall|t: FundTy| fundty_letter(t) != b,
            },
    {
        match b {
            66 => Some(FundTy::B),
            67 => Some(FundTy::C),
            78 => Some(FundTy::N),
            90 => Some(FundTy::Z),
            82 => Some(FundTy::R),
            _ => None,
        }
    }
}

/// Reading the letter of a type gives the type back.
pub proof fn lemma_fundty_letter_injective(a: FundTy, b: FundTy)
    ensures
        fundty_letter(a) == fundty_letter(b) ==> a == b,
{
}

#[derive(Debug, Clone, Copy, PartialEq, Eq, Structural)]
pub enum Type {
    Fund(FundTy),
}

impl Type {
    pub fn is_b(&self) -> (r: bool)
        ensures
            r == (*self == Type::Fund(FundTy::B)),
    {
        matches!(self, Type::Fund(FundTy::B))
    }

    pub fn from_fundty(ft: FundTy) -> (r: Type)
        ensures
            r == Type::Fund(ft),
    {
        Type::Fund(ft)
    }
}

/// A node of the tree: its value and the position of its text.
#[derive(Debug)]
pub struct Node<T> {
    pub pos: Pos,
    pub val: T,
}

/// Literals. The value of a real literal is the text at the position of its
/// node.
#[derive(Debug, Clone, Copy, PartialEq, Eq, Structural)]
pub enum Lit {
    V,
    B(bool),
    C(u8),
    N(u32),
    Z(i32),
    R,
}

/// Expressions; an identifier refers to a table of symbols.
#[derive(Debug)]
pub enum Expr {
    Lit(Lit),
    Ident(SymId),
    Paren(Box<Node<Expr>>),
}

#[derive(Debug)]
pub enum Stmt {
    Assign(Node<Expr>, Node<Expr>),
}

#[derive(Debug)]
pub struct Block(pub Vec<Node<Stmt>>);

} // verus!
