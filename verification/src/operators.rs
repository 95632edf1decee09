use vstd::prelude::*;

verus! {

/// Binding strength of binary operators, from the loosest to the tightest.
#[derive(Clone, Copy, Debug, PartialEq, Eq, Structural)]
pub enum Precedence {
    LogOr,
    LogAnd,
    Equality,
    RelLog,
    AddSub,
    MultDiv,
}

/// The rank of a precedence level: a higher rank binds tighter.
pub open spec fn precedence_rank(p: Precedence) -> nat {
    match p {
        Precedence::LogOr => 0,
        Precedence::LogAnd => 1,
        Precedence::Equality => 2,
        Precedence::RelLog => 3,
        Precedence::AddSub => 4,
        Precedence::MultDiv => 5,
    }
}

impl Precedence {
    /// Every precedence level, loosest first.
    pub fn items() -> (v: Vec<Precedence>)
        ensures
            v@.len() == 6,
            forall|i: int| 0 <= i < 6 ==> precedence_rank(#[trigger] v@[i]) == i,
    {
        vec![
            Precedence::LogOr,
            Precedence::LogAnd,
            Precedence::Equality,
            Precedence::RelLog,
            Precedence::AddSub,
            Precedence::MultDiv,
        ]
    }
}

#[derive(Clone, Copy, Debug, PartialEq, Eq, Structural)]
pub enum Assignment {
    Assign,
    AssignPlus,
    AssignMinus,
    AssignMult,
    AssignDiv,
    AssignMod,
}

#[derive(Clone, Copy, Debug, PartialEq, Eq, Structural)]
pub enum Binary {
    Plus,
    Minus,
    Mult,
    Div,
    Mod,
    GreaterThan,
    LessThan,
    GreaterEq,
    LessEq,
    Equal,
    NotEqual,
    LogicalAnd,
    LogicalOr,
}

#[derive(Clone, Copy, Debug, PartialEq, Eq, Structural)]
pub enum Unary {
    Negation,
    LogicalNegation,
}

impl Binary {
    /// Short-circuiting operators: their right operand is evaluated only when needed.
    pub fn is_lazy(&self) -> (b: bool)
        ensures
            b == (*self == Binary::LogicalAnd || *self == Binary::LogicalOr),
    {
        match self {
            Binary::LogicalAnd | Binary::LogicalOr => true,
            _ => false,
        }
    }
}

/// The precedence level of each binary operator.
pub open spec fn spec_op_precedence(op: Binary) -> Precedence {
    match op {
        Binary::Mult | Binary::Div | Binary::Mod => Precedence::MultDiv,
        Binary::Plus | Binary::Minus => Precedence::AddSub,
        Binary::GreaterEq | Binary::GreaterThan | Binary::LessEq | Binary::LessThan
        | Binary::Equal | Binary::NotEqual => Precedence::RelLog,
        Binary::LogicalAnd => Precedence::LogAnd,
        Binary::LogicalOr => Precedence::LogOr,
    }
}

pub fn op_precedence(op: &Binary) -> (p: Precedence)
    ensures
        p == spec_op_precedence(*op),
{
    match op {
        Binary::Mult | Binary::Div | Binary::Mod => Precedence::MultDiv,
        Binary::Plus | Binary::Minus => Precedence::AddSub,
        Binary::GreaterEq | Binary::GreaterThan | Binary::LessEq | Binary::LessThan
        | Binary::Equal | Binary::NotEqual => Precedence::RelLog,
        Binary::LogicalAnd => Precedence::LogAnd,
        Binary::LogicalOr => Precedence::LogOr,
    }
}

} // verus!
