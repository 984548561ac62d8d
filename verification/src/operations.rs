//! Operator kinds of expression trees.
use vstd::prelude::*;

verus! {

/// Prefix operators.
#[derive(Debug, Clone, Copy, PartialEq, Eq, Structural)]
pub enum UnaryOperationKind {
    Minus,
    Not,
}

/// Infix operators.
#[derive(Debug, Clone, Copy, PartialEq, Eq, Structural)]
pub enum BinaryOperationKind {
    Plus,
    Minus,
    Multiply,
    Divide,
    Or,
    And,
}

pub open spec fn precedence_of(k: BinaryOperationKind) -> u8 {
    match k {
        BinaryOperationKind::Plus | BinaryOperationKind::Minus | BinaryOperationKind::Or => 1,
        BinaryOperationKind::Multiply | BinaryOperationKind::Divide | BinaryOperationKind::And => 2,
    }
}

pub open spec fn binary_symbol(k: BinaryOperationKind) -> Seq<char> {
    match k {
        BinaryOperationKind::Plus => "+"@,
        BinaryOperationKind::Minus => "-"@,
        BinaryOperationKind::Multiply => "*"@,
        BinaryOperationKind::Divide => "/"@,
        BinaryOperationKind::Or => "|"@,
        BinaryOperationKind::And => "&"@,
    }
}

pub open spec fn unary_symbol(k: UnaryOperationKind) -> Seq<char> {
    match k {
        UnaryOperationKind::Minus => "-"@,
        UnaryOperationKind::Not => "!"@,
    }
}

impl BinaryOperationKind {
    /// Binding strength: 1 for `+`, `-`, `|`; 2 for `*`, `/`, `&`.
    pub fn precedence(&self) -> (r: u8)
        ensures
            r == precedence_of(*self),
    {
        match self {
            Self::Plus | Self::Minus | Self::Or => 1,
            Self::Multiply | Self::Divide | Self::And => 2,
        }
    }

    /// The operator's symbol.
    pub fn symbol(&self) -> (r: &'static str)
        ensures
            r@ == binary_symbol(*self),
    {
        match self {
            Self::Plus => "+",
            Self::Minus => "-",
            Self::Multiply => "*",
            Self::Divide => "/",
            Self::Or => "|",
            Self::And => "&",
        }
    }
}

impl UnaryOperationKind {
    /// The operator's symbol.
    pub fn symbol(&self) -> (r: &'static str)
        ensures
            r@ == unary_symbol(*self),
    {
        match self {
            Self::Minus => "-",
            Self::Not => "!",
        }
    }
}

} // verus!
