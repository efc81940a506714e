//! Expression trees: each node an operator or an operand, with up to two
//! subtrees.

use vstd::prelude::*;

use crate::lexical::Location;

verus! {

#[derive(Debug, Clone, Copy, PartialEq, Eq)]
pub enum ExpressionOperator {
    Assignment,
    Range,
    Or,
    Xor,
    And,
    Equals,
    NotEquals,
    GreaterEquals,
    LesserEquals,
    Greater,
    Lesser,
    Addition,
    Subtraction,
    Multiplication,
    Division,
    Remainder,
    Casting,
    Negation,
    Not,
    Indexing,
    Field,
    Call,
}

#[derive(Debug, PartialEq, Eq)]
pub enum ExpressionOperand {
    Unit,
    LiteralBoolean(bool),
    /// The digits of an integer literal, as written.
    LiteralInteger(String),
    Identifier(String),
}

impl ExpressionOperand {
    /// An operand equal to this one.
    pub fn duplicate(&self) -> (r: ExpressionOperand)
        ensures
            r == *self,
    {
        match self {
            ExpressionOperand::Unit => ExpressionOperand::Unit,
            ExpressionOperand::LiteralBoolean(b) => ExpressionOperand::LiteralBoolean(*b),
            ExpressionOperand::LiteralInteger(s) => ExpressionOperand::LiteralInteger(s.clone()),
            ExpressionOperand::Identifier(s) => ExpressionOperand::Identifier(s.clone()),
        }
    }
}

#[derive(Debug, PartialEq, Eq)]
pub enum ExpressionTreeNode {
    Operator(ExpressionOperator),
    Operand(ExpressionOperand),
}

impl ExpressionTreeNode {
    pub fn operator(operator: ExpressionOperator) -> (r: ExpressionTreeNode)
        ensures
            r == ExpressionTreeNode::Operator(operator),
    {
        ExpressionTreeNode::Operator(operator)
    }

    pub fn operand(operand: ExpressionOperand) -> (r: ExpressionTreeNode)
        ensures
            r == ExpressionTreeNode::Operand(operand),
    {
        ExpressionTreeNode::Operand(operand)
    }

    /// A node equal to this one.
    pub fn duplicate(&self) -> (r: ExpressionTreeNode)
        ensures
            r == *self,
    {
        match self {
            ExpressionTreeNode::Operator(o) => ExpressionTreeNode::Operator(*o),
            ExpressionTreeNode::Operand(o) => ExpressionTreeNode::Operand(o.duplicate()),
        }
    }
}

#[derive(Debug, PartialEq, Eq)]
pub struct ExpressionTree {
    pub location: Location,
    pub value: Box<ExpressionTreeNode>,
    pub left: Option<Box<ExpressionTree>>,
    pub right: Option<Box<ExpressionTree>>,
}

/// The tree with the given root and subtrees.
pub open spec fn tree(
    location: Location,
    value: ExpressionTreeNode,
    left: Option<ExpressionTree>,
    right: Option<ExpressionTree>,
) -> ExpressionTree {
    ExpressionTree {
        location,
        value: Box::new(value),
        left: match left {
            Some(t) => Some(Box::new(t)),
            None => None,
        },
        right: match right {
            Some(t) => Some(Box::new(t)),
            None => None,
        },
    }
}

impl ExpressionTree {
    /// A tree of one node.
    pub fn new(location: Location, value: ExpressionTreeNode) -> (r: ExpressionTree)
        ensures
            r == tree(location, value, None, None),
    {
        ExpressionTree { location, value: Box::new(value), left: None, right: None }
    }

    pub fn new_with_leaves(
        location: Location,
        value: ExpressionTreeNode,
        left: Option<ExpressionTree>,
        right: Option<ExpressionTree>,
    ) -> (r: ExpressionTree)
        ensures
            r == tree(location, value, left, right),
    {
        ExpressionTree {
            location,
            value: Box::new(value),
            left: match left {
                Some(t) => Some(Box::new(t)),
                None => None,
            },
            right: match right {
                Some(t) => Some(Box::new(t)),
                None => None,
            },
        }
    }
}

} // verus!
