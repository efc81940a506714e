//! Operator expressions in reverse Polish notation, as the parser builds them.

use vstd::prelude::*;

use crate::lexical::Literal;
use crate::lexical::Token;
use crate::lexical::TokenView;

verus! {

#[derive(Debug, Clone, Copy, PartialEq, Eq)]
pub enum OperatorExpressionOperator {
    Addition,
    Subtraction,
    Multiplication,
    Division,
    Remainder,
}

#[derive(Debug, Clone, PartialEq, Eq)]
pub enum OperatorExpressionOperand {
    Literal(Literal),
}

#[derive(Debug, Clone, PartialEq, Eq)]
pub enum OperatorExpressionObject {
    Operand(OperatorExpressionOperand),
    Operator(OperatorExpressionOperator),
}

/// An operand or an operator, with the token it was read from.
#[derive(Debug, Clone, PartialEq, Eq)]
pub struct OperatorExpressionElement {
    pub object: OperatorExpressionObject,
    pub token: Token,
}

/// The mathematical content of an element: an operand is its digits.
pub enum ObjectView {
    Operand(Seq<u8>),
    Operator(OperatorExpressionOperator),
}

pub struct ElementView {
    pub object: ObjectView,
    pub token: TokenView,
}

impl View for OperatorExpressionObject {
    type V = ObjectView;

    open spec fn view(&self) -> ObjectView {
        match self {
            OperatorExpressionObject::Operand(OperatorExpressionOperand::Literal(Literal::Integer(i))) =>
                ObjectView::Operand(i.digits()),
            OperatorExpressionObject::Operator(o) => ObjectView::Operator(*o),
        }
    }
}

impl View for OperatorExpressionElement {
    type V = ElementView;

    open spec fn view(&self) -> ElementView {
        ElementView { object: self.object@, token: self.token@ }
    }
}

impl OperatorExpressionElement {
    pub fn new(object: OperatorExpressionObject, token: Token) -> (r: OperatorExpressionElement)
        ensures
            r.object == object,
            r.token == token,
    {
        OperatorExpressionElement { object, token }
    }
}

/// An expression in reverse Polish notation: each operator follows its operands.
#[derive(Debug, Clone, PartialEq, Eq)]
pub struct OperatorExpression {
    elements: Vec<OperatorExpressionElement>,
}

pub open spec fn element_views(elements: Seq<OperatorExpressionElement>) -> Seq<ElementView> {
    elements.map_values(|e: OperatorExpressionElement| e@)
}

impl View for OperatorExpression {
    type V = Seq<ElementView>;

    closed spec fn view(&self) -> Seq<ElementView> {
        element_views(self.elements@)
    }
}

impl Default for OperatorExpression {
    fn default() -> (r: OperatorExpression)
        ensures
            r@ == Seq::<ElementView>::empty(),
    {
        OperatorExpression { elements: Vec::new() }
    }
}

impl OperatorExpression {
    pub fn new(elements: Vec<OperatorExpressionElement>) -> (r: OperatorExpression)
        ensures
            r@ == element_views(elements@),
    {
        OperatorExpression { elements }
    }

    pub fn is_empty(&self) -> (r: bool)
        ensures
            r == (self@.len() == 0),
    {
        self.elements.len() == 0
    }

    /// Puts the elements of `other` after those of `self`.
    pub fn append(&mut self, other: OperatorExpression)
        ensures
            final(self)@ == old(self)@ + other@,
    {
        let mut other = other;
        let ghost added = other.elements@;
        self.elements.append(&mut other.elements);
        proof {
            assert(element_views(self.elements@) == element_views(old(self).elements@) + element_views(added));
        }
    }

    /// Puts an operator, with the token it was read from, after the elements.
    pub fn push_operator(&mut self, operator: (OperatorExpressionOperator, Token))
        ensures
            final(self)@ == old(self)@.push(
                ElementView { object: ObjectView::Operator(operator.0), token: operator.1@ },
            ),
    {
        let (operator, token) = operator;
        self.elements.push(OperatorExpressionElement { object: OperatorExpressionObject::Operator(operator), token });
        proof {
            assert(element_views(self.elements@) == element_views(old(self).elements@).push(
                ElementView { object: ObjectView::Operator(operator), token: token@ },
            ));
        }
    }

    /// Puts an operand, with the token it was read from, after the elements.
    pub fn push_operand(&mut self, operand: (OperatorExpressionOperand, Token))
        ensures
            final(self)@ == old(self)@.push(
                OperatorExpressionElement { object: OperatorExpressionObject::Operand(operand.0), token: operand.1 }@,
            ),
    {
        let (operand, token) = operand;
        self.elements.push(OperatorExpressionElement { object: OperatorExpressionObject::Operand(operand), token });
        proof {
            let e = OperatorExpressionElement { object: OperatorExpressionObject::Operand(operand), token };
            assert(element_views(self.elements@) == element_views(old(self).elements@).push(e@));
        }
    }
}

} // verus!
