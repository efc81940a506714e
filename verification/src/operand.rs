//! The parser of the operands of multiplication, division and remainder.

use vstd::prelude::*;

use crate::error::Error;
use crate::error::SyntaxError;
use crate::expression::ElementView;
use crate::expression::ObjectView;
use crate::expression::OperatorExpression;
use crate::expression::OperatorExpressionOperand;
use crate::lexical::Lexeme;
use crate::lexical::LexemeView;
use crate::lexical::LexicalError;
use crate::lexical::Literal;
use crate::lexical::TokenStream;
use crate::lexical::TokenView;

verus! {

/// What reading one operand from `tokens`, followed by `error`, gives: the
/// operand in reverse Polish notation or the error, and how many tokens it
/// takes. An operand is an integer literal.
pub open spec fn operand_step(tokens: Seq<TokenView>, error: Option<LexicalError>) -> (Result<Seq<ElementView>, Error>, nat) {
    if tokens.len() > 0 {
        match tokens[0].lexeme {
            LexemeView::Integer(digits) => (
                Ok(seq![ElementView { object: ObjectView::Operand(digits), token: tokens[0] }]),
                1,
            ),
            LexemeView::Symbol(_) => (
                Err(Error::Syntax(SyntaxError::ExpectedOperand { location: tokens[0].location })),
                1,
            ),
        }
    } else {
        match error {
            Some(e) => (Err(Error::Lexical(e)), 0),
            None => (Err(Error::Syntax(SyntaxError::UnexpectedEnd)), 0),
        }
    }
}

#[derive(Debug, Clone, Copy, PartialEq, Eq)]
pub struct MulDivRemOperatorOperandParser {}

impl Default for MulDivRemOperatorOperandParser {
    fn default() -> (r: MulDivRemOperatorOperandParser)
        ensures
            r == (MulDivRemOperatorOperandParser {}),
    {
        MulDivRemOperatorOperandParser {}
    }
}

impl MulDivRemOperatorOperandParser {
    /// Reads one operand from the stream.
    pub fn parse(self, stream: &mut TokenStream) -> (r: Result<OperatorExpression, Error>)
        ensures
            ({
                let (res, n) = operand_step(old(stream)@.tokens, old(stream)@.error);
                &&& match r {
                    Ok(e) => res == Ok::<Seq<ElementView>, Error>(e@),
                    Err(e) => res == Err::<Seq<ElementView>, Error>(e),
                }
                &&& final(stream)@.tokens == old(stream)@.tokens.skip(n as int)
                &&& final(stream)@.error == old(stream)@.error
            }),
    {
        match stream.next() {
            Some(Ok(token)) => match &token.lexeme {
                Lexeme::Literal(Literal::Integer(integer)) => {
                    let literal = Literal::Integer(integer.duplicate());
                    let mut expression = OperatorExpression::default();
                    expression.push_operand((OperatorExpressionOperand::Literal(literal), token));
                    Ok(expression)
                },
                Lexeme::Symbol(_) => Err(Error::Syntax(SyntaxError::ExpectedOperand { location: token.location })),
            },
            Some(Err(e)) => Err(Error::Lexical(e)),
            None => Err(Error::Syntax(SyntaxError::UnexpectedEnd)),
        }
    }
}

} // verus!
