//! The addition/subtraction operand parser: a chain of multiplication,
//! division and remainder operands, in reverse Polish notation, left
//! associative.

use vstd::prelude::*;

use crate::error::Error;
use crate::expression::ElementView;
use crate::expression::ObjectView;
use crate::expression::OperatorExpression;
use crate::expression::OperatorExpressionOperator;
use crate::lexical::Lexeme;
use crate::lexical::LexemeView;
use crate::lexical::LexicalError;
use crate::lexical::Symbol;
use crate::lexical::Token;
use crate::lexical::TokenStream;
use crate::lexical::TokenView;
use crate::operand::operand_step;
use crate::operand::MulDivRemOperatorOperandParser;

verus! {

#[derive(Debug, Clone, Copy, PartialEq, Eq)]
pub enum State {
    MulDivRemOperand,
    MulDivRemOperator,
    End,
}

impl Default for State {
    fn default() -> (r: State)
        ensures
            r == State::MulDivRemOperand,
    {
        State::MulDivRemOperand
    }
}

/// The operator that a token stands for between two operands of this level.
pub open spec fn mul_div_rem_operator(t: TokenView) -> Option<OperatorExpressionOperator> {
    match t.lexeme {
        LexemeView::Symbol(Symbol::Asterisk) => Some(OperatorExpressionOperator::Multiplication),
        LexemeView::Symbol(Symbol::Slash) => Some(OperatorExpressionOperator::Division),
        LexemeView::Symbol(Symbol::Percent) => Some(OperatorExpressionOperator::Remainder),
        _ => None,
    }
}

/// Reads an operand from `tokens`, puts it after `done` and then puts
/// `pending` (the operator that preceded it, if any), and reads the rest of
/// the chain. Gives the result and the number of tokens taken.
pub open spec fn operand_then_rest(
    tokens: Seq<TokenView>,
    error: Option<LexicalError>,
    done: Seq<ElementView>,
    pending: Seq<ElementView>,
) -> (Result<Seq<ElementView>, Error>, nat)
    decreases tokens.len(),
{
    let (r, n) = operand_step(tokens, error);
    match r {
        Err(e) => (Err(e), n),
        Ok(operand) => {
            let (res, m) = chain_rest(tokens.skip(1), error, done + operand + pending);
            (res, m + 1)
        },
    }
}

/// After an operand: while the next token is `*`, `/` or `%`, reads the
/// operand after it and puts the operator after that operand.
pub open spec fn chain_rest(tokens: Seq<TokenView>, error: Option<LexicalError>, done: Seq<ElementView>) -> (
    Result<Seq<ElementView>, Error>,
    nat,
)
    decreases tokens.len(),
{
    if tokens.len() > 0 && mul_div_rem_operator(tokens[0]) is Some {
        let operator = ElementView {
            object: ObjectView::Operator(mul_div_rem_operator(tokens[0]).unwrap()),
            token: tokens[0],
        };
        let (res, m) = operand_then_rest(tokens.skip(1), error, done, seq![operator]);
        (res, m + 1)
    } else {
        (Ok(done), 0)
    }
}

/// What parsing `operand (op operand)*` from `tokens` gives, with `op` one
/// of `*`, `/`, `%`: the operands in order, each operator right after its
/// right operand; and the number of tokens taken.
pub open spec fn spec_parse(tokens: Seq<TokenView>, error: Option<LexicalError>) -> (Result<Seq<ElementView>, Error>, nat) {
    operand_then_rest(tokens, error, Seq::empty(), Seq::empty())
}

pub open spec fn pending_view(operator: Option<(OperatorExpressionOperator, Token)>) -> Seq<ElementView> {
    match operator {
        Some((o, t)) => seq![ElementView { object: ObjectView::Operator(o), token: t@ }],
        None => Seq::empty(),
    }
}

pub struct Parser {
    state: State,
    expression: OperatorExpression,
    operator: Option<(OperatorExpressionOperator, Token)>,
}

impl Parser {
    /// A parser is only ever made fresh, and `parse` consumes it.
    #[verifier::type_invariant]
    pub closed spec fn fresh(self) -> bool {
        &&& self.state == State::MulDivRemOperand
        &&& self.expression@.len() == 0
        &&& self.operator is None
    }
}

impl Default for Parser {
    fn default() -> (r: Parser)
        ensures
            r.fresh(),
    {
        Parser { state: State::default(), expression: OperatorExpression::default(), operator: None }
    }
}

impl Parser {
    /// Parses a chain of operands joined by `*`, `/` and `%`. The chain ends
    /// before the first token after an operand that is none of these, or
    /// before a lexical error there.
    pub fn parse(self, stream: &mut TokenStream) -> (r: Result<OperatorExpression, Error>)
        ensures
            ({
                let (res, n) = spec_parse(old(stream)@.tokens, old(stream)@.error);
                &&& match r {
                    Ok(e) => res == Ok::<Seq<ElementView>, Error>(e@),
                    Err(e) => res == Err::<Seq<ElementView>, Error>(e),
                }
                &&& final(stream)@.tokens == old(stream)@.tokens.skip(n as int)
                &&& final(stream)@.error == old(stream)@.error
            }),
    {
        proof {
            use_type_invariant(&self);
        }
        let ghost start = stream@.tokens;
        let ghost error = stream@.error;
        let ghost goal = spec_parse(start, error);
        let mut state = self.state;
        let mut expression = self.expression;
        let mut operator = self.operator;
        let ghost mut taken: nat = 0;
        proof {
            assert(expression@ + Seq::<ElementView>::empty() == expression@);
            assert(start.skip(0) == start);
        }
        loop
            invariant
                start == old(stream)@.tokens,
                error == old(stream)@.error,
                goal == spec_parse(start, error),
                stream@.error == error,
                taken <= start.len(),
                stream@.tokens == start.skip(taken as int),
                state == State::MulDivRemOperand ==> ({
                    let (res, m) = operand_then_rest(stream@.tokens, error, expression@, pending_view(operator));
                    goal == (res, taken + m)
                }),
                state == State::MulDivRemOperator ==> ({
                    let (res, m) = chain_rest(stream@.tokens, error, expression@);
                    goal == (res, taken + m)
                }),
                state == State::End ==> goal == (Ok::<Seq<ElementView>, Error>(expression@), taken),
            decreases
                2 * stream@.tokens.len() + match state {
                    State::MulDivRemOperand => 2int,
                    State::MulDivRemOperator => 1int,
                    State::End => 0int,
                },
        {
            match state {
                State::MulDivRemOperand => {
                    let ghost before = stream@.tokens;
                    let rpn = match MulDivRemOperatorOperandParser::default().parse(stream) {
                        Ok(rpn) => rpn,
                        Err(e) => {
                            return Err(e);
                        },
                    };
                    proof {
                        assert(stream@.tokens == start.skip(taken + 1int)) by {
                            assert(before.skip(1) =~= start.skip(taken + 1int));
                        }
                        taken = taken + 1;
                    }
                    let ghost done = expression@;
                    let ghost pending = pending_view(operator);
                    let ghost operand = rpn@;
                    expression.append(rpn);
                    match operator.take() {
                        Some(pending) => {
                            expression.push_operator(pending);
                        },
                        None => {},
                    }
                    proof {
                        assert(expression@ =~= done + operand + pending);
                    }
                    state = State::MulDivRemOperator;
                },
                State::MulDivRemOperator => {
                    let next = match stream.peek() {
                        Some(Ok(token)) => match token.lexeme {
                            Lexeme::Symbol(Symbol::Asterisk) => Some(OperatorExpressionOperator::Multiplication),
                            Lexeme::Symbol(Symbol::Slash) => Some(OperatorExpressionOperator::Division),
                            Lexeme::Symbol(Symbol::Percent) => Some(OperatorExpressionOperator::Remainder),
                            _ => None,
                        },
                        _ => None,
                    };
                    match next {
                        Some(o) => {
                            let ghost before = stream@.tokens;
                            match stream.next() {
                                Some(Ok(token)) => {
                                    operator = Some((o, token));
                                },
                                _ => {},
                            }
                            proof {
                                assert(stream@.tokens == start.skip(taken + 1int)) by {
                                    assert(before.skip(1) =~= start.skip(taken + 1int));
                                }
                                taken = taken + 1;
                            }
                            state = State::MulDivRemOperand;
                        },
                        None => {
                            state = State::End;
                        },
                    }
                },
                State::End => {
                    return Ok(expression);
                },
            }
        }
    }
}

/// How many values a reverse Polish sequence leaves for the next operator:
/// an operand adds one, a binary operator takes two and gives one.
pub open spec fn depth(s: Seq<ElementView>) -> int
    decreases s.len(),
{
    if s.len() == 0 {
        0
    } else {
        depth(s.drop_last()) + match s.last().object {
            ObjectView::Operand(_) => 1int,
            ObjectView::Operator(_) => -1int,
        }
    }
}

/// Every operator of the sequence finds two values before it.
pub open spec fn operators_have_operands(s: Seq<ElementView>) -> bool {
    forall|i: int| 0 <= i < s.len() && s[i].object is Operator ==> depth(#[trigger] s.take(i)) >= 2
}

/// The sequence is one well-formed expression: it evaluates to one value.
pub open spec fn one_value(s: Seq<ElementView>) -> bool {
    operators_have_operands(s) && depth(s) == 1
}

proof fn lemma_push_element(s: Seq<ElementView>, x: ElementView)
    ensures
        depth(s.push(x)) == depth(s) + match x.object {
            ObjectView::Operand(_) => 1int,
            ObjectView::Operator(_) => -1int,
        },
        operators_have_operands(s.push(x)) <==> operators_have_operands(s) && (x.object is Operator ==> depth(s) >= 2),
{
    assert(s.push(x).drop_last() =~= s);
    assert(s.push(x).take(s.len() as int) =~= s);
    assert forall|i: int| 0 <= i < s.len() implies #[trigger] s.push(x).take(i) =~= s.take(i) by {}
    if operators_have_operands(s.push(x)) {
        assert forall|i: int| 0 <= i < s.len() && s[i].object is Operator implies depth(#[trigger] s.take(i)) >= 2 by {
            assert(s.push(x)[i] == s[i]);
            assert(s.push(x).take(i) =~= s.take(i));
        }
    }
}

proof fn lemma_chain_rest_one_value(tokens: Seq<TokenView>, error: Option<LexicalError>, done: Seq<ElementView>)
    requires
        one_value(done),
    ensures
        chain_rest(tokens, error, done).0 matches Ok(res) ==> one_value(res),
    decreases tokens.len(), 0nat,
{
    if tokens.len() > 0 && mul_div_rem_operator(tokens[0]) is Some {
        let operator = ElementView {
            object: ObjectView::Operator(mul_div_rem_operator(tokens[0]).unwrap()),
            token: tokens[0],
        };
        lemma_operand_then_rest_one_value(tokens.skip(1), error, done, seq![operator]);
    }
}

proof fn lemma_operand_then_rest_one_value(
    tokens: Seq<TokenView>,
    error: Option<LexicalError>,
    done: Seq<ElementView>,
    pending: Seq<ElementView>,
)
    requires
        operators_have_operands(done),
        (pending.len() == 0 && depth(done) == 0) || (pending.len() == 1 && pending[0].object is Operator
            && depth(done) == 1),
    ensures
        operand_then_rest(tokens, error, done, pending).0 matches Ok(res) ==> one_value(res),
    decreases tokens.len(), 1nat,
{
    let (r, n) = operand_step(tokens, error);
    if let Ok(operand) = r {
        let element = operand[0];
        assert(operand == seq![element]);
        lemma_push_element(done, element);
        assert(done + operand =~= done.push(element));
        let next = done + operand + pending;
        if pending.len() == 1 {
            lemma_push_element(done.push(element), pending[0]);
            assert(next =~= done.push(element).push(pending[0]));
        } else {
            assert(next =~= done.push(element));
        }
        lemma_chain_rest_one_value(tokens.skip(1), error, next);
    }
}

/// A chain that parses is one well-formed expression in reverse Polish
/// notation: every operator finds two values before it, and the whole
/// leaves exactly one value.
pub proof fn law_parse_yields_one_value(tokens: Seq<TokenView>, error: Option<LexicalError>)
    ensures
        spec_parse(tokens, error).0 matches Ok(res) ==> one_value(res),
{
    lemma_operand_then_rest_one_value(tokens, error, Seq::empty(), Seq::empty());
}

/// The `i`-th operand token of a chain that starts at the first token.
pub open spec fn operand_token(tokens: Seq<TokenView>, i: int) -> TokenView {
    tokens[2 * i]
}

/// The `i`-th operator token of a chain that starts at the first token,
/// counting from one.
pub open spec fn operator_token(tokens: Seq<TokenView>, i: int) -> TokenView {
    tokens[2 * i - 1]
}

/// `tokens` start with a chain of `count + 1` integer literals joined by
/// `count` operators among `*`, `/` and `%`, and no such operator follows.
pub open spec fn is_chain(tokens: Seq<TokenView>, count: nat) -> bool {
    &&& tokens.len() >= 2 * count + 1
    &&& forall|i: int| 0 <= i <= count ==> (#[trigger] operand_token(tokens, i)).lexeme is Integer
    &&& forall|i: int| 1 <= i <= count ==> mul_div_rem_operator(#[trigger] operator_token(tokens, i)) is Some
    &&& !(tokens.len() > 2 * count + 1 && mul_div_rem_operator(tokens[2 * count + 1int]) is Some)
}

/// The element of an integer literal operand token.
pub open spec fn operand_element(t: TokenView) -> ElementView {
    ElementView { object: ObjectView::Operand(t.lexeme->Integer_0), token: t }
}

/// The element of an operator token.
pub open spec fn operator_element(t: TokenView) -> ElementView {
    ElementView { object: ObjectView::Operator(mul_div_rem_operator(t).unwrap()), token: t }
}

/// The reverse Polish form of the first `count` operations of a chain: the
/// first operand, then each further operand followed by the operator before
/// it.
pub open spec fn chain_closed_form(tokens: Seq<TokenView>, count: nat) -> Seq<ElementView>
    decreases count,
{
    if count == 0 {
        seq![operand_element(operand_token(tokens, 0))]
    } else {
        chain_closed_form(tokens, (count - 1) as nat).push(operand_element(operand_token(tokens, count as int))).push(
            operator_element(operator_token(tokens, count as int)),
        )
    }
}

/// After the first `j` operations of a chain, the rest of the chain gives
/// the closed form of the whole and takes its remaining tokens.
proof fn lemma_chain_rest_closed_form(
    tokens: Seq<TokenView>,
    error: Option<LexicalError>,
    count: nat,
    j: nat,
)
    requires
        is_chain(tokens, count),
        j <= count,
    ensures
        chain_rest(tokens.skip(2 * j + 1int), error, chain_closed_form(tokens, j)) == (
            Ok::<Seq<ElementView>, Error>(chain_closed_form(tokens, count)),
            (2 * (count - j)) as nat,
        ),
    decreases count - j,
{
    let rest = tokens.skip(2 * j + 1int);
    if j < count {
        let op = operator_token(tokens, j + 1int);
        let x = operand_token(tokens, j + 1int);
        assert(rest[0] == op);
        assert(mul_div_rem_operator(op) is Some);
        let after_op = rest.skip(1);
        assert(after_op[0] == x);
        assert(x.lexeme is Integer);
        let operator = ElementView { object: ObjectView::Operator(mul_div_rem_operator(op).unwrap()), token: op };
        assert(operand_step(after_op, error) == (
            Ok::<Seq<ElementView>, Error>(seq![operand_element(x)]),
            1nat,
        ));
        lemma_chain_rest_closed_form(tokens, error, count, j + 1);
        assert(after_op.skip(1) =~= tokens.skip(2 * (j + 1) + 1int));
        assert(chain_closed_form(tokens, j) + seq![operand_element(x)] + seq![operator] =~= chain_closed_form(
            tokens,
            j + 1,
        ));
    } else {
        assert(rest.len() > 0 ==> rest[0] == tokens[2 * count + 1int]);
    }
}

/// A chain of `count + 1` integer literals joined by `count` of `*`, `/`
/// and `%`, followed by anything but another such operator, parses to its
/// closed reverse Polish form: the first operand, then each further operand
/// followed by the operator before it; the parser takes the `2 * count + 1`
/// tokens of the chain.
pub proof fn law_chain_closed_form(tokens: Seq<TokenView>, error: Option<LexicalError>, count: nat)
    requires
        is_chain(tokens, count),
    ensures
        spec_parse(tokens, error) == (
            Ok::<Seq<ElementView>, Error>(chain_closed_form(tokens, count)),
            2 * count + 1,
        ),
{
    let x = operand_token(tokens, 0);
    assert(tokens[0] == x);
    assert(x.lexeme is Integer);
    assert(operand_step(tokens, error) == (Ok::<Seq<ElementView>, Error>(seq![operand_element(x)]), 1nat));
    lemma_chain_rest_closed_form(tokens, error, count, 0);
    assert(Seq::<ElementView>::empty() + seq![operand_element(x)] + Seq::<ElementView>::empty() =~= chain_closed_form(
        tokens,
        0,
    ));
}

} // verus!
