use zinc::add_sub::Parser;
use zinc::error::Error;
use zinc::error::SyntaxError;
use zinc::expression::OperatorExpression;
use zinc::expression::OperatorExpressionElement;
use zinc::expression::OperatorExpressionObject;
use zinc::expression::OperatorExpressionOperand;
use zinc::expression::OperatorExpressionOperator;
use zinc::lexical::IntegerLiteral;
use zinc::lexical::Lexeme;
use zinc::lexical::LexicalError;
use zinc::lexical::Literal;
use zinc::lexical::Location;
use zinc::lexical::Symbol;
use zinc::lexical::Token;
use zinc::lexical::TokenStream;

fn literal(digits: &[u8], line: usize, column: usize) -> OperatorExpressionElement {
    OperatorExpressionElement::new(
        OperatorExpressionObject::Operand(OperatorExpressionOperand::Literal(Literal::Integer(
            IntegerLiteral::decimal(digits.to_vec()),
        ))),
        Token::new(
            Lexeme::Literal(Literal::Integer(IntegerLiteral::decimal(digits.to_vec()))),
            Location::new(line, column),
        ),
    )
}

fn operator(
    operator: OperatorExpressionOperator,
    symbol: Symbol,
    line: usize,
    column: usize,
) -> OperatorExpressionElement {
    OperatorExpressionElement::new(
        OperatorExpressionObject::Operator(operator),
        Token::new(Lexeme::Symbol(symbol), Location::new(line, column)),
    )
}

#[test]
fn ok() {
    let code = br#"42 * 228 "#;

    let expected = OperatorExpression::new(vec![
        OperatorExpressionElement::new(
            OperatorExpressionObject::Operand(OperatorExpressionOperand::Literal(
                Literal::Integer(IntegerLiteral::decimal(b"42".to_vec())),
            )),
            Token::new(
                Lexeme::Literal(Literal::Integer(IntegerLiteral::decimal(b"42".to_vec()))),
                Location::new(1, 1),
            ),
        ),
        OperatorExpressionElement::new(
            OperatorExpressionObject::Operand(OperatorExpressionOperand::Literal(
                Literal::Integer(IntegerLiteral::decimal(b"228".to_vec())),
            )),
            Token::new(
                Lexeme::Literal(Literal::Integer(IntegerLiteral::decimal(b"228".to_vec()))),
                Location::new(1, 6),
            ),
        ),
        OperatorExpressionElement::new(
            OperatorExpressionObject::Operator(OperatorExpressionOperator::Multiplication),
            Token::new(Lexeme::Symbol(Symbol::Asterisk), Location::new(1, 4)),
        ),
    ]);

    let result = Parser::default()
        .parse(&mut TokenStream::new(code.to_vec()))
        .expect("Syntax error");

    assert_eq!(expected, result);
}

#[test]
fn chain_groups_from_the_left() {
    let mut stream = TokenStream::new(b"1 / 2 % 3".to_vec());
    let result = Parser::default().parse(&mut stream).expect("Syntax error");
    let expected = OperatorExpression::new(vec![
        literal(b"1", 1, 1),
        literal(b"2", 1, 5),
        operator(OperatorExpressionOperator::Division, Symbol::Slash, 1, 3),
        literal(b"3", 1, 9),
        operator(OperatorExpressionOperator::Remainder, Symbol::Percent, 1, 7),
    ]);
    assert_eq!(expected, result);
    assert!(stream.next().is_none());
}

#[test]
fn single_operand() {
    let mut stream = TokenStream::new(b"7".to_vec());
    let result = Parser::default().parse(&mut stream).expect("Syntax error");
    assert_eq!(OperatorExpression::new(vec![literal(b"7", 1, 1)]), result);
}

#[test]
fn stops_before_an_operator_of_another_level() {
    let mut stream = TokenStream::new(b"6 * 7 + 8".to_vec());
    let result = Parser::default().parse(&mut stream).expect("Syntax error");
    let expected = OperatorExpression::new(vec![
        literal(b"6", 1, 1),
        literal(b"7", 1, 5),
        operator(OperatorExpressionOperator::Multiplication, Symbol::Asterisk, 1, 3),
    ]);
    assert_eq!(expected, result);
    match stream.next() {
        Some(Ok(token)) => assert_eq!(Token::new(Lexeme::Symbol(Symbol::Plus), Location::new(1, 7)), token),
        _ => panic!("the plus sign should be left"),
    }
}

#[test]
fn stops_before_a_lexical_error_after_an_operand() {
    let mut stream = TokenStream::new(b"5 # 6".to_vec());
    let result = Parser::default().parse(&mut stream).expect("Syntax error");
    assert_eq!(OperatorExpression::new(vec![literal(b"5", 1, 1)]), result);
}

#[test]
fn missing_operand_at_the_end() {
    let mut stream = TokenStream::new(b"4 *".to_vec());
    let result = Parser::default().parse(&mut stream);
    assert_eq!(Err(Error::Syntax(SyntaxError::UnexpectedEnd)), result);
}

#[test]
fn symbol_where_an_operand_is_expected() {
    let mut stream = TokenStream::new(b"4 * * 5".to_vec());
    let result = Parser::default().parse(&mut stream);
    assert_eq!(
        Err(Error::Syntax(SyntaxError::ExpectedOperand { location: Location::new(1, 5) })),
        result
    );
}

#[test]
fn lexical_error_where_an_operand_is_expected() {
    let mut stream = TokenStream::new(b"4 * $".to_vec());
    let result = Parser::default().parse(&mut stream);
    assert_eq!(
        Err(Error::Lexical(LexicalError::UnexpectedCharacter {
            location: Location::new(1, 5),
            character: b'$',
        })),
        result
    );
}

#[test]
fn empty_text() {
    let mut stream = TokenStream::new(Vec::new());
    let result = Parser::default().parse(&mut stream);
    assert_eq!(Err(Error::Syntax(SyntaxError::UnexpectedEnd)), result);
}
