use zinc::lexical::IntegerLiteral;
use zinc::lexical::Lexeme;
use zinc::lexical::LexicalError;
use zinc::lexical::Literal;
use zinc::lexical::Location;
use zinc::lexical::Symbol;
use zinc::lexical::Token;
use zinc::lexical::TokenStream;

fn integer(digits: &[u8], line: usize, column: usize) -> Token {
    Token::new(
        Lexeme::Literal(Literal::Integer(IntegerLiteral::decimal(digits.to_vec()))),
        Location::new(line, column),
    )
}

fn symbol(symbol: Symbol, line: usize, column: usize) -> Token {
    Token::new(Lexeme::Symbol(symbol), Location::new(line, column))
}

fn all(stream: &mut TokenStream) -> Vec<Result<Token, LexicalError>> {
    let mut tokens = Vec::new();
    loop {
        match stream.next() {
            Some(Ok(token)) => tokens.push(Ok(token)),
            Some(Err(error)) => {
                tokens.push(Err(error));
                return tokens;
            }
            None => return tokens,
        }
    }
}

#[test]
fn tokens_with_their_locations() {
    let mut stream = TokenStream::new(b"12+(3)\n  45 -\t6".to_vec());
    assert_eq!(
        vec![
            Ok(integer(b"12", 1, 1)),
            Ok(symbol(Symbol::Plus, 1, 3)),
            Ok(symbol(Symbol::ParenthesisLeft, 1, 4)),
            Ok(integer(b"3", 1, 5)),
            Ok(symbol(Symbol::ParenthesisRight, 1, 6)),
            Ok(integer(b"45", 2, 3)),
            Ok(symbol(Symbol::Minus, 2, 6)),
            Ok(integer(b"6", 2, 8)),
        ],
        all(&mut stream)
    );
}

#[test]
fn unexpected_character_ends_the_stream() {
    let mut stream = TokenStream::new(b"1 *\n x 2".to_vec());
    assert_eq!(
        vec![
            Ok(integer(b"1", 1, 1)),
            Ok(symbol(Symbol::Asterisk, 1, 3)),
            Err(LexicalError::UnexpectedCharacter { location: Location::new(2, 2), character: b'x' }),
        ],
        all(&mut stream)
    );
    match stream.next() {
        Some(Err(_)) => {}
        _ => panic!("the error stays at the end of the stream"),
    }
}

#[test]
fn peek_does_not_take() {
    let stream = TokenStream::new(b"9".to_vec());
    match stream.peek() {
        Some(Ok(token)) => assert_eq!(&integer(b"9", 1, 1), token),
        _ => panic!("a token was expected"),
    }
    match stream.peek() {
        Some(Ok(token)) => assert_eq!(&integer(b"9", 1, 1), token),
        _ => panic!("a token was expected"),
    }
}

#[test]
fn empty_and_blank_texts_have_no_tokens() {
    assert!(TokenStream::new(Vec::new()).peek().is_none());
    assert!(TokenStream::new(b" \t\r\n ".to_vec()).peek().is_none());
}

#[test]
fn literal_duplicate_keeps_the_digits() {
    let literal = IntegerLiteral::decimal(b"1234".to_vec());
    assert_eq!(literal, literal.duplicate());
}
