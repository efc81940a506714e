//! The lexical layer: source locations, lexemes, tokens and the token stream.

use vstd::prelude::*;

verus! {

/// A position in source text: line and column, both counted from one.
#[derive(Debug, Clone, Copy, PartialEq, Eq)]
pub struct Location {
    pub line: usize,
    pub column: usize,
}

impl Location {
    pub fn new(line: usize, column: usize) -> (r: Location)
        ensures
            r.line == line,
            r.column == column,
    {
        Location { line, column }
    }
}

/// The punctuation symbols of the language.
#[derive(Debug, Clone, Copy, PartialEq, Eq)]
pub enum Symbol {
    Plus,
    Minus,
    Asterisk,
    Slash,
    Percent,
    ParenthesisLeft,
    ParenthesisRight,
}

/// An integer literal, holding the digits as they were written.
#[derive(Debug, Clone, PartialEq, Eq)]
pub enum IntegerLiteral {
    Decimal { value: Vec<u8> },
}

impl IntegerLiteral {
    pub fn decimal(value: Vec<u8>) -> (r: IntegerLiteral)
        ensures
            r == (IntegerLiteral::Decimal { value }),
    {
        IntegerLiteral::Decimal { value }
    }

    pub open spec fn digits(&self) -> Seq<u8> {
        match self {
            IntegerLiteral::Decimal { value } => value@,
        }
    }

    /// A literal with the same digits.
    pub fn duplicate(&self) -> (r: IntegerLiteral)
        ensures
            r.digits() == self.digits(),
    {
        match self {
            IntegerLiteral::Decimal { value } => IntegerLiteral::Decimal { value: copy_digits(value, 0, value.len()) },
        }
    }
}

#[derive(Debug, Clone, PartialEq, Eq)]
pub enum Literal {
    Integer(IntegerLiteral),
}

#[derive(Debug, Clone, PartialEq, Eq)]
pub enum Lexeme {
    Literal(Literal),
    Symbol(Symbol),
}

#[derive(Debug, Clone, PartialEq, Eq)]
pub struct Token {
    pub lexeme: Lexeme,
    pub location: Location,
}

/// The mathematical content of a lexeme: digits as a sequence of bytes.
pub enum LexemeView {
    Integer(Seq<u8>),
    Symbol(Symbol),
}

pub struct TokenView {
    pub lexeme: LexemeView,
    pub location: Location,
}

impl View for Lexeme {
    type V = LexemeView;

    open spec fn view(&self) -> LexemeView {
        match self {
            Lexeme::Literal(Literal::Integer(i)) => LexemeView::Integer(i.digits()),
            Lexeme::Symbol(s) => LexemeView::Symbol(*s),
        }
    }
}

impl View for Token {
    type V = TokenView;

    open spec fn view(&self) -> TokenView {
        TokenView { lexeme: self.lexeme@, location: self.location }
    }
}

impl Token {
    pub fn new(lexeme: Lexeme, location: Location) -> (r: Token)
        ensures
            r.lexeme == lexeme,
            r.location == location,
    {
        Token { lexeme, location }
    }
}

#[derive(Debug, Clone, Copy, PartialEq, Eq)]
pub enum LexicalError {
    UnexpectedCharacter { location: Location, character: u8 },
}

pub open spec fn is_digit(c: u8) -> bool {
    48 <= c <= 57
}

/// Blanks other than the line feed: space, horizontal tab, carriage return.
pub open spec fn is_blank(c: u8) -> bool {
    c == 32 || c == 9 || c == 13
}

pub open spec fn is_line_feed(c: u8) -> bool {
    c == 10
}

pub open spec fn symbol_of(c: u8) -> Option<Symbol> {
    if c == 43 {
        Some(Symbol::Plus)
    } else if c == 45 {
        Some(Symbol::Minus)
    } else if c == 42 {
        Some(Symbol::Asterisk)
    } else if c == 47 {
        Some(Symbol::Slash)
    } else if c == 37 {
        Some(Symbol::Percent)
    } else if c == 40 {
        Some(Symbol::ParenthesisLeft)
    } else if c == 41 {
        Some(Symbol::ParenthesisRight)
    } else {
        None
    }
}

/// The end of the run of digits that starts at `i`.
pub open spec fn digits_end(input: Seq<u8>, i: nat) -> nat
    decreases input.len() - i,
{
    if i < input.len() && is_digit(input[i as int]) {
        digits_end(input, i + 1)
    } else {
        i
    }
}

pub proof fn lemma_digits_end(input: Seq<u8>, i: nat)
    ensures
        i <= digits_end(input, i),
        i <= input.len() ==> digits_end(input, i) <= input.len(),
        i < input.len() && is_digit(input[i as int]) ==> i < digits_end(input, i),
        forall|k: int| i <= k < digits_end(input, i) ==> is_digit(#[trigger] input[k]),
        digits_end(input, i) < input.len() ==> !is_digit(input[digits_end(input, i) as int]),
    decreases input.len() - i,
{
    if i < input.len() && is_digit(input[i as int]) {
        lemma_digits_end(input, i + 1);
    }
}

pub open spec fn location_at(line: nat, column: nat) -> Location {
    Location { line: line as usize, column: column as usize }
}

/// The tokens of `input` from byte `i` on, where byte `i` stands at `line` and
/// `column`, and the lexical error that ends them, if there is one. Blanks
/// separate tokens and a line feed starts a new line; an integer literal is
/// the longest run of decimal digits.
pub open spec fn lex_from(input: Seq<u8>, i: nat, line: nat, column: nat) -> (Seq<TokenView>, Option<LexicalError>)
    decreases input.len() - i,
{
    if i >= input.len() {
        (Seq::empty(), None)
    } else {
        let c = input[i as int];
        if is_line_feed(c) {
            lex_from(input, i + 1, line + 1, 1)
        } else if is_blank(c) {
            lex_from(input, i + 1, line, column + 1)
        } else if is_digit(c) {
            let j = digits_end(input, i);
            proof {
                lemma_digits_end(input, i);
            }
            let token = TokenView {
                lexeme: LexemeView::Integer(input.subrange(i as int, j as int)),
                location: location_at(line, column),
            };
            let rest = lex_from(input, j, line, (column + (j - i)) as nat);
            (seq![token] + rest.0, rest.1)
        } else if symbol_of(c) is Some {
            let token = TokenView {
                lexeme: LexemeView::Symbol(symbol_of(c).unwrap()),
                location: location_at(line, column),
            };
            let rest = lex_from(input, i + 1, line, column + 1);
            (seq![token] + rest.0, rest.1)
        } else {
            (
                Seq::empty(),
                Some(LexicalError::UnexpectedCharacter { location: location_at(line, column), character: c }),
            )
        }
    }
}

/// The tokens of a whole source text, which starts at line one, column one.
pub open spec fn lex(input: Seq<u8>) -> (Seq<TokenView>, Option<LexicalError>) {
    lex_from(input, 0, 1, 1)
}

pub open spec fn views(tokens: Seq<Token>) -> Seq<TokenView> {
    tokens.map_values(|t: Token| t@)
}

/// A stream of the tokens of a source text. The view is the tokens not yet
/// taken, in order, and the lexical error that follows them, if any.
pub struct TokenStream {
    /// The tokens not yet taken, last one first.
    pending: Vec<Token>,
    error: Option<LexicalError>,
}

pub struct TokenStreamView {
    pub tokens: Seq<TokenView>,
    pub error: Option<LexicalError>,
}

impl View for TokenStream {
    type V = TokenStreamView;

    closed spec fn view(&self) -> TokenStreamView {
        TokenStreamView { tokens: views(self.pending@.reverse()), error: self.error }
    }
}

fn copy_digits(input: &Vec<u8>, start: usize, end: usize) -> (r: Vec<u8>)
    requires
        start <= end <= input.len(),
    ensures
        r@ == input@.subrange(start as int, end as int),
{
    let mut r: Vec<u8> = Vec::new();
    let mut k = start;
    while k < end
        invariant
            start <= k <= end <= input.len(),
            r@ == input@.subrange(start as int, k as int),
        decreases end - k,
    {
        r.push(input[k]);
        k = k + 1;
    }
    r
}

impl TokenStream {
    /// Splits `input` into tokens.
    pub fn new(input: Vec<u8>) -> (s: TokenStream)
        requires
            input.len() < usize::MAX,
        ensures
            s@.tokens == lex(input@).0,
            s@.error == lex(input@).1,
    {
        let n = input.len();
        let mut tokens: Vec<Token> = Vec::new();
        let mut error: Option<LexicalError> = None;
        let mut i: usize = 0;
        let mut line: usize = 1;
        let mut column: usize = 1;
        while i < n
            invariant_except_break
                error is None,
                lex(input@) == (views(tokens@) + lex_from(input@, i as nat, line as nat, column as nat).0,
                    lex_from(input@, i as nat, line as nat, column as nat).1),
            invariant
                n == input.len(),
                n < usize::MAX,
                i <= n,
                1 <= line <= i + 1,
                1 <= column <= i + 1,
            ensures
                lex(input@) == (views(tokens@), error),
            decreases n - i,
        {
            let c = input[i];
            let ghost rest = lex_from(input@, i as nat, line as nat, column as nat);
            if c == 10 {
                i = i + 1;
                line = line + 1;
                column = 1;
            } else if c == 32 || c == 9 || c == 13 {
                i = i + 1;
                column = column + 1;
            } else if 48 <= c && c <= 57 {
                proof {
                    lemma_digits_end(input@, i as nat);
                }
                let mut j = i + 1;
                while j < n && 48 <= input[j] && input[j] <= 57
                    invariant
                        n == input.len(),
                        i < j <= n,
                        digits_end(input@, i as nat) == digits_end(input@, j as nat),
                    decreases n - j,
                {
                    j = j + 1;
                }
                let value = copy_digits(&input, i, j);
                let token = Token {
                    lexeme: Lexeme::Literal(Literal::Integer(IntegerLiteral::Decimal { value })),
                    location: Location { line, column },
                };
                let ghost before = views(tokens@);
                tokens.push(token);
                proof {
                    assert(views(tokens@) == before + seq![token@]);
                }
                column = column + (j - i);
                i = j;
            } else {
                let symbol = if c == 43 {
                    Some(Symbol::Plus)
                } else if c == 45 {
                    Some(Symbol::Minus)
                } else if c == 42 {
                    Some(Symbol::Asterisk)
                } else if c == 47 {
                    Some(Symbol::Slash)
                } else if c == 37 {
                    Some(Symbol::Percent)
                } else if c == 40 {
                    Some(Symbol::ParenthesisLeft)
                } else if c == 41 {
                    Some(Symbol::ParenthesisRight)
                } else {
                    None
                };
                match symbol {
                    Some(s) => {
                        let token = Token { lexeme: Lexeme::Symbol(s), location: Location { line, column } };
                        let ghost before = views(tokens@);
                        tokens.push(token);
                        proof {
                            assert(views(tokens@) == before + seq![token@]);
                        }
                        i = i + 1;
                        column = column + 1;
                    },
                    None => {
                        error = Some(
                            LexicalError::UnexpectedCharacter { location: Location { line, column }, character: c },
                        );
                        proof {
                            assert(lex(input@).0 == views(tokens@) + rest.0);
                            assert(rest.0 == Seq::<TokenView>::empty());
                            assert(views(tokens@) + Seq::<TokenView>::empty() == views(tokens@));
                        }
                        break;
                    },
                }
            }
        }
        let ghost forward = tokens@;
        let mut pending: Vec<Token> = Vec::new();
        while tokens.len() > 0
            invariant
                tokens@ == forward.take(forward.len() - pending.len()),
                pending.len() <= forward.len(),
                pending@.reverse() == forward.skip(forward.len() - pending.len()),
            decreases tokens.len(),
        {
            let ghost k = tokens.len();
            let t = tokens.pop().unwrap();
            pending.push(t);
            proof {
                assert(pending@.reverse() == seq![t] + forward.skip(k as int));
                assert(forward.skip(k - 1) == seq![forward[k - 1]] + forward.skip(k as int));
                assert(tokens@ == forward.take(k - 1));
            }
        }
        proof {
            assert(pending@.reverse() == forward);
        }
        TokenStream { pending, error }
    }

    /// The next token without taking it, or the lexical error that ends the
    /// stream, or `None` at its end.
    pub fn peek(&self) -> (r: Option<Result<&Token, LexicalError>>)
        ensures
            self@.tokens.len() > 0 ==> (r matches Some(Ok(t)) && t@ == self@.tokens[0]),
            self@.tokens.len() == 0 ==> (match self@.error {
                Some(e) => r == Some(Err::<&Token, LexicalError>(e)),
                None => r is None,
            }),
    {
        let n = self.pending.len();
        if n > 0 {
            Some(Ok(&self.pending[n - 1]))
        } else {
            match self.error {
                Some(e) => Some(Err(e)),
                None => None,
            }
        }
    }

    /// Takes the next token; at the end it gives the lexical error that ends
    /// the stream, or `None`, and takes nothing.
    pub fn next(&mut self) -> (r: Option<Result<Token, LexicalError>>)
        ensures
            old(self)@.tokens.len() > 0 ==> {
                &&& r matches Some(Ok(t)) && t@ == old(self)@.tokens[0]
                &&& final(self)@.tokens == old(self)@.tokens.skip(1)
            },
            old(self)@.tokens.len() == 0 ==> {
                &&& final(self)@.tokens == old(self)@.tokens
                &&& match old(self)@.error {
                    Some(e) => r == Some(Err::<Token, LexicalError>(e)),
                    None => r is None,
                }
            },
            final(self)@.error == old(self)@.error,
    {
        match self.pending.pop() {
            Some(t) => {
                proof {
                    assert(old(self).pending@.reverse() == seq![t] + self.pending@.reverse());
                }
                Some(Ok(t))
            },
            None => match self.error {
                Some(e) => Some(Err(e)),
                None => None,
            },
        }
    }
}

} // verus!
