//! The lexer: from the bytes of an expression to its tokens.

use crate::literal::is_numeral;
use crate::literal::is_numeral_byte;
use crate::literal::numeral_byte;
use crate::literal::Literal;
use vstd::prelude::*;
use vstd::string::StringSliceAdditionalSpecFns;

verus! {

/// `-`
pub const DASH: u8 = 45;

/// `+`
pub const PLUS: u8 = 43;

/// `*`
pub const ASTERISK: u8 = 42;

/// `/`
pub const SLASH: u8 = 47;

/// `^`
pub const CARET: u8 = 94;

/// `(`
pub const OPEN_PARENTHESIS: u8 = 40;

/// `)`
pub const CLOSE_PARENTHESIS: u8 = 41;

/// A lexical unit: a constant, an operator or a parenthesis.
#[derive(Debug, PartialEq, Eq)]
pub enum Token<T> {
    Constant(T),
    Dash,
    Plus,
    Asterisk,
    Slash,
    Caret,
    OpenParenthesis,
    CloseParenthesis,
}

/// The tokens that the lexer produces hold numerals.
pub type Symbol = Token<Literal>;

/// Why a text is not a sequence of tokens.
#[derive(Debug, Clone, Copy, PartialEq, Eq, Structural)]
pub enum SymbolicError {
    /// A run of digits and points that is no numeral.
    InvalidConst,
    /// A byte that is neither part of a numeral, nor an operator, nor a
    /// parenthesis.
    UnknownSymbol,
}

impl<T: View> View for Token<T> {
    type V = Token<T::V>;

    open spec fn view(&self) -> Token<T::V> {
        match *self {
            Token::Constant(value) => Token::Constant(value@),
            Token::Dash => Token::Dash,
            Token::Plus => Token::Plus,
            Token::Asterisk => Token::Asterisk,
            Token::Slash => Token::Slash,
            Token::Caret => Token::Caret,
            Token::OpenParenthesis => Token::OpenParenthesis,
            Token::CloseParenthesis => Token::CloseParenthesis,
        }
    }
}

/// The views of a sequence of tokens, one by one.
pub open spec fn views<T: View>(tokens: Seq<Token<T>>) -> Seq<Token<T::V>> {
    tokens.map_values(|token: Token<T>| token@)
}

/// The operator or parenthesis that `byte` writes, if any.
pub open spec fn punctuation(byte: u8) -> Option<Token<Seq<u8>>> {
    if byte == DASH {
        Some(Token::Dash)
    } else if byte == PLUS {
        Some(Token::Plus)
    } else if byte == ASTERISK {
        Some(Token::Asterisk)
    } else if byte == SLASH {
        Some(Token::Slash)
    } else if byte == CARET {
        Some(Token::Caret)
    } else if byte == OPEN_PARENTHESIS {
        Some(Token::OpenParenthesis)
    } else if byte == CLOSE_PARENTHESIS {
        Some(Token::CloseParenthesis)
    } else {
        None
    }
}

/// Where the longest run of digits and points that begins at `start` ends.
pub open spec fn numeral_end(input: Seq<u8>, start: int) -> int
    decreases input.len() - start,
{
    if 0 <= start < input.len() && is_numeral_byte(input[start]) {
        numeral_end(input, start + 1)
    } else {
        start
    }
}

/// The token that begins at `position`, with the position behind it; the
/// error that is found there; or `None` at the end of the input.
///
/// A run of digits and points is taken whole. Where it is no numeral the
/// error names the byte that ends the run, or the last byte of the input
/// where the run ends with it.
pub open spec fn token_at(input: Seq<u8>, position: int) -> Option<
    Result<(Token<Seq<u8>>, int), (SymbolicError, int)>,
> {
    if position < 0 || position >= input.len() {
        None
    } else if is_numeral_byte(input[position]) {
        let end = numeral_end(input, position);
        let text = input.subrange(position, end);
        if is_numeral(text) {
            Some(Ok((Token::Constant(text), end)))
        } else if end < input.len() {
            Some(Err((SymbolicError::InvalidConst, end)))
        } else {
            Some(Err((SymbolicError::InvalidConst, input.len() - 1)))
        }
    } else {
        match punctuation(input[position]) {
            Some(token) => Some(Ok((token, position + 1))),
            None => Some(Err((SymbolicError::UnknownSymbol, position))),
        }
    }
}

/// The tokens of `input` from `position` on, or the first error.
pub open spec fn tokens_from(input: Seq<u8>, position: int) -> Result<
    Seq<Token<Seq<u8>>>,
    (SymbolicError, int),
>
    decreases input.len() - position,
{
    match token_at(input, position) {
        None => Ok(Seq::empty()),
        Some(Err(error)) => Err(error),
        Some(Ok((token, next))) => {
            proof {
                lemma_token_at(input, position);
            }
            match tokens_from(input, next) {
                Ok(rest) => Ok(seq![token] + rest),
                Err(error) => Err(error),
            }
        },
    }
}

/// The tokens of `input`, or the first error with the index of its byte.
pub open spec fn tokens_of(input: Seq<u8>) -> Result<Seq<Token<Seq<u8>>>, (SymbolicError, int)> {
    tokens_from(input, 0)
}

/// `result` is what lexing `input` gives: its tokens, or its first error
/// with the index of the byte where it was found.
pub open spec fn is_lexed(input: Seq<u8>, result: Result<Vec<Symbol>, (SymbolicError, usize)>) -> bool {
    match tokens_of(input) {
        Ok(tokens) => result matches Ok(symbols) && views(symbols@) == tokens,
        Err((error, index)) => result matches Err((kind, at)) && kind == error && at == index,
    }
}

/// `byte` is part of no token.
pub open spec fn is_unknown(byte: u8) -> bool {
    !is_numeral_byte(byte) && punctuation(byte) is None
}

/// A run ends behind its start, within the input, at a byte that is
/// neither digit nor point, and holds digits and points only.
pub proof fn lemma_numeral_end(input: Seq<u8>, start: int)
    requires
        0 <= start < input.len(),
        is_numeral_byte(input[start]),
    ensures
        start < numeral_end(input, start) <= input.len(),
        numeral_end(input, start) < input.len() ==> !is_numeral_byte(
            input[numeral_end(input, start)],
        ),
        forall|k: int| start <= k < numeral_end(input, start) ==> is_numeral_byte(#[trigger] input[k]),
    decreases input.len() - start,
{
    if start + 1 < input.len() && is_numeral_byte(input[start + 1]) {
        lemma_numeral_end(input, start + 1);
    } else {
        assert(numeral_end(input, start + 1) == start + 1);
    }
}

/// A token ends behind its start and within the input; an error names a
/// byte of the input.
pub proof fn lemma_token_at(input: Seq<u8>, position: int)
    ensures
        match token_at(input, position) {
            None => true,
            Some(Ok((_, next))) => position < next <= input.len(),
            Some(Err((_, index))) => position <= index < input.len(),
        },
{
    if 0 <= position < input.len() && is_numeral_byte(input[position]) {
        lemma_numeral_end(input, position);
    }
}

/// Lexing the same bytes again gives the same: the same error, or tokens
/// with the same views.
pub proof fn lemma_lexing_repeats(
    input: Seq<u8>,
    first: Result<Vec<Symbol>, (SymbolicError, usize)>,
    second: Result<Vec<Symbol>, (SymbolicError, usize)>,
)
    requires
        is_lexed(input, first),
        is_lexed(input, second),
    ensures
        match (first, second) {
            (Ok(one), Ok(other)) => views(one@) == views(other@),
            (Err(one), Err(other)) => one == other,
            _ => false,
        },
{
}

/// The longest run from `start` is the same in any input that agrees up to
/// a byte behind `start` that is neither digit nor point.
proof fn lemma_numeral_end_agrees(input: Seq<u8>, other: Seq<u8>, start: int, stop: int)
    requires
        0 <= start <= stop < input.len(),
        stop <= other.len(),
        forall|k: int| start <= k < stop ==> input[k] == other[k],
        !is_numeral_byte(input[stop]),
        stop < other.len() ==> !is_numeral_byte(other[stop]),
    ensures
        numeral_end(input, start) == numeral_end(other, start),
        numeral_end(input, start) <= stop,
    decreases stop - start,
{
    if start < stop && is_numeral_byte(input[start]) {
        lemma_numeral_end_agrees(input, other, start + 1, stop);
    }
}

proof fn lemma_unknown_from(input: Seq<u8>, index: int, position: int)
    requires
        0 <= position <= index < input.len(),
        is_unknown(input[index]),
        tokens_from(input.subrange(0, index), position) is Ok,
    ensures
        tokens_from(input, position) == Err::<Seq<Token<Seq<u8>>>, _>(
            (SymbolicError::UnknownSymbol, index),
        ),
    decreases index - position,
{
    let before = input.subrange(0, index);
    if position < index {
        assert(before[position] == input[position]);
        lemma_token_at(before, position);
        if is_numeral_byte(input[position]) {
            lemma_numeral_end_agrees(input, before, position, index);
            let end = numeral_end(input, position);
            assert(before.subrange(position, end) == input.subrange(position, end));
        }
        if let Some(Ok((_, next))) = token_at(before, position) {
            lemma_unknown_from(input, index, next);
        }
    }
}

/// Where the bytes before an unknown one are tokens, the unknown byte is
/// the error, with its index.
pub proof fn lemma_unknown_symbol(input: Seq<u8>, index: int)
    requires
        0 <= index < input.len(),
        is_unknown(input[index]),
        tokens_of(input.subrange(0, index)) is Ok,
    ensures
        tokens_of(input) == Err::<Seq<Token<Seq<u8>>>, _>((SymbolicError::UnknownSymbol, index)),
{
    lemma_unknown_from(input, index, 0);
}

/// The bytes that write `token`.
pub open spec fn text_of(token: Token<Seq<u8>>) -> Seq<u8> {
    match token {
        Token::Constant(text) => text,
        Token::Dash => seq![DASH],
        Token::Plus => seq![PLUS],
        Token::Asterisk => seq![ASTERISK],
        Token::Slash => seq![SLASH],
        Token::Caret => seq![CARET],
        Token::OpenParenthesis => seq![OPEN_PARENTHESIS],
        Token::CloseParenthesis => seq![CLOSE_PARENTHESIS],
    }
}

/// The bytes that write `tokens`, one behind the other.
pub open spec fn text_of_all(tokens: Seq<Token<Seq<u8>>>) -> Seq<u8>
    decreases tokens.len(),
{
    if tokens.len() == 0 {
        Seq::empty()
    } else {
        text_of(tokens[0]) + text_of_all(tokens.drop_first())
    }
}

proof fn lemma_nothing_is_dropped_from(input: Seq<u8>, position: int)
    requires
        0 <= position <= input.len(),
    ensures
        tokens_from(input, position) matches Ok(tokens) ==> {
            &&& text_of_all(tokens) == input.subrange(position, input.len() as int)
            &&& forall|k: int|
                0 <= k < tokens.len() ==> (#[trigger] tokens[k] matches Token::Constant(text)
                    ==> is_numeral(text))
        },
    decreases input.len() - position,
{
    lemma_token_at(input, position);
    if let Some(Ok((token, next))) = token_at(input, position) {
        lemma_nothing_is_dropped_from(input, next);
        if let Ok(rest) = tokens_from(input, next) {
            let tokens = seq![token] + rest;
            assert(tokens.drop_first() == rest);
            assert(text_of(token) == input.subrange(position, next));
            assert(input.subrange(position, next) + input.subrange(next, input.len() as int)
                == input.subrange(position, input.len() as int));
        }
    } else if token_at(input, position) is None {
        assert(input.subrange(position, input.len() as int) == Seq::<u8>::empty());
    }
}

/// Lexing drops nothing: the tokens of an input, written one behind the
/// other, are the input, and each constant among them is a numeral.
pub proof fn lemma_nothing_is_dropped(input: Seq<u8>)
    ensures
        tokens_of(input) matches Ok(tokens) ==> {
            &&& text_of_all(tokens) == input
            &&& forall|k: int|
                0 <= k < tokens.len() ==> (#[trigger] tokens[k] matches Token::Constant(text)
                    ==> is_numeral(text))
        },
{
    lemma_nothing_is_dropped_from(input, 0);
    assert(input.subrange(0, input.len() as int) == input);
}

/// A cursor over the bytes of an expression that hands out its tokens one
/// by one. A copy of it reads on from where it was taken.
#[derive(Clone, Copy)]
pub struct Lexer<'a> {
    input: &'a [u8],
    position: usize,
}

impl<'a> Lexer<'a> {
    #[verifier::type_invariant]
    spec fn well_formed(self) -> bool {
        self.position <= self.input@.len()
    }

    /// The bytes that are read.
    pub closed spec fn input(&self) -> Seq<u8> {
        self.input@
    }

    /// The index of the next byte to read.
    pub closed spec fn position(&self) -> int {
        self.position as int
    }

    /// The next token, the error that stands in its place, or `None` at the
    /// end. The cursor moves behind a token and stays before an error.
    pub fn next(&mut self) -> (r: Option<Result<Symbol, (SymbolicError, usize)>>)
        ensures
            final(self).input() == old(self).input(),
            match token_at(old(self).input(), old(self).position()) {
                None => r is None && final(self).position() == old(self).position(),
                Some(Ok((token, next))) => r matches Some(Ok(symbol)) && symbol@ == token
                    && final(self).position() == next,
                Some(Err((error, index))) => r matches Some(Err((kind, at))) && kind == error
                    && at == index && final(self).position() == old(self).position(),
            },
    {
        proof {
            use_type_invariant(&*self);
        }
        if self.position >= self.input.len() {
            return None;
        }
        let byte = self.input[self.position];
        if numeral_byte(byte) {
            let start = self.position;
            let mut end = start + 1;
            while end < self.input.len() && numeral_byte(self.input[end])
                invariant
                    start < end <= self.input@.len(),
                    is_numeral_byte(self.input@[start as int]),
                    numeral_end(self.input@, start as int) == numeral_end(self.input@, end as int),
                decreases self.input@.len() - end,
            {
                end += 1;
            }
            match Literal::from_bytes(self.input, start, end) {
                Some(literal) => {
                    self.position = end;
                    Some(Ok(Token::Constant(literal)))
                },
                None => if end < self.input.len() {
                    Some(Err((SymbolicError::InvalidConst, end)))
                } else {
                    Some(Err((SymbolicError::InvalidConst, self.input.len() - 1)))
                },
            }
        } else {
            let token = if byte == DASH {
                Token::Dash
            } else if byte == PLUS {
                Token::Plus
            } else if byte == ASTERISK {
                Token::Asterisk
            } else if byte == SLASH {
                Token::Slash
            } else if byte == CARET {
                Token::Caret
            } else if byte == OPEN_PARENTHESIS {
                Token::OpenParenthesis
            } else if byte == CLOSE_PARENTHESIS {
                Token::CloseParenthesis
            } else {
                return Some(Err((SymbolicError::UnknownSymbol, self.position)));
            };
            self.position = self.position + 1;
            Some(Ok(token))
        }
    }

    /// All the tokens from the cursor on, or the first error.
    pub fn collect(self) -> (r: Result<Vec<Symbol>, (SymbolicError, usize)>)
        ensures
            match tokens_from(self.input(), self.position()) {
                Ok(tokens) => r matches Ok(symbols) && views(symbols@) == tokens,
                Err((error, index)) => r matches Err((kind, at)) && kind == error && at == index,
            },
    {
        let mut lexer = self;
        let mut symbols: Vec<Symbol> = Vec::new();
        loop
            invariant
                lexer.input() == self.input(),
                match tokens_from(lexer.input(), lexer.position()) {
                    Ok(rest) => tokens_from(self.input(), self.position()) == Ok::<
                        _,
                        (SymbolicError, int),
                    >(views(symbols@) + rest),
                    Err(error) => tokens_from(self.input(), self.position()) == Err::<
                        Seq<Token<Seq<u8>>>,
                        _,
                    >(error),
                },
            decreases lexer.input().len() - lexer.position(),
        {
            proof {
                use_type_invariant(&lexer);
                lemma_token_at(lexer.input(), lexer.position());
            }
            match lexer.next() {
                None => {
                    assert(views(symbols@) + Seq::empty() == views(symbols@));
                    return Ok(symbols);
                },
                Some(Err(error)) => {
                    return Err(error);
                },
                Some(Ok(symbol)) => {
                    let ghost earlier = symbols@;
                    symbols.push(symbol);
                    proof {
                        let rest = tokens_from(lexer.input(), lexer.position());
                        assert(views(symbols@) == views(earlier) + seq![symbol@]);
                        if let Ok(tail) = rest {
                            assert(views(earlier) + (seq![symbol@] + tail) == views(symbols@)
                                + tail);
                        }
                    }
                },
            }
        }
    }
}

/// The tokens of `expression`, handed out one by one from its first byte.
pub fn tokenize(expression: &str) -> (r: Lexer<'_>)
    ensures
        r.input() == expression.spec_bytes(),
        r.position() == 0,
{
    Lexer { input: expression.as_bytes(), position: 0 }
}

impl Symbol {
    /// The tokens of `expression`, or the first error with the index of the
    /// byte where it was found.
    pub fn from_str(expression: &str) -> (r: Result<Vec<Symbol>, (SymbolicError, usize)>)
        ensures
            is_lexed(expression.spec_bytes(), r),
    {
        tokenize(expression).collect()
    }
}

} // verus!
