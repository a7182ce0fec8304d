use pemdas::tokenize;
use pemdas::Literal;
use pemdas::Symbol;
use pemdas::SymbolicError;
use pemdas::Token;
use pemdas::Token::Asterisk;
use pemdas::Token::Caret;
use pemdas::Token::CloseParenthesis;
use pemdas::Token::Dash;
use pemdas::Token::OpenParenthesis;
use pemdas::Token::Plus;
use pemdas::Token::Slash;

fn constant(text: &str) -> Symbol {
    Token::Constant(Literal::new(text).unwrap())
}

#[test]
fn tokenizer() {
    assert_eq!(Ok(Vec::<Symbol>::new()), tokenize("").collect());
    assert_eq!(Ok(vec![constant("2"), Plus, constant("2")]), tokenize("2+2").collect());
    assert_eq!(
        Ok(vec![constant("2"), Plus, Plus, constant("2")]),
        tokenize("2++2").collect()
    );
    assert_eq!(
        Ok(vec![Asterisk, constant("2"), Dash, Slash, constant("2"), Caret]),
        tokenize("*2-/2^").collect()
    );
}

#[test]
fn parser() {
    assert_eq!(
        Symbol::from_str("2+3").unwrap(),
        vec![constant("2"), Plus, constant("3")]
    );
    assert_eq!(
        Symbol::from_str("(-0)").unwrap(),
        vec![OpenParenthesis, Dash, constant("0"), CloseParenthesis]
    );
    assert_eq!(
        Symbol::from_str("(69.5^0.3)").unwrap(),
        vec![OpenParenthesis, constant("69.5"), Caret, constant("0.3"), CloseParenthesis]
    );
    assert_eq!(
        Symbol::from_str("9*(69.5/0.3)").unwrap(),
        vec![
            constant("9"),
            Asterisk,
            OpenParenthesis,
            constant("69.5"),
            Slash,
            constant("0.3"),
            CloseParenthesis
        ]
    );
}

#[test]
fn constants_keep_their_text() {
    let symbols = Symbol::from_str("(69.5^0.3)").unwrap();
    match &symbols[1] {
        Token::Constant(literal) => {
            assert_eq!(literal.as_bytes(), "69.5".as_bytes());
            let number: f32 = std::str::from_utf8(literal.as_bytes()).unwrap().parse().unwrap();
            assert_eq!(number, 69.5f32);
        }
        other => panic!("{:?} is no constant", other),
    }
}

#[test]
fn every_operator_and_parenthesis_is_a_token() {
    assert_eq!(
        Symbol::from_str("-+*/^()").unwrap(),
        vec![
            Token::Dash,
            Token::Plus,
            Token::Asterisk,
            Token::Slash,
            Token::Caret,
            Token::OpenParenthesis,
            Token::CloseParenthesis
        ]
    );
}

#[test]
fn numerals_are_digits_with_at_most_one_point() {
    assert!(Literal::new("5").is_some());
    assert!(Literal::new("5.").is_some());
    assert!(Literal::new(".5").is_some());
    assert!(Literal::new("0.5").is_some());
    assert!(Literal::new("007").is_some());
    assert!(Literal::new("").is_none());
    assert!(Literal::new(".").is_none());
    assert!(Literal::new("..").is_none());
    assert!(Literal::new("1.2.3").is_none());
    assert!(Literal::new("1..").is_none());
    assert!(Literal::new("12a").is_none());
    assert!(Literal::new("-1").is_none());
    assert!(Literal::new("1e5").is_none());
}

#[test]
fn literal_from_part_of_a_text() {
    let text = "12+3.5)".as_bytes();
    assert_eq!(Literal::from_bytes(text, 0, 2), Literal::new("12"));
    assert_eq!(Literal::from_bytes(text, 3, 6), Literal::new("3.5"));
    assert_eq!(Literal::from_bytes(text, 0, 3), None);
    assert_eq!(Literal::from_bytes(text, 2, 2), None);
}

#[test]
fn unknown_symbol_is_reported_where_it_stands() {
    assert_eq!(Symbol::from_str("2&3"), Err((SymbolicError::UnknownSymbol, 1)));
    assert_eq!(Symbol::from_str("&"), Err((SymbolicError::UnknownSymbol, 0)));
    assert_eq!(Symbol::from_str("2+3 "), Err((SymbolicError::UnknownSymbol, 3)));
    assert_eq!(Symbol::from_str("12+x*y"), Err((SymbolicError::UnknownSymbol, 3)));
}

#[test]
fn a_character_of_several_bytes_is_reported_at_its_first_byte() {
    assert_eq!(Symbol::from_str("2+\u{e9}"), Err((SymbolicError::UnknownSymbol, 2)));
    assert_eq!(Symbol::from_str("\u{e9}+2"), Err((SymbolicError::UnknownSymbol, 0)));
}

#[test]
fn invalid_constant_is_reported_at_the_byte_that_ends_it() {
    assert_eq!(Symbol::from_str("1.2.3+4"), Err((SymbolicError::InvalidConst, 5)));
    assert_eq!(Symbol::from_str("2+.*3"), Err((SymbolicError::InvalidConst, 3)));
    assert_eq!(Symbol::from_str("1..2&"), Err((SymbolicError::InvalidConst, 4)));
}

#[test]
fn invalid_constant_at_the_end_is_reported_at_the_last_byte() {
    assert_eq!(Symbol::from_str("1.2.3"), Err((SymbolicError::InvalidConst, 4)));
    assert_eq!(Symbol::from_str("2+."), Err((SymbolicError::InvalidConst, 2)));
    assert_eq!(Symbol::from_str("."), Err((SymbolicError::InvalidConst, 0)));
}

#[test]
fn the_first_fault_wins() {
    assert_eq!(Symbol::from_str("2&1.2.3"), Err((SymbolicError::UnknownSymbol, 1)));
    assert_eq!(Symbol::from_str("1.2.3&"), Err((SymbolicError::InvalidConst, 5)));
}

#[test]
fn tokens_come_one_by_one() {
    let mut lexer = tokenize("12*(3");
    assert_eq!(lexer.next(), Some(Ok(constant("12"))));
    assert_eq!(lexer.next(), Some(Ok(Token::Asterisk)));
    assert_eq!(lexer.next(), Some(Ok(Token::OpenParenthesis)));
    assert_eq!(lexer.next(), Some(Ok(constant("3"))));
    assert_eq!(lexer.next(), None);
    assert_eq!(lexer.next(), None);
}

#[test]
fn the_cursor_stays_before_a_fault() {
    let mut lexer = tokenize("1+a");
    assert_eq!(lexer.next(), Some(Ok(constant("1"))));
    assert_eq!(lexer.next(), Some(Ok(Token::Plus)));
    assert_eq!(lexer.next(), Some(Err((SymbolicError::UnknownSymbol, 2))));
    assert_eq!(lexer.next(), Some(Err((SymbolicError::UnknownSymbol, 2))));
    assert_eq!(lexer.collect(), Err((SymbolicError::UnknownSymbol, 2)));
}

#[test]
fn a_copy_of_the_cursor_starts_where_it_was_taken() {
    let mut lexer = tokenize("1+2");
    assert_eq!(lexer.next(), Some(Ok(constant("1"))));
    let copy = lexer;
    assert_eq!(lexer.next(), Some(Ok(Token::Plus)));
    assert_eq!(copy.collect(), Ok(vec![Token::Plus, constant("2")]));
    assert_eq!(lexer.collect(), Ok(vec![constant("2")]));
}

#[test]
fn lexing_twice_gives_the_same_tokens() {
    let text = "0.9-10+5/9*2^8";
    assert_eq!(Symbol::from_str(text), Symbol::from_str(text));
    assert_eq!(tokenize(text).collect(), Symbol::from_str(text));
    let faulty = "0.9-10+5/9*2^8?";
    assert_eq!(Symbol::from_str(faulty), Symbol::from_str(faulty));
}

#[test]
fn a_cloned_literal_is_the_same_numeral() {
    let literal = Literal::new("3.25").unwrap();
    assert_eq!(literal.clone(), literal);
    assert_eq!(literal.clone().as_bytes(), "3.25".as_bytes());
}

#[test]
fn tokens_written_out_are_the_text() {
    for text in ["", "2+2", "(69.5^0.3)", "007*.5-5./(1)", "*2-/2^"] {
        let mut written = Vec::new();
        for symbol in Symbol::from_str(text).unwrap() {
            match symbol {
                Token::Constant(literal) => written.extend_from_slice(literal.as_bytes()),
                Dash => written.push(b'-'),
                Plus => written.push(b'+'),
                Asterisk => written.push(b'*'),
                Slash => written.push(b'/'),
                Caret => written.push(b'^'),
                OpenParenthesis => written.push(b'('),
                CloseParenthesis => written.push(b')'),
            }
        }
        assert_eq!(written, text.as_bytes());
    }
}

#[test]
fn a_run_of_digits_and_points_is_one_constant() {
    assert_eq!(Symbol::from_str("1234567890.0987654321").unwrap().len(), 1);
    assert_eq!(
        Symbol::from_str("340282366920938463463374607431768211456").unwrap(),
        vec![constant("340282366920938463463374607431768211456")]
    );
}
