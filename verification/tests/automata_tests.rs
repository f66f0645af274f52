use arith_eval::parser::Parser;
use arith_eval::token::{Fault, Token, TokenClass};
use arith_eval::tokenizer::{ScanState, Tokenizer};

#[test]
fn scanner_classifies_single_characters() {
    let t = Tokenizer::new();
    assert_eq!(t.lookup(Some('(')), (None, ScanState::OpenParen, true));
    assert_eq!(t.lookup(Some(')')), (None, ScanState::CloseParen, true));
    assert_eq!(t.lookup(Some('+')), (None, ScanState::PlusSign, true));
    assert_eq!(t.lookup(Some('*')), (None, ScanState::TimesSign, true));
    assert_eq!(t.lookup(Some('7')), (None, ScanState::DigitRun, true));
    assert_eq!(t.lookup(Some('z')), (None, ScanState::IdentRun, true));
    assert_eq!(t.lookup(Some(' ')), (None, ScanState::Idle, false));
    assert_eq!(t.lookup(None), (Some(TokenClass::Eof), ScanState::Idle, false));
}

#[test]
fn scanner_classification_is_repeatable() {
    // the same (state, character) pair always classifies the same way:
    // the automaton keeps no hidden history
    let t1 = Tokenizer::new();
    let t2 = Tokenizer::new();
    for c in ['(', ')', '+', '*', '0', '9', 'a', 'Z', ' ', '\t', '?'] {
        assert_eq!(t1.lookup(Some(c)), t2.lookup(Some(c)));
    }
    assert_eq!(t1.lookup(None), t2.lookup(None));
}

#[test]
fn scanner_emits_digit_run_on_delimiter() {
    let mut t = Tokenizer::new();
    assert!(matches!(t.get_token(Some('1')), Ok(None)));
    assert!(matches!(t.get_token(Some('0')), Ok(None)));
    // the '+' ends the run; the digits token carries the full value
    assert!(matches!(t.get_token(Some('+')), Ok(Some(Token::Digits(10)))));
    // the '+' itself was re-classified, not dropped: it comes out next
    assert!(matches!(t.get_token(Some(' ')), Ok(Some(Token::Plus))));
}

#[test]
fn scanner_emits_pending_token_at_end_of_input() {
    let mut t = Tokenizer::new();
    assert!(matches!(t.get_token(Some('4')), Ok(None)));
    assert!(matches!(t.get_token(Some('2')), Ok(None)));
    assert!(matches!(t.get_token(None), Ok(Some(Token::Digits(42)))));
    assert!(matches!(t.get_token(None), Ok(Some(Token::Eof))));
}

#[test]
fn scanner_buffers_identifier_runs() {
    let mut t = Tokenizer::new();
    assert!(matches!(t.get_token(Some('a')), Ok(None)));
    assert!(matches!(t.get_token(Some('b')), Ok(None)));
    assert!(matches!(t.get_token(Some('1')), Ok(None)));
    match t.get_token(Some(' ')) {
        Ok(Some(Token::Id(s))) => assert_eq!(s, vec!['a', 'b', '1']),
        other => panic!("expected an identifier token, got {:?}", other),
    }
}

#[test]
fn scanner_overflow_on_long_digit_run() {
    let mut t = Tokenizer::new();
    for _ in 0..12 {
        assert!(matches!(t.get_token(Some('9')), Ok(None)));
    }
    assert_eq!(t.get_token(None), Err(Fault::Overflow));
}

#[test]
fn parser_starts_in_state_zero() {
    let mut p = Parser::new();
    assert_eq!(p.get_state(), 0);
}

#[test]
fn parser_accepts_single_digits_token() {
    let mut p = Parser::new();
    assert_eq!(p.parse(&Token::Digits(5)), Ok(None));
    assert_eq!(p.parse(&Token::Eof), Ok(Some(5)));
}

#[test]
fn parser_accepts_empty_input_as_zero() {
    let mut p = Parser::new();
    assert_eq!(p.parse(&Token::Eof), Ok(Some(0)));
}

#[test]
fn parser_folds_sum_and_product() {
    let mut p = Parser::new();
    assert_eq!(p.parse(&Token::Digits(1)), Ok(None));
    assert_eq!(p.parse(&Token::Plus), Ok(None));
    assert_eq!(p.parse(&Token::Digits(2)), Ok(None));
    assert_eq!(p.parse(&Token::Times), Ok(None));
    assert_eq!(p.parse(&Token::Digits(3)), Ok(None));
    assert_eq!(p.parse(&Token::Eof), Ok(Some(7)));
}

#[test]
fn parser_refuses_identifier_tokens_everywhere() {
    let mut p = Parser::new();
    assert_eq!(p.parse(&Token::Id(vec!['x'])), Err(Fault::Malformed));

    let mut q = Parser::new();
    assert_eq!(q.parse(&Token::Digits(1)), Ok(None));
    assert_eq!(q.parse(&Token::Plus), Ok(None));
    assert_eq!(q.parse(&Token::Id(vec!['y'])), Err(Fault::Malformed));
}

#[test]
fn parser_refuses_adjacent_operators() {
    let mut p = Parser::new();
    assert_eq!(p.parse(&Token::Digits(1)), Ok(None));
    assert_eq!(p.parse(&Token::Plus), Ok(None));
    assert_eq!(p.parse(&Token::Times), Err(Fault::Malformed));
}

#[test]
fn parser_overflow_on_reduction() {
    let mut p = Parser::new();
    assert_eq!(p.parse(&Token::Digits(2147483647)), Ok(None));
    assert_eq!(p.parse(&Token::Plus), Ok(None));
    assert_eq!(p.parse(&Token::Digits(1)), Ok(None));
    assert_eq!(p.parse(&Token::Eof), Err(Fault::Overflow));
}

#[test]
fn token_classes() {
    assert_eq!(Token::LParen.class(), TokenClass::LParen);
    assert_eq!(Token::RParen.class(), TokenClass::RParen);
    assert_eq!(Token::Plus.class(), TokenClass::Plus);
    assert_eq!(Token::Times.class(), TokenClass::Times);
    assert_eq!(Token::Digits(3).class(), TokenClass::Digits);
    assert_eq!(Token::Id(vec!['a']).class(), TokenClass::Id);
    assert_eq!(Token::Eof.class(), TokenClass::Eof);
}
