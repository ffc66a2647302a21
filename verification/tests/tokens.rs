use expr_eval::token::{Token, Tokenizer};
use expr_eval::{ASSOC_LEFT, ASSOC_RIGHT};

#[test]
fn operator_classification() {
    assert!(Token::Plus.is_operator());
    assert!(Token::Minus.is_operator());
    assert!(Token::Multiply.is_operator());
    assert!(Token::Divide.is_operator());
    assert!(Token::Power.is_operator());
    assert!(!Token::Number(5).is_operator());
    assert!(!Token::LeftParen.is_operator());
    assert!(!Token::RightParen.is_operator());
}

#[test]
fn operator_precedence_table() {
    assert_eq!(Token::Plus.precedence(), 1);
    assert_eq!(Token::Minus.precedence(), 1);
    assert_eq!(Token::Multiply.precedence(), 2);
    assert_eq!(Token::Divide.precedence(), 2);
    assert_eq!(Token::Power.precedence(), 3);
    assert_eq!(Token::Number(7).precedence(), 0);
    assert_eq!(Token::LeftParen.precedence(), 0);
}

#[test]
fn operator_associativity_table() {
    assert_eq!(Token::Power.assoc(), ASSOC_RIGHT);
    assert_eq!(Token::Plus.assoc(), ASSOC_LEFT);
    assert_eq!(Token::Minus.assoc(), ASSOC_LEFT);
    assert_eq!(Token::Multiply.assoc(), ASSOC_LEFT);
    assert_eq!(Token::Divide.assoc(), ASSOC_LEFT);
}

#[test]
fn operator_compute_rules() {
    assert_eq!(Token::Plus.compute(2, 3), Some(5));
    assert_eq!(Token::Minus.compute(3, 5), Some(-2));
    assert_eq!(Token::Multiply.compute(6, 7), Some(42));
    assert_eq!(Token::Divide.compute(7, 2), Some(3));
    assert_eq!(Token::Divide.compute(1, 0), None);
    assert_eq!(Token::Power.compute(2, 10), Some(1024));
    assert_eq!(Token::Power.compute(2, -1), None);
    assert_eq!(Token::Power.compute(2, 31), None);
    assert_eq!(Token::Number(1).compute(2, 3), None);
    assert_eq!(Token::LeftParen.compute(2, 3), None);
}

#[test]
fn tokenizer_walks_the_source() {
    let mut tk = Tokenizer::new("12 + (3)");
    assert_eq!(tk.next(), Some(Token::Number(12)));
    assert_eq!(tk.next(), Some(Token::Plus));
    assert_eq!(tk.next(), Some(Token::LeftParen));
    assert_eq!(tk.next(), Some(Token::Number(3)));
    assert_eq!(tk.next(), Some(Token::RightParen));
    assert_eq!(tk.next(), None);
}

#[test]
fn tokenizer_skips_whitespace_runs() {
    let mut tk = Tokenizer::new("  1 \t\n 2");
    assert_eq!(tk.next(), Some(Token::Number(1)));
    assert_eq!(tk.next(), Some(Token::Number(2)));
    assert_eq!(tk.next(), None);
}

#[test]
fn tokenizer_stops_at_unrecognized_character() {
    let mut tk = Tokenizer::new("1 ? 2");
    assert_eq!(tk.next(), Some(Token::Number(1)));
    assert_eq!(tk.next(), None);
}

#[test]
fn tokenizer_stops_at_number_overflow() {
    let mut tk = Tokenizer::new("99999999999 + 1");
    assert_eq!(tk.next(), None);
}

#[test]
fn empty_source_has_no_tokens() {
    let mut tk = Tokenizer::new("");
    assert_eq!(tk.next(), None);
}
