use afskylia::parsers::markdown::{Token, TokenType};

#[test]
fn create_letter_token() {
    let literal = String::from("A");
    let token = Token::new(TokenType::Letter, literal);
    assert!(matches!(token.token_type, TokenType::Letter));
    assert_eq!(token.literal, String::from("A"));
}

#[test]
fn create_heading_token() {
    let token = Token::new(TokenType::Heading, "".to_string());
    assert!(matches!(token.token_type, TokenType::Heading));
}
