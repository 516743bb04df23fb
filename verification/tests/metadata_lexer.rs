use afskylia::parsers::metadata::lexer::{Lexer, TokenType};

#[test]
fn new_lexer_ok() {
    let input = "+++\n\
                 date: 2023-04-08T10:17:00\n\
                 published: true\n\
                 +++\n";

    assert!(Lexer::new(&input).is_ok());
}

#[test]
fn lexer_next_token_eof() {
    let input = " ";

    let mut lexer = Lexer::new(input).expect("Couldn't create lexer");
    lexer.next_token();
    let tok = lexer.next_token();
    assert_eq!(tok.token_type, TokenType::EOF);
}

#[test]
fn lexer_test_input() {
    let input = "+++\n\
                 date: 2023-04-08T10:17:00\n\
                 published: true\n\
                 +++\n";
    let mut lexer = Lexer::new(input).expect("Couldn't create lexer");

    let expected = vec![TokenType::Delim, TokenType::Key, TokenType::Value,
    TokenType::Key, TokenType::Value, TokenType::Delim, TokenType::EOF];

    for (i, _) in expected.iter().enumerate() {
        let tok = lexer.next_token();
        assert_eq!(tok.token_type, expected[i]);
    }
}

#[test]
fn lexer_lexer_new_empty_input_not_ok() {
    let input = "".to_string();
    assert!(Lexer::new(&input).is_err());
}

#[test]
fn metadata_literals_of_keys_and_values() {
    let input = "+++\ndate: 2023-04-08T10:17:00\npublished: true\n+++\n";
    let mut lexer = Lexer::new(input).unwrap();

    assert_eq!(lexer.next_token().literal, None);
    assert_eq!(lexer.next_token().literal, Some(String::from("date")));
    assert_eq!(lexer.next_token().literal, Some(String::from(" 2023-04-08T10:17:00")));
    assert_eq!(lexer.next_token().literal, Some(String::from("published")));
    assert_eq!(lexer.next_token().literal, Some(String::from(" true")));
    let fence = lexer.next_token();
    assert_eq!(fence.token_type, TokenType::Delim);
    assert_eq!(fence.literal, None);
    assert_eq!(lexer.next_token().token_type, TokenType::EOF);
}

#[test]
fn metadata_fence_at_end_of_input() {
    let mut lexer = Lexer::new("+++").unwrap();
    assert_eq!(lexer.next_token().token_type, TokenType::Delim);
    assert_eq!(lexer.next_token().token_type, TokenType::EOF);
    assert_eq!(lexer.next_token().token_type, TokenType::EOF);
}

#[test]
fn metadata_key_without_colon_runs_to_end() {
    let mut lexer = Lexer::new("abc").unwrap();
    let tok = lexer.next_token();
    assert_eq!(tok.token_type, TokenType::Key);
    assert_eq!(tok.literal, Some(String::from("abc")));
    assert_eq!(lexer.next_token().token_type, TokenType::EOF);
}

#[test]
fn metadata_empty_key_before_colon() {
    let mut lexer = Lexer::new(":v\nk").unwrap();
    let key = lexer.next_token();
    assert_eq!(key.token_type, TokenType::Key);
    assert_eq!(key.literal, Some(String::new()));
    let value = lexer.next_token();
    assert_eq!(value.token_type, TokenType::Value);
    assert_eq!(value.literal, Some(String::from("v")));
    let next = lexer.next_token();
    assert_eq!(next.token_type, TokenType::Key);
    assert_eq!(next.literal, Some(String::from("k")));
}
