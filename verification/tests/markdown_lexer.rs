use afskylia::parsers::markdown::{Lexer, TokenType};

#[test]
fn image_in_paragraph() {
    let input = "a ![a](b c) b";
    let expected = vec![
        TokenType::Letter, TokenType::Letter,
        TokenType::Bang, TokenType::RBracket, TokenType::Letter,
        TokenType::LBracket, TokenType::RParen, TokenType::Letter,
        TokenType::Letter, TokenType::Letter, TokenType::LParen, 
        TokenType::Letter, TokenType::Letter, TokenType::EOF];

    let mut lexer = Lexer::new(input).expect("ERROR: Couldn't initialize lexer");
    for e in expected {
        let tok = lexer.next_token();
        println!("actual: {} == expected: {}", tok.token_type.to_string(), e.to_string());
        assert_eq!(tok.token_type, e);
    }
}

#[test]
fn image() {
    let input = "![a](b c)";
    let expected = vec![
        TokenType::Bang, TokenType::RBracket, TokenType::Letter,
        TokenType::LBracket, TokenType::RParen, TokenType::Letter,
        TokenType::Letter, TokenType::Letter, TokenType::LParen, 
        TokenType::EOF];

    let mut lexer = Lexer::new(input).expect("ERROR: Couldn't initialize lexer");
    for e in expected {
        let tok = lexer.next_token();
        println!("actual: {} == expected: {}", tok.token_type.to_string(), e.to_string());
        assert_eq!(tok.token_type, e);
    }
}

#[test]
fn link_in_paragraph() {
    let input = "A [a](h) b";

    let expected = vec![
        TokenType::Letter, TokenType::Letter,
        TokenType::RBracket, TokenType::Letter, TokenType::LBracket,
        TokenType::RParen, TokenType::Letter, TokenType::LParen,
        TokenType::Letter, TokenType::Letter, TokenType::EOF];

    let mut lexer = Lexer::new(input).expect("ERROR: Couldn't initialize lexer");
    for e in expected {
        let tok = lexer.next_token();
        println!("actual: {} == expected: {}", tok.token_type.to_string(), e.to_string());
        assert_eq!(tok.token_type, e, "actual: {} == expected: {}", tok.token_type.to_string(), e.to_string());
    }
}
#[test]
fn link() {
    let input = "[a](h)";

    let expected = vec![
        TokenType::RBracket, TokenType::Letter, TokenType::LBracket,
        TokenType::RParen, TokenType::Letter, TokenType::LParen];

    let mut lexer = Lexer::new(input).expect("ERROR: Couldn't initialize lexer");
    for e in expected {
        let tok = lexer.next_token();
        println!("actual: {} == expected: {}", tok.token_type.to_string(), e.to_string());
        assert_eq!(tok.token_type, e, "actual: {} == expected: {}", tok.token_type.to_string(), e.to_string());
    }
}

#[test]
fn orderedlist_2() {
    let input = "1. A\n\
                 2. B";
    println!("Input: {} end", input);
    let expected = vec![
    TokenType::OrderedItem, TokenType::Letter, TokenType::LineBreak,
    TokenType::OrderedItem, TokenType::Letter, TokenType::EOF];

    let mut lexer = Lexer::new(input).unwrap();
    for e in expected {
        let tok = lexer.next_token();
        assert_eq!(tok.token_type, e, "actual: {} == expected: {}", tok.token_type.to_string(), e.to_string());
    }
}

#[test]
fn orderedlist() {
    let input = "1. A\n\
                 2. B\n\
                 ";
    println!("Input: {} end", input);
    let expected = vec![
    TokenType::OrderedItem, TokenType::Letter, TokenType::LineBreak,
    TokenType::OrderedItem, TokenType::Letter, TokenType::LineBreak, TokenType::EOF];

    let mut lexer = Lexer::new(input).unwrap();
    for e in expected {
        let tok = lexer.next_token();
        println!("actual: {} == expected: {}", tok.token_type.to_string(), e.to_string());
        assert_eq!(tok.token_type, e, "actual: {} == expected: {}", tok.token_type.to_string(), e.to_string());
    }
}

#[test]
fn peek_nth_token() {
    let input = "ABC";

    let lexer = Lexer::new(&input).expect("ERROR: Couldn't create new lexer");

    for i in 1..3 {
        println!("{}", i);
        assert_eq!(lexer.peek_nth_token(i).literal, input.chars().nth(i).unwrap().to_string());
        assert_eq!(lexer.peek_nth_token(i).token_type, TokenType::Letter);
    }

}

#[test]
fn peek_next_token_paragraph_orderedlist() {
    let input = "L\n\
                 1. A";

    let expected = vec![TokenType::Letter, TokenType::LineBreak,
    TokenType::OrderedItem, TokenType::Letter, TokenType::EOF];
    let mut lexer = Lexer::new(&input).unwrap();

    for (i, e) in expected.iter().enumerate() {
        let tok = lexer.next_token();
        assert_eq!(tok.token_type, *e);
        if i+1 < expected.len() {
            assert_eq!(lexer.peek_next_token().token_type, expected[i+1]);
        }
    }
}

#[test]
fn peek_next_token_two_linebreaks_orderedlist() {
    let input = "\n\
                 \n\
                 1. A";

    let mut lexer = Lexer::new(&input).unwrap();

    lexer.next_token();
    lexer.next_token();
    let peek_token = lexer.peek_next_token();
    assert_eq!(peek_token.token_type, TokenType::OrderedItem);
}

#[test]
fn peek_next_token_one_linebreak_orderedlist() {
    let input = "\n\
                 1. A";

    let mut lexer = Lexer::new(&input).unwrap();

    lexer.next_token();
    let peek_token = lexer.peek_next_token();
    assert_eq!(peek_token.token_type, TokenType::OrderedItem);
}

#[test]
fn heading_paragraph_orderedlist() {
    let input = "# He\n\
                 Lo\n\
                 1. A\n\
                 2. B";
    let expected = vec![TokenType::Heading, 
    TokenType::Letter, TokenType::Letter, TokenType::LineBreak,
    TokenType::Letter, TokenType::Letter, TokenType::LineBreak,
    TokenType::OrderedItem, TokenType::Letter, TokenType::LineBreak,
    TokenType::OrderedItem, TokenType::Letter, TokenType::EOF];

    let mut lexer = Lexer::new(&input).unwrap();

    for e in expected {
        println!("expected: {}", e.to_string());
        let tok = lexer.next_token();
        assert_eq!(tok.token_type, e);
    }
}

#[test]
fn paragraph_followed_by_ordereditem() {
    let input = "Lo\n\
                 1. A";
    let expected = vec![TokenType::Letter, TokenType::Letter,
    TokenType::LineBreak, TokenType::OrderedItem, 
    TokenType::Letter, TokenType::EOF];

    let mut lexer = Lexer::new(&input).unwrap();

    for e in expected {
        println!("expected: {}", e.to_string());
        let tok = lexer.next_token();
        assert_eq!(tok.token_type, e);
    }
}

#[test]
fn peek_next_token() {
    let input = "L\n";
    
    let mut lexer = Lexer::new(&input).unwrap();

    let token = lexer.next_token();
    let peek_token = lexer.peek_next_token();

    assert_eq!(token.token_type, TokenType::Letter);
    assert_eq!(peek_token.token_type, TokenType::LineBreak);
}

#[test]
fn paragraph_with_number_and_hash() {
    let input = "Lo12#";

    let expected = vec![TokenType::Letter, TokenType::Letter,
    TokenType::Letter, TokenType::Letter, TokenType::Letter,
    TokenType::EOF];

    let mut lexer = Lexer::new(&input).unwrap();

    for e in expected {
        println!("expected: {}", e.to_string());
        let tok = lexer.next_token();
        assert_eq!(tok.token_type, e);
    }
}

#[test]
fn two_paragraphs() {
    let input = "Lo\n\
                 \n\
                 um";

    let expected = vec![TokenType::Letter, TokenType::Letter,
    TokenType::LineBreak, TokenType::LineBreak, TokenType::Letter,
    TokenType::Letter];

    let mut lexer = Lexer::new(&input).unwrap();

    for e in expected {
        println!("expected: {}", e.to_string());
        let tok = lexer.next_token();
        assert_eq!(tok.token_type, e);
    }
}

#[test]
fn next_token_ordered_list_2() {
    let input = "1. A\n\
                 2. B\n\
                 ";
    let expected = vec![TokenType::OrderedItem, TokenType::Letter,
    TokenType::LineBreak, TokenType::OrderedItem, TokenType::Letter,
    TokenType::LineBreak, TokenType::EOF];

    let mut lexer = Lexer::new(&input).unwrap();

    for e in expected {
        println!("expected: {}", e.to_string());
        let tok = lexer.next_token();
        assert_eq!(tok.token_type, e);
    }
}

#[test]
fn next_token_ordered_list_1() {
    let input = "1. A\n\
                 2. B";
    let expected = vec![TokenType::OrderedItem, TokenType::Letter,
    TokenType::LineBreak, TokenType::OrderedItem, TokenType::Letter,
    TokenType::EOF];

    let mut lexer = Lexer::new(&input).unwrap();

    for e in expected {
        println!("expected: {}", e.to_string());
        let tok = lexer.next_token();
        assert_eq!(tok.token_type, e);
    }
}

#[test]
fn next_token_ordered_list() {
    let input = "\n\
                 1. a\n\
                 2. b\n\
                 ";
    let expected = vec![TokenType::LineBreak, TokenType::OrderedItem,
    TokenType::Letter, TokenType::LineBreak, TokenType::OrderedItem,
    TokenType::Letter, TokenType::LineBreak, TokenType::EOF];
    let mut lexer = Lexer::new(&input).unwrap();

    for e in expected {
        println!("expected: {}", e.to_string());
        let tok = lexer.next_token();
        assert_eq!(tok.token_type, e);
    }
}

#[test]
fn next_token_heading_with_paragraph() {
    let input = "# he\n\
                 text\n\
                 ";

    let expected = vec![TokenType::Heading, 
    TokenType::Letter, TokenType::Letter, TokenType::LineBreak,
    TokenType::Letter, TokenType::Letter, TokenType::Letter,
    TokenType::Letter, TokenType::LineBreak, TokenType::EOF];
    let mut lexer = Lexer::new(&input).unwrap();

    for e in expected {
        println!("expected: {}", e.to_string());
        let tok = lexer.next_token();
        assert_eq!(tok.token_type, e);
    }
}

#[test]
fn next_token_heading_with_text() {
    let input = "# He";
    let expected = vec![TokenType::Heading, 
    TokenType::Letter, TokenType::Letter, TokenType::EOF];
    let mut lexer = Lexer::new(&input).unwrap();

    for e in expected {
        let tok = lexer.next_token();
        assert_eq!(tok.token_type, e);
    }
}

#[test]
fn next_token_heading_twice() {
    let input = "##";

    let mut lexer = Lexer::new(&input).unwrap();
    let mut tok = lexer.next_token();
    assert!(matches!(tok.token_type, TokenType::Heading));
    tok = lexer.next_token();
    assert!(matches!(tok.token_type, TokenType::Heading));
}

#[test]
fn next_token_letter_space() {
    let input = " ";

    let mut lexer = Lexer::new(&input).unwrap();
    let tok = lexer.next_token();

    assert!(matches!(tok.token_type, TokenType::Letter));
    assert_eq!(tok.literal, String::from(" "));
}

#[test]
fn next_token_linebreak_then_letter() {
    let input = "\n\
                 a";

    let mut lexer = Lexer::new(&input).unwrap();

    assert!(matches!(lexer.next_token().token_type, TokenType::LineBreak));
    assert!(matches!(lexer.next_token().token_type, TokenType::Letter));
}

#[test]
fn next_token_linebreak() {
    let input = "\n\
                 ";

    let mut lexer = Lexer::new(&input).unwrap();

    assert!(matches!(lexer.next_token().token_type, TokenType::LineBreak));
}

#[test]
fn next_token_letter_a() {
    let input = "a";

    let mut lexer = Lexer::new(&input).unwrap();
    let tok = lexer.next_token();

    assert!(matches!(tok.token_type, TokenType::Letter));
    assert_eq!(tok.literal, String::from("a"));
}

#[test]
fn next_token_heading() {
    let input = "#";

    let mut lexer = Lexer::new(&input).unwrap();
    let tok = lexer.next_token();

    assert!(matches!(tok.token_type, TokenType::Heading));
}

#[test]
fn can_initialize_new_lexer() {
    let input = "# Hello".to_string();
    assert!(Lexer::new(&input).is_ok());
}

#[test]
fn lexer_new_empty_input_not_ok() {
    let input = "".to_string();
    assert!(Lexer::new(&input).is_err());
}
