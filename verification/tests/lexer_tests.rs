use klurigt::lexer::{Lexer, Token};

#[test]
fn test_simple_variable_declaration() {
    let input = "make x: number be 42 STOP".to_string();
    let tokens: Vec<Token> = Lexer::new(input).tokenize();

    assert_eq!(
        tokens,
        vec![
            Token::Let,
            Token::Identifier("x".to_string()),
            Token::Colon,
            Token::TypeNumber,
            Token::Assign,
            Token::Number("42".to_string()),
            Token::Semicolon,
        ]
    );
}

#[test]
fn empty_input_gives_no_tokens() {
    let tokens = Lexer::new(String::new()).tokenize();
    assert!(tokens.is_empty());
}

#[test]
fn whitespace_only_gives_no_tokens() {
    let tokens = Lexer::new("  \t\n  ".to_string()).tokenize();
    assert!(tokens.is_empty());
}

#[test]
fn unrecognized_characters_are_skipped() {
    let tokens = Lexer::new("a @#%& b".to_string()).tokenize();
    assert_eq!(
        tokens,
        vec![
            Token::Identifier("a".to_string()),
            Token::Identifier("b".to_string()),
        ]
    );
}

#[test]
fn single_character_tokens() {
    let tokens = Lexer::new("(){}:+".to_string()).tokenize();
    assert_eq!(
        tokens,
        vec![
            Token::LParen,
            Token::RParen,
            Token::LBracket,
            Token::RBracket,
            Token::Colon,
            Token::Plus,
        ]
    );
}

#[test]
fn whole_keyword_table() {
    let input = "notalmostthesamethesame oppositeoftinyerthan letsdothisinstead \
                 keeponswimming STOPSWIMMING tinyerthan ENDMAYBE number string \
                 SCREAM maybe QUIET make STOP be"
        .to_string();
    let tokens = Lexer::new(input).tokenize();
    assert_eq!(
        tokens,
        vec![
            Token::Equal,
            Token::GreaterThan,
            Token::Else,
            Token::While,
            Token::EndWhile,
            Token::LessThan,
            Token::EndIf,
            Token::TypeNumber,
            Token::TypeString,
            Token::Print,
            Token::If,
            Token::EndPrint,
            Token::Let,
            Token::Semicolon,
            Token::Assign,
        ]
    );
}

#[test]
fn string_literal_drops_quotes() {
    let tokens = Lexer::new("\"hi there\"".to_string()).tokenize();
    assert_eq!(tokens, vec![Token::StringLiteral("hi there".to_string())]);
}

#[test]
fn unterminated_string_runs_to_end_of_input() {
    let tokens = Lexer::new("\"abc".to_string()).tokenize();
    assert_eq!(tokens, vec![Token::StringLiteral("abc".to_string())]);
}

#[test]
fn number_read_greedily() {
    let tokens = Lexer::new("123abc".to_string()).tokenize();
    assert_eq!(
        tokens,
        vec![
            Token::Number("123".to_string()),
            Token::Identifier("abc".to_string()),
        ]
    );
}

#[test]
fn keywords_are_case_sensitive() {
    let tokens = Lexer::new("MAKE Make make".to_string()).tokenize();
    assert_eq!(
        tokens,
        vec![
            Token::Identifier("MAKE".to_string()),
            Token::Identifier("Make".to_string()),
            Token::Let,
        ]
    );
}
