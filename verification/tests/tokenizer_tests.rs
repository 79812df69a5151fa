use rtypescript::{tokenize, CollectingSink, Token};
fn tokenize_all(input: &str) -> Vec<Token> {
    let mut sink = CollectingSink::default();
    tokenize(input, &mut sink);
    sink.tokens
}

#[test]
fn tokenizes_identifiers_and_whitespace() {
    let tokens = tokenize_all("let x");
    assert_eq!(
        tokens,
        vec![
            Token::Identifier("let".to_string()),
            Token::Whitespace(" ".to_string()),
            Token::Identifier("x".to_string()),
            Token::Eof,
        ]
    );
}

#[test]
fn tokenizes_number_and_string_literals() {
    let tokens = tokenize_all(r#"1.5 "hi""#);
    assert_eq!(
        tokens,
        vec![
            Token::Number("1.5".to_string()),
            Token::Whitespace(" ".to_string()),
            Token::StringLiteral("\"hi\"".to_string()),
            Token::Eof,
        ]
    );
}

#[test]
fn multi_char_punctuators_take_priority_over_single_char() {
    let tokens = tokenize_all("a => b === c");
    assert_eq!(
        tokens,
        vec![
            Token::Identifier("a".to_string()),
            Token::Whitespace(" ".to_string()),
            Token::Punctuator("=>".to_string()),
            Token::Whitespace(" ".to_string()),
            Token::Identifier("b".to_string()),
            Token::Whitespace(" ".to_string()),
            Token::Punctuator("===".to_string()),
            Token::Whitespace(" ".to_string()),
            Token::Identifier("c".to_string()),
            Token::Eof,
        ]
    );
}

#[test]
fn line_and_block_comments_are_captured_verbatim() {
    let tokens = tokenize_all("// hi\n/* block */");
    assert_eq!(
        tokens,
        vec![
            Token::Comment("// hi".to_string()),
            Token::Whitespace("\n".to_string()),
            Token::Comment("/* block */".to_string()),
            Token::Eof,
        ]
    );
}

#[test]
fn type_annotation_colon_is_tokenized_as_a_plain_punctuator() {
    let tokens = tokenize_all("let x: number = 1;");
    assert_eq!(
        tokens,
        vec![
            Token::Identifier("let".to_string()),
            Token::Whitespace(" ".to_string()),
            Token::Identifier("x".to_string()),
            Token::Punctuator(":".to_string()),
            Token::Whitespace(" ".to_string()),
            Token::Identifier("number".to_string()),
            Token::Whitespace(" ".to_string()),
            Token::Punctuator("=".to_string()),
            Token::Whitespace(" ".to_string()),
            Token::Number("1".to_string()),
            Token::Punctuator(";".to_string()),
            Token::Eof,
        ]
    );
}
