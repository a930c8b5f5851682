use minicc::tokenizer::{
    classify, tokenize, tokenize_classified, CharClass, Token, TokenizeError,
};

#[test]
fn test_symbols() {
    let input = "(){};";
    let expected: Vec<Token> = vec![
        Token::OpenParen,
        Token::CloseParen,
        Token::OpenBrace,
        Token::CloseBrace,
        Token::Semicolon,
    ];
    let result = tokenize(input).unwrap();
    assert_eq!(result, expected);
}

#[test]
fn test_operators() {
    let input = "+-===";
    let expected: Vec<Token> = vec![
        Token::Operator("+"),
        Token::Operator("-"),
        Token::Operator("=="),
        Token::Operator("="),
    ];
    let result = tokenize(input).unwrap();
    assert_eq!(result, expected);
}

#[test]
fn test_keywords_and_identifiers() {
    let keywords = ["int", "return", "if", "else"];
    let identifier = "my_identifier123";
    let input = keywords.join(" ") + " " + identifier;

    let mut expected: Vec<Token> = keywords.iter().map(|k| Token::Keyword(k)).collect::<Vec<_>>();
    expected.append(&mut vec![Token::Identifier(identifier)]);

    let result = tokenize(&input).unwrap();
    assert_eq!(result, expected);
}

#[test]
fn test_literals() {
    let input = "100 \"My_String\"";
    let expected: Vec<Token> = vec![Token::IntegerLiteral(100), Token::StringLiteral("My_String")];
    let result = tokenize(input).unwrap();
    assert_eq!(result, expected);
}

#[test]
fn tokenize_knows_four_operators_only() {
    assert_eq!(
        tokenize("*"),
        Err(TokenizeError::UnexpectedCharacter { position: 0, character: '*' })
    );
    assert_eq!(
        tokenize("a / b"),
        Err(TokenizeError::UnexpectedCharacter { position: 2, character: '/' })
    );
    assert_eq!(
        tokenize("x = 1 + 2 * 3;"),
        Err(TokenizeError::UnexpectedCharacter { position: 10, character: '*' })
    );
    assert_eq!(
        tokenize("a+b-c=d==e").unwrap(),
        vec![
            Token::Identifier("a"),
            Token::Operator("+"),
            Token::Identifier("b"),
            Token::Operator("-"),
            Token::Identifier("c"),
            Token::Operator("="),
            Token::Identifier("d"),
            Token::Operator("=="),
            Token::Identifier("e"),
        ]
    );
}

#[test]
fn tokenize_empty_and_blank_text() {
    assert_eq!(tokenize("").unwrap(), vec![]);
    assert_eq!(tokenize(" \t\n  ").unwrap(), vec![]);
}

#[test]
fn tokenize_unexpected_character_names_offset_and_character() {
    assert_eq!(
        tokenize("int x = 1 # 2"),
        Err(TokenizeError::UnexpectedCharacter { position: 10, character: '#' })
    );
}

#[test]
fn tokenize_error_position_counts_bytes() {
    // 'é' takes two bytes, so '#' stands at byte 3 although it is the third character.
    assert_eq!(
        tokenize("é #"),
        Err(TokenizeError::UnexpectedCharacter { position: 3, character: '#' })
    );
}

#[test]
fn tokenize_unterminated_string() {
    assert_eq!(tokenize("x = \"abc"), Err(TokenizeError::UnterminatedString { position: 4 }));
    assert_eq!(tokenize("\""), Err(TokenizeError::UnterminatedString { position: 0 }));
}

#[test]
fn tokenize_empty_string_literal() {
    assert_eq!(tokenize("\"\"").unwrap(), vec![Token::StringLiteral("")]);
}

#[test]
fn tokenize_string_literal_keeps_its_text_verbatim() {
    assert_eq!(
        tokenize("\"a b; (c) == 1\" x").unwrap(),
        vec![Token::StringLiteral("a b; (c) == 1"), Token::Identifier("x")]
    );
}

#[test]
fn tokenize_number_too_large_is_an_identifier() {
    assert_eq!(
        tokenize("18446744073709551615 18446744073709551616").unwrap(),
        vec![Token::IntegerLiteral(u64::MAX), Token::Identifier("18446744073709551616")]
    );
}

#[test]
fn tokenize_number_with_leading_zeros() {
    assert_eq!(tokenize("007").unwrap(), vec![Token::IntegerLiteral(7)]);
}

#[test]
fn tokenize_word_that_starts_with_digits() {
    assert_eq!(tokenize("12ab").unwrap(), vec![Token::Identifier("12ab")]);
}

#[test]
fn tokenize_keyword_prefix_is_an_identifier() {
    assert_eq!(
        tokenize("integer iff").unwrap(),
        vec![Token::Identifier("integer"), Token::Identifier("iff")]
    );
}

#[test]
fn tokenize_non_ascii_letters_form_identifiers() {
    assert_eq!(tokenize("größe").unwrap(), vec![Token::Identifier("größe")]);
}

#[test]
fn tokenize_tokens_need_no_separator() {
    assert_eq!(
        tokenize("x==1;").unwrap(),
        vec![
            Token::Identifier("x"),
            Token::Operator("=="),
            Token::IntegerLiteral(1),
            Token::Semicolon,
        ]
    );
}

#[test]
fn classify_asks_for_white_space_and_letters() {
    assert_eq!(
        classify("a 1_\té("),
        vec![
            CharClass { whitespace: false, alphanumeric: true },
            CharClass { whitespace: true, alphanumeric: false },
            CharClass { whitespace: false, alphanumeric: true },
            CharClass { whitespace: false, alphanumeric: false },
            CharClass { whitespace: true, alphanumeric: false },
            CharClass { whitespace: false, alphanumeric: true },
            CharClass { whitespace: false, alphanumeric: false },
        ]
    );
    assert_eq!(classify(""), vec![]);
}

#[test]
fn tokenize_classified_goes_by_the_classes_given() {
    let word = CharClass { whitespace: false, alphanumeric: true };
    let space = CharClass { whitespace: true, alphanumeric: false };
    let other = CharClass { whitespace: false, alphanumeric: false };
    assert_eq!(
        tokenize_classified("ab cd", &vec![word, word, space, word, word]).unwrap(),
        vec![Token::Identifier("ab"), Token::Identifier("cd")]
    );
    // With the blank classed as a letter the text is one word.
    assert_eq!(
        tokenize_classified("ab cd", &vec![word, word, word, word, word]).unwrap(),
        vec![Token::Identifier("ab cd")]
    );
    // With the letters classed as neither, the first is an error.
    assert_eq!(
        tokenize_classified("ab", &vec![other, other]),
        Err(TokenizeError::UnexpectedCharacter { position: 0, character: 'a' })
    );
    // A parenthesis classed as white space is skipped.
    assert_eq!(tokenize_classified("(;", &vec![space, other]).unwrap(), vec![Token::Semicolon]);
}

#[test]
fn decimal_string_writes_numbers() {
    assert_eq!(minicc::text::decimal_string(0), "0");
    assert_eq!(minicc::text::decimal_string(9), "9");
    assert_eq!(minicc::text::decimal_string(10), "10");
    assert_eq!(minicc::text::decimal_string(1234567890), "1234567890");
    assert_eq!(minicc::text::decimal_string(u64::MAX), "18446744073709551615");
    assert_eq!(minicc::text::chars_of("aé("), vec!['a', 'é', '(']);
    assert!(minicc::text::str_same("ab", "ab"));
    assert!(!minicc::text::str_same("ab", "abc"));
}
