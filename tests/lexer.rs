use frontend::lexer::Lexer;
use frontend::token::Token;

#[test]
fn get_next_token() {
    let input = r#"let five = 5;
        let ten = 10;
        
        let add = fn(x, y){
            x + y;
        };
        
        let result = add(five, ten);
        
        foobar;"#;
    let mut lexer = Lexer::new(input.into());

    let tokens = vec![
        Token::Let,
        Token::Ident("five".to_string()),
        Token::Assign,
        Token::Int("5".to_string()),
        Token::Semicolon,
        Token::Let,
        Token::Ident("ten".to_string()),
        Token::Assign,
        Token::Int("10".to_string()),
        Token::Semicolon,
        Token::Let,
        Token::Ident("add".to_string()),
        Token::Assign,
        Token::Function,
        Token::LParen,
        Token::Ident("x".to_string()),
        Token::Comma,
        Token::Ident("y".to_string()),
        Token::RParen,
        Token::LBrace,
        Token::Ident("x".to_string()),
        Token::Plus,
        Token::Ident("y".to_string()),
        Token::Semicolon,
        Token::RBrace,
        Token::Semicolon,
        Token::Let,
        Token::Ident("result".to_string()),
        Token::Assign,
        Token::Ident("add".to_string()),
        Token::LParen,
        Token::Ident("five".to_string()),
        Token::Comma,
        Token::Ident("ten".to_string()),
        Token::RParen,
        Token::Semicolon,
        Token::Ident("foobar".to_string()),
        Token::Semicolon,
        Token::Eof,
    ];

    for token in tokens {
        let cur_token = lexer.next_token();
        println!("expected {:?}, received {:?}", token, cur_token);
        assert_eq!(token, cur_token);
    }
}

#[test]
fn let_five_then_end_of_input_forever() {
    let mut lexer = Lexer::new("let five = 5;".to_string());
    let expected = vec![
        Token::Let,
        Token::Ident("five".to_string()),
        Token::Assign,
        Token::Int("5".to_string()),
        Token::Semicolon,
        Token::Eof,
    ];
    for token in expected {
        assert_eq!(lexer.next_token(), token);
    }
    for _ in 0..5 {
        assert_eq!(lexer.next_token(), Token::Eof);
    }
}

#[test]
fn empty_input_is_end_of_input() {
    let mut lexer = Lexer::new(String::new());
    assert_eq!(lexer.next_token(), Token::Eof);
    assert_eq!(lexer.next_token(), Token::Eof);
    let mut blank = Lexer::new(" \t\r\n ".to_string());
    assert_eq!(blank.next_token(), Token::Eof);
}

#[test]
fn two_character_operators() {
    let mut lexer = Lexer::new("== != = ! < > / * - +".to_string());
    let expected = vec![
        Token::Equal,
        Token::NotEqual,
        Token::Assign,
        Token::Bang,
        Token::LessThan,
        Token::GreaterThan,
        Token::ForwardSlash,
        Token::Asterisk,
        Token::Minus,
        Token::Plus,
        Token::Eof,
    ];
    for token in expected {
        assert_eq!(lexer.next_token(), token);
    }
}

#[test]
fn keywords_and_words() {
    let mut lexer = Lexer::new("fn let return fnx _a lets Return".to_string());
    let expected = vec![
        Token::Function,
        Token::Let,
        Token::Return,
        Token::Ident("fnx".to_string()),
        Token::Ident("_a".to_string()),
        Token::Ident("lets".to_string()),
        Token::Ident("Return".to_string()),
        Token::Eof,
    ];
    for token in expected {
        assert_eq!(lexer.next_token(), token);
    }
}

#[test]
fn word_and_number_split() {
    let mut lexer = Lexer::new("abc123def".to_string());
    assert_eq!(lexer.next_token(), Token::Ident("abc".to_string()));
    assert_eq!(lexer.next_token(), Token::Int("123".to_string()));
    assert_eq!(lexer.next_token(), Token::Ident("def".to_string()));
    assert_eq!(lexer.next_token(), Token::Eof);
}

#[test]
fn illegal_byte_is_a_token() {
    let mut lexer = Lexer::new("let x = @;".to_string());
    assert_eq!(lexer.next_token(), Token::Let);
    assert_eq!(lexer.next_token(), Token::Ident("x".to_string()));
    assert_eq!(lexer.next_token(), Token::Assign);
    assert_eq!(lexer.next_token(), Token::Illegal(b'@', 8));
    assert_eq!(lexer.next_token(), Token::Semicolon);
    assert_eq!(lexer.next_token(), Token::Eof);
}

#[test]
fn non_ascii_bytes_are_illegal() {
    let mut lexer = Lexer::new("é".to_string());
    assert_eq!(lexer.next_token(), Token::Illegal(0xc3, 0));
    assert_eq!(lexer.next_token(), Token::Illegal(0xa9, 1));
    assert_eq!(lexer.next_token(), Token::Eof);
}

#[test]
fn zero_byte_ends_input() {
    let mut lexer = Lexer::new("a\0b".to_string());
    assert_eq!(lexer.next_token(), Token::Ident("a".to_string()));
    assert_eq!(lexer.next_token(), Token::Eof);
    assert_eq!(lexer.next_token(), Token::Eof);
}

#[test]
fn identical_inputs_lex_identically() {
    let text = "let add = fn(x, y) { x + y; }; add(1, 2) != 3 @".to_string();
    let mut a = Lexer::new(text.clone());
    let mut b = Lexer::new(text);
    for _ in 0..30 {
        assert_eq!(a.next_token(), b.next_token());
    }
}

#[test]
fn tokens_stop_after_end_of_input() {
    let mut lexer = Lexer::new("x;".to_string());
    let all = lexer.tokens();
    assert_eq!(
        all,
        vec![Token::Ident("x".to_string()), Token::Semicolon, Token::Eof]
    );
    assert_eq!(lexer.next_token(), Token::Eof);
}

#[test]
fn render_tokens() {
    assert_eq!(Token::Ident("x".to_string()).render(), "Ident(x)");
    assert_eq!(Token::Int("42".to_string()).render(), "Int(42)");
    assert_eq!(Token::Semicolon.render(), "Semicolon");
    assert_eq!(Token::Eof.render(), "EOF");
    assert_eq!(Token::NotEqual.render(), "!=");
    assert_eq!(Token::LBrace.render(), "{");
    assert_eq!(Token::Illegal(64, 120).render(), "ILLEGAL(byte 64 at 120)");
}
