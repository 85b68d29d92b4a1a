use fddl::lexer::Lexer;
use fddl::rat::Number;
use fddl::token::Token;

fn num(n: u64) -> Token {
    Token::Number(Number::from_integer(n))
}

#[test]
fn test_single_tokens() {
    let source = String::from("()+-*/;");
    let mut lexer = Lexer::new(source);
    let tokens = lexer.scan_tokens();

    assert_eq!(
        tokens,
        vec![
            Token::LeftParen,
            Token::RightParen,
            Token::Plus,
            Token::Minus,
            Token::Star,
            Token::Slash,
            Token::Semicolon,
            Token::EOF
        ]
    );
}

#[test]
fn test_keywords_and_identifiers() {
    let source = String::from("sym myVar = 123;");
    let mut lexer = Lexer::new(source);
    let tokens = lexer.scan_tokens();

    assert_eq!(
        tokens,
        vec![
            Token::Sym,
            Token::Identifier("myVar".to_string()),
            Token::Equal,
            num(123),
            Token::Semicolon,
            Token::EOF
        ]
    );
    println!("{:?}", tokens);
}

#[test]
fn test_pub_keyword() {
    let source = String::from("pub func example() { return 42; }");
    let mut lexer = Lexer::new(source);
    let tokens = lexer.scan_tokens();

    assert_eq!(
        tokens,
        vec![
            Token::Pub,
            Token::Func,
            Token::Identifier("example".to_string()),
            Token::LeftParen,
            Token::RightParen,
            Token::LeftBrace,
            Token::Return,
            num(42),
            Token::Semicolon,
            Token::RightBrace,
            Token::EOF
        ]
    );
}

#[test]
fn test_comments() {
    let source = String::from("# This is a comment\nlet a = 5;");
    let mut lexer = Lexer::new(source);
    let tokens = lexer.scan_tokens();

    assert_eq!(
        tokens,
        vec![
            Token::Comment(" This is a comment".to_string()),
            Token::Let,
            Token::Identifier("a".to_string()),
            Token::Equal,
            num(5),
            Token::Semicolon,
            Token::EOF
        ]
    );
}

#[test]
fn test_operators_and_comparison() {
    let source = String::from("a >= 10 != b == 5;");
    let mut lexer = Lexer::new(source);
    let tokens = lexer.scan_tokens();

    assert_eq!(
        tokens,
        vec![
            Token::Identifier("a".to_string()),
            Token::GreaterEqual,
            num(10),
            Token::BangEqual,
            Token::Identifier("b".to_string()),
            Token::EqualEqual,
            num(5),
            Token::Semicolon,
            Token::EOF
        ]
    );
}

#[test]
fn test_tilde_operator() {
    let source = String::from("if (a != b) { let c = ~5; }");
    let mut lexer = Lexer::new(source);
    let tokens = lexer.scan_tokens();

    assert_eq!(
        tokens,
        vec![
            Token::If,
            Token::LeftParen,
            Token::Identifier("a".to_string()),
            Token::BangEqual,
            Token::Identifier("b".to_string()),
            Token::RightParen,
            Token::LeftBrace,
            Token::Let,
            Token::Identifier("c".to_string()),
            Token::Equal,
            Token::Tilde,
            num(5),
            Token::Semicolon,
            Token::RightBrace,
            Token::EOF
        ]
    );
}

#[test]
fn test_modulus_operator() {
    let source = String::from("10 % 3;");
    let mut lexer = Lexer::new(source.clone());
    let tokens = lexer.scan_tokens();

    assert_eq!(
        tokens,
        vec![num(10), Token::Percent, num(3), Token::Semicolon, Token::EOF]
    );
}

#[test]
fn test_nil_keyword() {
    let source = String::from("let a = nil;");
    let mut lexer = Lexer::new(source.clone());
    let tokens = lexer.scan_tokens();

    assert_eq!(
        tokens,
        vec![
            Token::Let,
            Token::Identifier("a".to_string()),
            Token::Equal,
            Token::Nil,
            Token::Semicolon,
            Token::EOF
        ]
    );
}

#[test]
fn test_some_keyword() {
    let source = String::from("if some value { }");
    let mut lexer = Lexer::new(source.clone());
    let tokens = lexer.scan_tokens();

    assert_eq!(
        tokens,
        vec![
            Token::If,
            Token::SomeKw,
            Token::Identifier("value".to_string()),
            Token::LeftBrace,
            Token::RightBrace,
            Token::EOF
        ]
    );
}

#[test]
fn test_not_keyword() {
    let source = String::from("not true");
    let mut lexer = Lexer::new(source.clone());
    let tokens = lexer.scan_tokens();

    assert_eq!(tokens, vec![Token::Not, Token::True, Token::EOF]);
}

#[test]
fn test_block_comments() {
    let source = String::from("/* this is a block comment */ let x = 1; /* another one */");
    let mut lexer = Lexer::new(source.clone());
    let tokens = lexer.scan_tokens();

    assert_eq!(
        tokens,
        vec![
            Token::Comment(" this is a block comment ".to_string()),
            Token::Let,
            Token::Identifier("x".to_string()),
            Token::Equal,
            num(1),
            Token::Semicolon,
            Token::Comment(" another one ".to_string()),
            Token::EOF
        ]
    );
}

#[test]
fn test_multiline_block_comment() {
    let source = String::from("let y; /* hello\n world \n spanned */ print y;");
    let mut lexer = Lexer::new(source.clone());
    let tokens = lexer.scan_tokens();

    assert_eq!(
        tokens,
        vec![
            Token::Let,
            Token::Identifier("y".to_string()),
            Token::Semicolon,
            Token::Comment(" hello\n world \n spanned ".to_string()),
            Token::Print,
            Token::Identifier("y".to_string()),
            Token::Semicolon,
            Token::EOF
        ]
    );
}

#[test]
fn test_empty_block_comment() {
    let source = String::from("/**/print 1;");
    let mut lexer = Lexer::new(source.clone());
    let tokens = lexer.scan_tokens();

    assert_eq!(
        tokens,
        vec![
            Token::Comment("".to_string()),
            Token::Print,
            num(1),
            Token::Semicolon,
            Token::EOF
        ]
    );
}

#[test]
fn test_block_comment_at_eof() {
    let source = String::from("let z = 10; /* block comment at eof");
    let mut lexer = Lexer::new(source.clone());
    let tokens = lexer.scan_tokens();

    assert_eq!(
        tokens,
        vec![
            Token::Let,
            Token::Identifier("z".to_string()),
            Token::Equal,
            num(10),
            Token::Semicolon,
            Token::Comment(" block comment at eof".to_string()),
            Token::EOF
        ]
    );
}

#[test]
fn test_combined_new_tokens() {
    let source = String::from("let result = some value % 2 == 0 and not nil;");
    let mut lexer = Lexer::new(source.clone());
    let tokens = lexer.scan_tokens();

    assert_eq!(
        tokens,
        vec![
            Token::Let,
            Token::Identifier("result".to_string()),
            Token::Equal,
            Token::SomeKw,
            Token::Identifier("value".to_string()),
            Token::Percent,
            num(2),
            Token::EqualEqual,
            num(0),
            Token::And,
            Token::Not,
            Token::Nil,
            Token::Semicolon,
            Token::EOF
        ]
    );
}

#[test]
fn test_two_char_operator_preference() {
    let mut lexer = Lexer::new(String::from("<= < == = >= > !="));
    let tokens = lexer.scan_tokens();
    assert_eq!(
        tokens,
        vec![
            Token::LessEqual,
            Token::Less,
            Token::EqualEqual,
            Token::Equal,
            Token::GreaterEqual,
            Token::Greater,
            Token::BangEqual,
            Token::EOF
        ]
    );
}

#[test]
fn test_bang_alone_is_error() {
    let mut lexer = Lexer::new(String::from("!"));
    let tokens = lexer.scan_tokens();
    assert_eq!(
        tokens,
        vec![
            Token::Error("Unexpected character '!'".to_string()),
            Token::EOF
        ]
    );
}

#[test]
fn test_unterminated_string_is_error() {
    let mut lexer = Lexer::new(String::from("\"abc"));
    let tokens = lexer.scan_tokens();
    assert_eq!(
        tokens,
        vec![Token::Error("Unterminated string.".to_string()), Token::EOF]
    );
}

#[test]
fn test_string_literal_contents() {
    let mut lexer = Lexer::new(String::from("print \"hi there\";"));
    let tokens = lexer.scan_tokens();
    assert_eq!(
        tokens,
        vec![
            Token::Print,
            Token::StringLiteral("hi there".to_string()),
            Token::Semicolon,
            Token::EOF
        ]
    );
}

#[test]
fn test_fractional_number_in_lowest_terms() {
    let mut lexer = Lexer::new(String::from("1.50"));
    let tokens = lexer.scan_tokens();
    assert_eq!(
        tokens,
        vec![
            Token::Number(Number { negative: false, numer: 3, denom: 2 }),
            Token::EOF
        ]
    );
}

#[test]
fn test_huge_number_literal_is_error() {
    let mut lexer = Lexer::new(String::from("999999999999999999999999999999999999999999;"));
    let tokens = lexer.scan_tokens();
    assert_eq!(
        tokens,
        vec![
            Token::Error("Number literal out of range.".to_string()),
            Token::EOF
        ]
    );
}

#[test]
fn test_unicode_identifier() {
    let mut lexer = Lexer::new(String::from("héllo"));
    let tokens = lexer.scan_tokens();
    assert_eq!(
        tokens,
        vec![Token::Identifier("héllo".to_string()), Token::EOF]
    );
}

#[test]
fn test_is_alpha_and_is_alphanumeric() {
    let lexer = Lexer::new(String::from(""));
    assert!(lexer.is_alpha('a'));
    assert!(lexer.is_alpha('_'));
    assert!(!lexer.is_alpha('1'));
    assert!(lexer.is_alphanumeric('a'));
    assert!(lexer.is_alphanumeric('1'));
    assert!(lexer.is_alphanumeric('_'));
    assert!(!lexer.is_alphanumeric(';'));
}

#[test]
fn test_cursor_helpers() {
    let mut lexer = Lexer::new(String::from("ab"));
    assert_eq!(lexer.peek(), 'a');
    assert_eq!(lexer.peek_next(), 'b');
    assert!(!lexer.is_at_end());
    assert_eq!(lexer.advance(), 'a');
    assert!(!lexer.match_char('x'));
    assert!(lexer.match_char('b'));
    assert!(lexer.is_at_end());
    assert_eq!(lexer.advance(), '\0');
}
