use rlox::scanner::{Scanner, ScannerError, ScannerErrorType};
use rlox::token::{Token, TokenType};

fn scan(src: &str) -> Result<Vec<Token>, Vec<ScannerError>> {
    Scanner::new(src.as_bytes().to_vec()).scan_tokens()
}

fn scan_ok(src: &str) -> Vec<Token> {
    match scan(src) {
        Ok(tokens) => tokens,
        Err(_) => panic!("expected a successful scan"),
    }
}

fn scan_err(src: &str) -> Vec<ScannerError> {
    match scan(src) {
        Ok(_) => panic!("expected a failed scan"),
        Err(errors) => errors,
    }
}

fn identifier_text(t: &TokenType) -> &[u8] {
    match t {
        TokenType::Identifier(text) => text.as_slice(),
        _ => panic!("expected an identifier token"),
    }
}

fn string_content(t: &TokenType) -> &[u8] {
    match t {
        TokenType::StringLit(content) => content.as_slice(),
        _ => panic!("expected a string token"),
    }
}

fn number_value(t: &TokenType) -> f32 {
    match t {
        TokenType::Number(text) => std::str::from_utf8(text).unwrap().parse().unwrap(),
        _ => panic!("expected a number token"),
    }
}

#[test]
fn empty_input_yields_only_eof() {
    let tokens = scan_ok("");
    assert_eq!(tokens.len(), 1);
    assert!(matches!(tokens[0].type_, TokenType::Eof));
    assert_eq!(tokens[0].lexeme.as_slice(), b"");
    assert_eq!(tokens[0].line, 1);
}

#[test]
fn whitespace_only_yields_eof_with_newline_count() {
    let tokens = scan_ok(" \t\r\n  \n ");
    assert_eq!(tokens.len(), 1);
    assert!(matches!(tokens[0].type_, TokenType::Eof));
    assert_eq!(tokens[0].line, 3);
}

#[test]
fn bang_equal_is_one_token() {
    let tokens = scan_ok("!=");
    assert_eq!(tokens.len(), 2);
    assert!(matches!(tokens[0].type_, TokenType::BangEqual));
    assert_eq!(tokens[0].lexeme.as_slice(), b"!=");
    assert!(matches!(tokens[1].type_, TokenType::Eof));
}

#[test]
fn bang_alone_is_one_token() {
    let tokens = scan_ok("!");
    assert_eq!(tokens.len(), 2);
    assert!(matches!(tokens[0].type_, TokenType::Bang));
    assert_eq!(tokens[0].lexeme.as_slice(), b"!");
}

#[test]
fn number_then_trailing_dot() {
    let tokens = scan_ok("123.");
    assert_eq!(tokens.len(), 3);
    assert_eq!(number_value(&tokens[0].type_), 123.0);
    assert_eq!(tokens[0].lexeme.as_slice(), b"123");
    assert!(matches!(tokens[1].type_, TokenType::Dot));
    assert_eq!(tokens[1].lexeme.as_slice(), b".");
    assert!(matches!(tokens[2].type_, TokenType::Eof));
}

#[test]
fn fractional_number_is_one_token() {
    let tokens = scan_ok("3.14");
    assert_eq!(tokens.len(), 2);
    assert_eq!(number_value(&tokens[0].type_), 3.14);
    assert_eq!(tokens[0].lexeme.as_slice(), b"3.14");
}

#[test]
fn second_dot_ends_the_number() {
    let tokens = scan_ok("1.2.3");
    assert_eq!(tokens.len(), 4);
    assert_eq!(tokens[0].lexeme.as_slice(), b"1.2");
    assert!(matches!(tokens[1].type_, TokenType::Dot));
    assert_eq!(tokens[2].lexeme.as_slice(), b"3");
}

#[test]
fn keyword_prefix_is_an_identifier() {
    let tokens = scan_ok("classic");
    assert_eq!(tokens.len(), 2);
    assert_eq!(identifier_text(&tokens[0].type_), b"classic");
    assert_eq!(tokens[0].lexeme.as_slice(), b"classic");
}

#[test]
fn all_keywords_are_recognized() {
    let tokens = scan_ok(
        "and class else false for fun if nil or print return super this true var while",
    );
    assert_eq!(tokens.len(), 17);
    assert!(matches!(tokens[0].type_, TokenType::And));
    assert!(matches!(tokens[1].type_, TokenType::Class));
    assert!(matches!(tokens[2].type_, TokenType::Else));
    assert!(matches!(tokens[3].type_, TokenType::False));
    assert!(matches!(tokens[4].type_, TokenType::For));
    assert!(matches!(tokens[5].type_, TokenType::Fun));
    assert!(matches!(tokens[6].type_, TokenType::If));
    assert!(matches!(tokens[7].type_, TokenType::Nil));
    assert!(matches!(tokens[8].type_, TokenType::Or));
    assert!(matches!(tokens[9].type_, TokenType::Print));
    assert!(matches!(tokens[10].type_, TokenType::Return));
    assert!(matches!(tokens[11].type_, TokenType::Super));
    assert!(matches!(tokens[12].type_, TokenType::This));
    assert!(matches!(tokens[13].type_, TokenType::True));
    assert!(matches!(tokens[14].type_, TokenType::Var));
    assert!(matches!(tokens[15].type_, TokenType::While));
    assert!(matches!(tokens[16].type_, TokenType::Eof));
}

#[test]
fn underscore_starts_an_identifier() {
    let tokens = scan_ok("_x1");
    assert_eq!(identifier_text(&tokens[0].type_), b"_x1");
}

#[test]
fn operator_lexemes_round_trip() {
    let src = "(){},.-+;*/ ! != = == < <= > >=";
    let expected: &[(&str, fn(&TokenType) -> bool)] = &[
        ("(", |t| matches!(t, TokenType::LeftParen)),
        (")", |t| matches!(t, TokenType::RightParen)),
        ("{", |t| matches!(t, TokenType::LeftBrace)),
        ("}", |t| matches!(t, TokenType::RightBrace)),
        (",", |t| matches!(t, TokenType::Comma)),
        (".", |t| matches!(t, TokenType::Dot)),
        ("-", |t| matches!(t, TokenType::Minus)),
        ("+", |t| matches!(t, TokenType::Plus)),
        (";", |t| matches!(t, TokenType::Semicolon)),
        ("*", |t| matches!(t, TokenType::Star)),
        ("/", |t| matches!(t, TokenType::Slash)),
        ("!", |t| matches!(t, TokenType::Bang)),
        ("!=", |t| matches!(t, TokenType::BangEqual)),
        ("=", |t| matches!(t, TokenType::Equal)),
        ("==", |t| matches!(t, TokenType::EqualEqual)),
        ("<", |t| matches!(t, TokenType::Less)),
        ("<=", |t| matches!(t, TokenType::LessEqual)),
        (">", |t| matches!(t, TokenType::Greater)),
        (">=", |t| matches!(t, TokenType::GreaterEqual)),
    ];
    let tokens = scan_ok(src);
    assert_eq!(tokens.len(), expected.len() + 1);
    for (token, (lexeme, is_kind)) in tokens.iter().zip(expected.iter()) {
        assert!(is_kind(&token.type_));
        assert_eq!(token.lexeme.as_slice(), lexeme.as_bytes());
    }
}

#[test]
fn comment_is_elided_and_newline_counted() {
    let tokens = scan_ok("// hi\n42");
    assert_eq!(tokens.len(), 2);
    assert_eq!(number_value(&tokens[0].type_), 42.0);
    assert_eq!(tokens[0].line, 2);
    assert!(matches!(tokens[1].type_, TokenType::Eof));
    assert_eq!(tokens[1].line, 2);
}

#[test]
fn comment_at_end_of_input() {
    let tokens = scan_ok("//x");
    assert_eq!(tokens.len(), 1);
    assert!(matches!(tokens[0].type_, TokenType::Eof));
    assert_eq!(tokens[0].line, 1);
}

#[test]
fn string_literal_strips_quotes() {
    let tokens = scan_ok("\"hello\"");
    assert_eq!(tokens.len(), 2);
    assert_eq!(string_content(&tokens[0].type_), b"hello");
    assert_eq!(tokens[0].lexeme.as_slice(), b"\"hello\"");
    assert_eq!(tokens[0].line, 1);
}

#[test]
fn multi_line_string_is_stamped_with_its_ending_line() {
    let tokens = scan_ok("\"a\nb\"");
    assert_eq!(tokens.len(), 2);
    assert_eq!(string_content(&tokens[0].type_), b"a\nb");
    assert_eq!(tokens[0].line, 2);
}

#[test]
fn unterminated_string_fails_with_one_diagnostic() {
    let errors = scan_err("\"abc");
    assert_eq!(errors.len(), 1);
    assert!(matches!(errors[0].error, ScannerErrorType::UnterminatedString));
    assert_eq!(errors[0].line, 1);
}

#[test]
fn unterminated_string_reports_the_line_reached() {
    let errors = scan_err("\"a\nb");
    assert_eq!(errors.len(), 1);
    assert!(matches!(errors[0].error, ScannerErrorType::UnterminatedString));
    assert_eq!(errors[0].line, 2);
}

#[test]
fn two_unexpected_characters_accumulate() {
    let errors = scan_err("@ # 5");
    assert_eq!(errors.len(), 2);
    assert!(matches!(errors[0].error, ScannerErrorType::UnexpectedCharacter(b'@')));
    assert_eq!(errors[0].line, 1);
    assert!(matches!(errors[1].error, ScannerErrorType::UnexpectedCharacter(b'#')));
    assert_eq!(errors[1].line, 1);
}

#[test]
fn unexpected_character_line_is_tracked() {
    let errors = scan_err("1\n@");
    assert_eq!(errors.len(), 1);
    assert!(matches!(errors[0].error, ScannerErrorType::UnexpectedCharacter(b'@')));
    assert_eq!(errors[0].line, 2);
}

#[test]
fn var_declaration_end_to_end() {
    let tokens = scan_ok("var x = 10;");
    assert_eq!(tokens.len(), 6);
    assert!(matches!(tokens[0].type_, TokenType::Var));
    assert_eq!(identifier_text(&tokens[1].type_), b"x");
    assert!(matches!(tokens[2].type_, TokenType::Equal));
    assert_eq!(number_value(&tokens[3].type_), 10.0);
    assert!(matches!(tokens[4].type_, TokenType::Semicolon));
    assert!(matches!(tokens[5].type_, TokenType::Eof));
    for token in &tokens {
        assert_eq!(token.line, 1);
    }
}

#[test]
fn render_unexpected_character() {
    let errors = scan_err("@");
    assert_eq!(errors[0].render(), b"[line 1] Error: unexpected character '@'".to_vec());
}

#[test]
fn render_unterminated_string() {
    let errors = scan_err("\"oops");
    assert_eq!(errors[0].render(), b"[line 1] Error: unterminated string".to_vec());
}

#[test]
fn render_multi_digit_line_number() {
    let error = ScannerError { error: ScannerErrorType::UnterminatedString, line: 120 };
    assert_eq!(error.render(), b"[line 120] Error: unterminated string".to_vec());
}

#[test]
fn render_non_ascii_byte_as_its_character() {
    let errors = scan_err("é");
    assert_eq!(errors.len(), 2);
    let rendered = errors[0].render();
    let expected = format!("[line 1] Error: unexpected character '{}'", 0xC3u8 as char);
    assert_eq!(rendered, expected.into_bytes());
}

#[test]
fn message_gives_the_kind_specific_text() {
    assert_eq!(ScannerErrorType::UnterminatedString.message(), b"unterminated string".to_vec());
    assert_eq!(
        ScannerErrorType::UnexpectedCharacter(b'%').message(),
        b"unexpected character '%'".to_vec(),
    );
}

#[test]
fn token_new_keeps_its_fields() {
    let token = Token::new(TokenType::Plus, b"+".to_vec(), 7);
    assert!(matches!(token.type_, TokenType::Plus));
    assert_eq!(token.lexeme.as_slice(), b"+");
    assert_eq!(token.line, 7);
}

#[test]
fn every_newline_counts_toward_the_final_line() {
    // newlines appear bare, inside a string literal, and after a comment
    let tokens = scan_ok("var a = 1;\n\"x\ny\"\n// c\n9");
    let eof = tokens.last().unwrap();
    assert!(matches!(eof.type_, TokenType::Eof));
    assert_eq!(eof.line, 5);
    assert_eq!(string_content(&tokens[5].type_), b"x\ny");
    assert_eq!(tokens[5].line, 3);
    assert_eq!(number_value(&tokens[6].type_), 9.0);
    assert_eq!(tokens[6].line, 5);
}

#[test]
fn tokens_before_an_error_are_discarded() {
    let errors = scan_err("var x = 10; @");
    assert_eq!(errors.len(), 1);
    assert!(matches!(errors[0].error, ScannerErrorType::UnexpectedCharacter(b'@')));
}
