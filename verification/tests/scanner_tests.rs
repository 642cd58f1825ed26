use craftinginterpreters::LoxError;
use craftinginterpreters::Scanner;
use craftinginterpreters::Token;
use craftinginterpreters::TokenType;

fn scan(source: &str) -> Result<Vec<Token>, LoxError> {
    Scanner::new(source).scan_tokens()
}

fn scan_ok(source: &str) -> Vec<Token> {
    match scan(source) {
        Ok(tokens) => tokens,
        Err(LoxError::ParseError { line, message }) => {
            panic!("unexpected lexical error at line {}: {}", line, message)
        },
    }
}

fn scan_err(source: &str) -> (usize, String) {
    match scan(source) {
        Ok(tokens) => panic!("expected a lexical error, got {} tokens", tokens.len()),
        Err(LoxError::ParseError { line, message }) => (line, message),
    }
}

#[test]
fn empty_source_yields_only_eof() {
    let tokens = scan_ok("");
    assert_eq!(tokens.len(), 1);
    assert_eq!(tokens[0].token_type, TokenType::EOF);
    assert_eq!(tokens[0].lexeme, "");
    assert_eq!(tokens[0].line, 1);
}

#[test]
fn whitespace_and_comment_yield_only_eof() {
    let tokens = scan_ok("  \t\r// nothing to see");
    assert_eq!(tokens.len(), 1);
    assert_eq!(tokens[0].token_type, TokenType::EOF);
    assert_eq!(tokens[0].line, 1);
}

#[test]
fn multiline_insignificant_text_ends_on_final_line() {
    let tokens = scan_ok(" // first line\n\t\n");
    assert_eq!(tokens.len(), 1);
    assert_eq!(tokens[0].token_type, TokenType::EOF);
    assert_eq!(tokens[0].line, 3);
}

#[test]
fn single_character_punctuation() {
    let tokens = scan_ok("(){},.-+;*");
    let expected = vec![
        TokenType::LEFT_PAREN,
        TokenType::RIGHT_PAREN,
        TokenType::LEFT_BRACE,
        TokenType::RIGHT_BRACE,
        TokenType::COMMA,
        TokenType::DOT,
        TokenType::MINUS,
        TokenType::PLUS,
        TokenType::SEMICOLON,
        TokenType::STAR,
        TokenType::EOF,
    ];
    assert_eq!(tokens.len(), expected.len());
    for (token, kind) in tokens.iter().zip(expected.iter()) {
        assert_eq!(token.token_type, *kind);
        assert_eq!(token.line, 1);
    }
}

#[test]
fn two_char_operator_wins_over_one_char() {
    let cases = vec![
        ("!=", TokenType::BANG_EQUAL),
        ("==", TokenType::EQUAL_EQUAL),
        ("<=", TokenType::LESS_EQUAL),
        (">=", TokenType::GREATER_EQUAL),
    ];
    for (source, kind) in cases {
        let tokens = scan_ok(source);
        assert_eq!(tokens.len(), 2);
        assert_eq!(tokens[0].token_type, kind);
        assert_eq!(tokens[0].lexeme, source);
        assert_eq!(tokens[1].token_type, TokenType::EOF);
    }
}

#[test]
fn one_char_operators_without_equals() {
    let cases = vec![
        ("!", TokenType::BANG),
        ("=", TokenType::EQUAL),
        ("<", TokenType::LESS),
        (">", TokenType::GREATER),
    ];
    for (source, kind) in cases {
        let tokens = scan_ok(source);
        assert_eq!(tokens.len(), 2);
        assert_eq!(tokens[0].token_type, kind);
        assert_eq!(tokens[0].lexeme, source);
    }
}

#[test]
fn bang_equal_then_equal() {
    let tokens = scan_ok("!==");
    assert_eq!(tokens.len(), 3);
    assert_eq!(tokens[0].token_type, TokenType::BANG_EQUAL);
    assert_eq!(tokens[0].lexeme, "!=");
    assert_eq!(tokens[1].token_type, TokenType::EQUAL);
    assert_eq!(tokens[1].lexeme, "=");
    assert_eq!(tokens[2].token_type, TokenType::EOF);
}

#[test]
fn identifier_lexeme_round_trips() {
    let tokens = scan_ok("foo_bar123");
    assert_eq!(tokens.len(), 2);
    assert_eq!(tokens[0].token_type, TokenType::IDENTIFIER);
    assert_eq!(tokens[0].lexeme, "foo_bar123");
    assert_eq!(tokens[0].line, 1);
    assert_eq!(tokens[1].token_type, TokenType::EOF);
}

#[test]
fn every_keyword_spelling_yields_its_keyword_kind() {
    let cases = vec![
        ("and", TokenType::AND),
        ("class", TokenType::CLASS),
        ("else", TokenType::ELSE),
        ("false", TokenType::FALSE),
        ("fun", TokenType::FUN),
        ("for", TokenType::FOR),
        ("if", TokenType::IF),
        ("nil", TokenType::NIL),
        ("or", TokenType::OR),
        ("print", TokenType::PRINT),
        ("return", TokenType::RETURN),
        ("super", TokenType::SUPER),
        ("this", TokenType::THIS),
        ("true", TokenType::TRUE),
        ("var", TokenType::VAR),
        ("while", TokenType::WHILE),
    ];
    for (source, kind) in cases {
        let tokens = scan_ok(source);
        assert_eq!(tokens.len(), 2);
        assert_eq!(tokens[0].token_type, kind);
        assert_eq!(tokens[0].lexeme, source);
    }
}

#[test]
fn keyword_precedence_holds_in_context() {
    let tokens = scan_ok("while (true) print x;");
    assert_eq!(tokens[0].token_type, TokenType::WHILE);
    assert_eq!(tokens[1].token_type, TokenType::LEFT_PAREN);
    assert_eq!(tokens[2].token_type, TokenType::TRUE);
    assert_eq!(tokens[3].token_type, TokenType::RIGHT_PAREN);
    assert_eq!(tokens[4].token_type, TokenType::PRINT);
    assert_eq!(tokens[5].token_type, TokenType::IDENTIFIER);
    assert_eq!(tokens[6].token_type, TokenType::SEMICOLON);
    assert_eq!(tokens[7].token_type, TokenType::EOF);
}

#[test]
fn keyword_matching_is_exact_and_case_sensitive() {
    let cases = vec!["While", "whilex", "orchid", "format", "superb", "_if"];
    for source in cases {
        let tokens = scan_ok(source);
        assert_eq!(tokens.len(), 2);
        assert_eq!(tokens[0].token_type, TokenType::IDENTIFIER);
        assert_eq!(tokens[0].lexeme, source);
    }
}

#[test]
fn line_numbers_are_monotone_and_end_at_newline_count_plus_one() {
    let tokens = scan_ok("a\nb\n");
    assert_eq!(tokens.len(), 3);
    assert_eq!(tokens[0].lexeme, "a");
    assert_eq!(tokens[0].line, 1);
    assert_eq!(tokens[1].lexeme, "b");
    assert_eq!(tokens[1].line, 2);
    assert_eq!(tokens[2].token_type, TokenType::EOF);
    assert_eq!(tokens[2].line, 3);
    for pair in tokens.windows(2) {
        assert!(pair[0].line <= pair[1].line);
    }
}

#[test]
fn string_spanning_two_lines() {
    let tokens = scan_ok("\"hi\nthere\"");
    assert_eq!(tokens.len(), 2);
    assert_eq!(tokens[0].token_type, TokenType::STRING);
    assert_eq!(tokens[0].lexeme, "hi\nthere");
    assert_eq!(tokens[0].line, 2);
    assert_eq!(tokens[1].token_type, TokenType::EOF);
    assert_eq!(tokens[1].line, 2);
}

#[test]
fn string_quotes_are_stripped_and_backslashes_stay() {
    let tokens = scan_ok("\"a\\nb\"");
    assert_eq!(tokens.len(), 2);
    assert_eq!(tokens[0].token_type, TokenType::STRING);
    assert_eq!(tokens[0].lexeme, "a\\nb");
    assert_eq!(tokens[0].line, 1);
}

#[test]
fn empty_string_literal() {
    let tokens = scan_ok("\"\"");
    assert_eq!(tokens.len(), 2);
    assert_eq!(tokens[0].token_type, TokenType::STRING);
    assert_eq!(tokens[0].lexeme, "");
}

#[test]
fn number_with_trailing_dot_splits() {
    let tokens = scan_ok("123.");
    assert_eq!(tokens.len(), 3);
    assert_eq!(tokens[0].token_type, TokenType::NUMBER);
    assert_eq!(tokens[0].lexeme, "123");
    assert_eq!(tokens[1].token_type, TokenType::DOT);
    assert_eq!(tokens[1].lexeme, ".");
    assert_eq!(tokens[2].token_type, TokenType::EOF);
}

#[test]
fn decimal_number_is_one_token() {
    let tokens = scan_ok("123.45");
    assert_eq!(tokens.len(), 2);
    assert_eq!(tokens[0].token_type, TokenType::NUMBER);
    assert_eq!(tokens[0].lexeme, "123.45");
    let value: f64 = tokens[0].lexeme.parse().unwrap();
    assert_eq!(value, 123.45);
}

#[test]
fn number_takes_at_most_one_fraction() {
    let tokens = scan_ok("123.45.67");
    assert_eq!(tokens.len(), 4);
    assert_eq!(tokens[0].token_type, TokenType::NUMBER);
    assert_eq!(tokens[0].lexeme, "123.45");
    assert_eq!(tokens[1].token_type, TokenType::DOT);
    assert_eq!(tokens[2].token_type, TokenType::NUMBER);
    assert_eq!(tokens[2].lexeme, "67");
}

#[test]
fn slash_alone_is_a_token_and_comment_is_not() {
    let tokens = scan_ok("/");
    assert_eq!(tokens.len(), 2);
    assert_eq!(tokens[0].token_type, TokenType::SLASH);
    let tokens = scan_ok("1/2");
    assert_eq!(tokens.len(), 4);
    assert_eq!(tokens[0].token_type, TokenType::NUMBER);
    assert_eq!(tokens[1].token_type, TokenType::SLASH);
    assert_eq!(tokens[2].token_type, TokenType::NUMBER);
}

#[test]
fn unterminated_string_reports_its_line() {
    let (line, message) = scan_err("\"abc");
    assert_eq!(line, 1);
    assert_eq!(message, "Unterminated string.");
}

#[test]
fn unterminated_string_line_counts_inner_newlines() {
    let (line, message) = scan_err("\"a\nb");
    assert_eq!(line, 2);
    assert_eq!(message, "Unterminated string.");
}

#[test]
fn unexpected_character_reports_its_line() {
    let (line, message) = scan_err("@");
    assert_eq!(line, 1);
    assert_eq!(message, "Unexpected character.");
    let (line, message) = scan_err("\n\n@");
    assert_eq!(line, 3);
    assert_eq!(message, "Unexpected character.");
}

#[test]
fn error_stops_the_scan_without_tokens() {
    let result = scan("(@");
    assert!(matches!(result, Err(LoxError::ParseError { line: 1, .. })));
}

#[test]
fn comment_line_emits_nothing_and_next_token_is_one_line_later() {
    let tokens = scan_ok("// comment\nfoo");
    assert_eq!(tokens.len(), 2);
    assert_eq!(tokens[0].token_type, TokenType::IDENTIFIER);
    assert_eq!(tokens[0].lexeme, "foo");
    assert_eq!(tokens[0].line, 2);
    assert_eq!(tokens[1].token_type, TokenType::EOF);
}

#[test]
fn eof_token_always_ends_a_successful_scan() {
    let sources = vec!["", "x", "1 + 2", "\"s\"", "// c", "(((", "\n\n\n"];
    for source in sources {
        let tokens = scan_ok(source);
        let last = tokens.last().unwrap();
        assert_eq!(last.token_type, TokenType::EOF);
        assert_eq!(last.lexeme, "");
    }
}
