use lpm::compiler::lexer::Lexer;
use lpm::compiler::lexer::MalformedInput;
use lpm::compiler::lexer::Token;

fn tokens_of(input: &str) -> Vec<Token> {
    let mut lexer = Lexer::new(input);
    let mut out = Vec::new();
    loop {
        let t = lexer.next_token().expect("tokenizer failed");
        if t == Token::Eof {
            break;
        }
        out.push(t);
    }
    out
}

#[test]
fn scenario_comment_then_assignment() {
    // input `--[[ c ]] local x = "hi"` tokenizes to Comment, Whitespace,
    // Keyword(local), Whitespace, Identifier(x), Whitespace, Symbol(=),
    // Whitespace, StringLiteral(hi)
    let toks = tokens_of("--[[ c ]] local x = \"hi\"");
    assert_eq!(
        toks,
        vec![
            Token::Comment(" c ".to_string()),
            Token::Whitespace,
            Token::Keyword("local".to_string()),
            Token::Whitespace,
            Token::Identifier("x".to_string()),
            Token::Whitespace,
            Token::Symbol('='),
            Token::Whitespace,
            Token::StringLiteral("hi".to_string()),
        ]
    );
}

#[test]
fn keywords_and_identifiers() {
    let toks = tokens_of("if localx then end");
    assert_eq!(
        toks,
        vec![
            Token::Keyword("if".to_string()),
            Token::Whitespace,
            Token::Identifier("localx".to_string()),
            Token::Whitespace,
            Token::Keyword("then".to_string()),
            Token::Whitespace,
            Token::Keyword("end".to_string()),
        ]
    );
}

#[test]
fn numbers_keep_digits_and_dots() {
    let toks = tokens_of("3.14+7");
    assert_eq!(
        toks,
        vec![
            Token::Number("3.14".to_string()),
            Token::Symbol('+'),
            Token::Number("7".to_string()),
        ]
    );
}

#[test]
fn quoted_string_escape_consumes_next_char_verbatim() {
    // a backslash escape keeps the following character, dropping the
    // backslash; no named-escape interpretation
    let toks = tokens_of("'a\\\"b' \"c\\nd\"");
    assert_eq!(toks[0], Token::StringLiteral("a\"b".to_string()));
    assert_eq!(toks[2], Token::StringLiteral("cnd".to_string()));
}

#[test]
fn bracket_string_levels_must_match() {
    // a level-1 string is not closed by a level-0 closer
    let toks = tokens_of("[=[a]]b]=]");
    assert_eq!(toks, vec![Token::StringLiteral("a]]b".to_string())]);
}

#[test]
fn bracket_string_drops_one_leading_newline() {
    let toks = tokens_of("[[\nline]]");
    assert_eq!(toks, vec![Token::StringLiteral("line".to_string())]);
}

#[test]
fn block_comment_with_level_checked_closer() {
    let toks = tokens_of("--[==[ x ]] ]==]y");
    assert_eq!(
        toks,
        vec![
            Token::Comment(" x ]] ".to_string()),
            Token::Identifier("y".to_string()),
        ]
    );
}

#[test]
fn line_comment_runs_to_end_of_line() {
    let toks = tokens_of("-- note\nx");
    assert_eq!(
        toks,
        vec![
            Token::Comment(" note".to_string()),
            Token::Whitespace,
            Token::Identifier("x".to_string()),
        ]
    );
}

#[test]
fn lone_bracket_is_a_symbol() {
    let toks = tokens_of("a[1]");
    assert_eq!(
        toks,
        vec![
            Token::Identifier("a".to_string()),
            Token::Symbol('['),
            Token::Number("1".to_string()),
            Token::Symbol(']'),
        ]
    );
}

#[test]
fn unterminated_bracket_string_is_malformed() {
    let mut lexer = Lexer::new("x [[never closed");
    assert_eq!(lexer.next_token(), Ok(Token::Identifier("x".to_string())));
    assert_eq!(lexer.next_token(), Ok(Token::Whitespace));
    assert_eq!(lexer.next_token(), Err(MalformedInput { position: 2 }));
}

#[test]
fn unterminated_block_comment_is_malformed() {
    let mut lexer = Lexer::new("--[[ open");
    assert_eq!(lexer.next_token(), Err(MalformedInput { position: 0 }));
}

#[test]
fn eof_is_idempotent() {
    let mut lexer = Lexer::new("x");
    assert_eq!(lexer.next_token(), Ok(Token::Identifier("x".to_string())));
    assert_eq!(lexer.next_token(), Ok(Token::Eof));
    assert_eq!(lexer.next_token(), Ok(Token::Eof));
    assert_eq!(lexer.next_token(), Ok(Token::Eof));
}
