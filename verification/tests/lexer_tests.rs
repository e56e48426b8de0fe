use quark::lexer::LexError;
use quark::Lexer;
use quark::TokenType;

#[test]
fn test_simple_tokens() {
    let mut lexer = Lexer::new("+ - * / ** == !=");
    let tokens = lexer.tokenize().unwrap();

    assert_eq!(tokens[0].token_type, TokenType::Plus);
    assert_eq!(tokens[1].token_type, TokenType::Minus);
    assert_eq!(tokens[2].token_type, TokenType::Star);
    assert_eq!(tokens[3].token_type, TokenType::Slash);
    assert_eq!(tokens[4].token_type, TokenType::Power);
    assert_eq!(tokens[5].token_type, TokenType::EqualsEquals);
    assert_eq!(tokens[6].token_type, TokenType::NotEquals);
}

#[test]
fn test_numbers() {
    let mut lexer = Lexer::new("42 3.14 .5 2.");
    let tokens = lexer.tokenize().unwrap();

    assert_eq!(tokens[0].token_type, TokenType::Integer);
    assert_eq!(tokens[0].lexeme, "42");
    assert_eq!(tokens[1].token_type, TokenType::Float);
    assert_eq!(tokens[1].lexeme, "3.14");
    assert_eq!(tokens[2].token_type, TokenType::Float);
    assert_eq!(tokens[2].lexeme, ".5");
}

#[test]
fn test_keywords() {
    let mut lexer = Lexer::new("fn if else while for");
    let tokens = lexer.tokenize().unwrap();

    assert_eq!(tokens[0].token_type, TokenType::Fn);
    assert_eq!(tokens[1].token_type, TokenType::If);
    assert_eq!(tokens[2].token_type, TokenType::Else);
    assert_eq!(tokens[3].token_type, TokenType::While);
    assert_eq!(tokens[4].token_type, TokenType::For);
}

#[test]
fn test_tokenize_deterministic() {
    let source = "fn add x, y:\n    x + y\n// note\nadd 1, 2\n";
    let first = Lexer::new(source).tokenize().unwrap();
    let second = Lexer::new(source).tokenize().unwrap();
    assert_eq!(first.len(), second.len());
    for (a, b) in first.iter().zip(second.iter()) {
        assert_eq!(a.token_type, b.token_type);
        assert_eq!(a.lexeme, b.lexeme);
        assert_eq!(a.line, b.line);
        assert_eq!(a.column, b.column);
    }
}

#[test]
fn test_indent_dedent_balance() {
    let source = "if x:\n    if y:\n        z\nw\n";
    let tokens = Lexer::new(source).tokenize().unwrap();
    let indents = tokens
        .iter()
        .filter(|t| t.token_type == TokenType::Indent)
        .count();
    let dedents = tokens
        .iter()
        .filter(|t| t.token_type == TokenType::Dedent)
        .count();
    assert_eq!(indents, 2);
    assert_eq!(indents, dedents);
}

#[test]
fn test_eof_unique_and_last() {
    for source in ["", "x + y", "if a:\n    b", "// only a comment\n"] {
        let tokens = Lexer::new(source).tokenize().unwrap();
        let eofs = tokens
            .iter()
            .filter(|t| t.token_type == TokenType::Eof)
            .count();
        assert_eq!(eofs, 1);
        assert_eq!(tokens.last().unwrap().token_type, TokenType::Eof);
    }
}

#[test]
fn test_indent_only_after_colon() {
    let gated = Lexer::new("if x:\n    y").tokenize().unwrap();
    assert!(gated.iter().any(|t| t.token_type == TokenType::Indent));

    let ungated = Lexer::new("x\n    y").tokenize().unwrap();
    assert!(!ungated.iter().any(|t| t.token_type == TokenType::Indent));
}

#[test]
fn test_tab_counts_four_columns() {
    // A tab opens a block over a four-space level, since its width is four.
    let source = "if x:\n    y\n";
    let tokens = Lexer::new(source).tokenize().unwrap();
    let tab_source = "if x:\n\ty\n";
    let tab_tokens = Lexer::new(tab_source).tokenize().unwrap();
    let kinds: Vec<_> = tokens.iter().map(|t| t.token_type).collect();
    let tab_kinds: Vec<_> = tab_tokens.iter().map(|t| t.token_type).collect();
    assert_eq!(kinds, tab_kinds);
}

#[test]
fn test_string_escapes() {
    let tokens = Lexer::new("'a\\nb\\t\\\\\\'c'").tokenize().unwrap();
    assert_eq!(tokens[0].token_type, TokenType::String);
    assert_eq!(tokens[0].lexeme, "a\nb\t\\'c");
}

#[test]
fn test_range_is_not_float() {
    let tokens = Lexer::new("1..5").tokenize().unwrap();
    assert_eq!(tokens[0].token_type, TokenType::Integer);
    assert_eq!(tokens[0].lexeme, "1");
    assert_eq!(tokens[1].token_type, TokenType::DotDot);
    assert_eq!(tokens[2].token_type, TokenType::Integer);
    assert_eq!(tokens[2].lexeme, "5");
}

#[test]
fn test_unterminated_string_position() {
    let err = Lexer::new("x\n    'abc").tokenize().unwrap_err();
    assert_eq!(err, LexError::UnterminatedString { line: 2, col: 5 });
}

#[test]
fn test_unexpected_character() {
    let err = Lexer::new("a $ b").tokenize().unwrap_err();
    assert_eq!(
        err,
        LexError::UnexpectedCharacter {
            ch: '$',
            line: 1,
            col: 3
        }
    );
}

#[test]
fn test_keyword_type_lookup() {
    assert_eq!(quark::token::keyword_type("use"), Some(TokenType::Use));
    assert_eq!(quark::token::keyword_type("when"), Some(TokenType::When));
    assert_eq!(quark::token::keyword_type("class"), Some(TokenType::Class));
    assert_eq!(quark::token::keyword_type("usez"), None);
    assert_eq!(quark::token::keyword_type(""), None);
}

#[test]
fn test_comments_produce_no_tokens() {
    let tokens = Lexer::new("// a comment\nx // trailing\n").tokenize().unwrap();
    let kinds: Vec<_> = tokens.iter().map(|t| t.token_type).collect();
    assert_eq!(
        kinds,
        vec![
            TokenType::Identifier,
            TokenType::Newline,
            TokenType::Eof
        ]
    );
}

#[test]
fn test_token_positions() {
    let tokens = Lexer::new("ab + c\nd").tokenize().unwrap();
    assert_eq!((tokens[0].line, tokens[0].column), (1, 1));
    assert_eq!((tokens[1].line, tokens[1].column), (1, 4));
    assert_eq!((tokens[2].line, tokens[2].column), (1, 6));
    // the newline token, then d on line 2
    assert_eq!((tokens[4].line, tokens[4].column), (2, 1));
}
