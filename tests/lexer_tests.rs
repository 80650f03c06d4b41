use burn_lang::lexer::{keywords, scan_token, scan_tokens, tokenize, LexError, Lexer, Token, TokenType};

fn kinds(src: &str) -> Vec<TokenType> {
    tokenize(src.to_string()).unwrap().iter().map(|t| t.kind).collect()
}

fn texts(src: &str) -> Vec<String> {
    tokenize(src.to_string()).unwrap().iter().map(|t| t.value.clone()).collect()
}

#[test]
fn var_declaration_tokens() {
    let toks = tokenize("burn x = 5".to_string()).unwrap();
    let k: Vec<TokenType> = toks.iter().map(|t| t.kind).collect();
    assert_eq!(k, vec![TokenType::Var, TokenType::Word, TokenType::Equal, TokenType::Number, TokenType::Eof]);
    assert_eq!(toks[1].value, "x");
    assert_eq!(toks[3].value, "5");
    for t in &toks {
        assert_eq!(t.value, t.content);
    }
}

#[test]
fn empty_source_is_only_eof() {
    let toks = tokenize(String::new()).unwrap();
    assert_eq!(toks.len(), 1);
    assert_eq!(toks[0].kind, TokenType::Eof);
    assert_eq!(toks[0].value, "");
}

#[test]
fn punctuation_and_operators() {
    assert_eq!(
        kinds("( ) { } [ ] , + - * / % : ."),
        vec![
            TokenType::LeftParen,
            TokenType::RightParen,
            TokenType::LeftBrace,
            TokenType::RightBrace,
            TokenType::LeftBracket,
            TokenType::RightBracket,
            TokenType::Comma,
            TokenType::Plus,
            TokenType::Minus,
            TokenType::Times,
            TokenType::Divide,
            TokenType::Modulo,
            TokenType::Colon,
            TokenType::Period,
            TokenType::Eof,
        ]
    );
}

#[test]
fn comparisons_use_one_character_lookahead() {
    assert_eq!(
        kinds("< <= > >="),
        vec![
            TokenType::LessThan,
            TokenType::LessThanOrEqual,
            TokenType::GreaterThan,
            TokenType::GreaterThanOrEqual,
            TokenType::Eof,
        ]
    );
    assert_eq!(texts("<= >="), vec!["<=", ">=", ""]);
}

// `==` has no token of its own: it comes out as the `<=` token.
#[test]
fn double_equals_lexes_as_less_than_or_equal() {
    assert_eq!(kinds("a == b"), vec![TokenType::Word, TokenType::LessThanOrEqual, TokenType::Word, TokenType::Eof]);
    assert_eq!(texts("=="), vec!["<=", ""]);
    assert_eq!(kinds("="), vec![TokenType::Equal, TokenType::Eof]);
}

#[test]
fn keywords_are_recognised() {
    assert_eq!(
        kinds("return burn for through prepmatch while lightertype pullout if elif else True False and or"),
        vec![
            TokenType::Return,
            TokenType::Var,
            TokenType::For,
            TokenType::Range,
            TokenType::Func,
            TokenType::While,
            TokenType::Class,
            TokenType::New,
            TokenType::If,
            TokenType::Elif,
            TokenType::Else,
            TokenType::True,
            TokenType::False,
            TokenType::And,
            TokenType::Or,
            TokenType::Eof,
        ]
    );
    assert_eq!(kinds("true burnt"), vec![TokenType::Word, TokenType::Word, TokenType::Eof]);
}

#[test]
fn keyword_table_has_fifteen_entries() {
    let table = keywords();
    assert_eq!(table.len(), 15);
    assert_eq!(table[0].0, "return");
    assert_eq!(table[0].1, TokenType::Return);
    assert_eq!(table[1].0, "burn");
    assert_eq!(table[1].1, TokenType::Var);
}

#[test]
fn identifiers_stop_at_digits_and_underscores() {
    assert_eq!(texts("ab1"), vec!["ab", "1", ""]);
    assert_eq!(kinds("ab1"), vec![TokenType::Word, TokenType::Number, TokenType::Eof]);
    let err = tokenize("a_b".to_string()).unwrap_err();
    assert_eq!(err, LexError::UnexpectedCharacter { character: '_', line: 0 });
}

#[test]
fn non_ascii_letters_are_alphabetic() {
    assert_eq!(texts("héllo"), vec!["héllo", ""]);
    assert_eq!(kinds("日本"), vec![TokenType::Word, TokenType::Eof]);
}

#[test]
fn numbers_integral_and_fractional() {
    assert_eq!(texts("12 3.25"), vec!["12", "3.25", ""]);
    assert_eq!(kinds("12 3.25"), vec![TokenType::Number, TokenType::Number, TokenType::Eof]);
}

#[test]
fn number_point_without_digit_is_a_period() {
    assert_eq!(texts("5."), vec!["5", ".", ""]);
    assert_eq!(kinds("5.x"), vec![TokenType::Number, TokenType::Period, TokenType::Word, TokenType::Eof]);
    assert_eq!(texts("1.2.3"), vec!["1.2", ".", "3", ""]);
}

#[test]
fn strings_with_both_quotes_and_no_escapes() {
    assert_eq!(texts("\"a b\" 'c\\n'"), vec!["a b", "c\\n", ""]);
    assert_eq!(kinds("'x'"), vec![TokenType::String, TokenType::Eof]);
    assert_eq!(texts("\"it's\""), vec!["it's", ""]);
    assert_eq!(texts("''"), vec!["", ""]);
}

#[test]
fn unterminated_string_fails() {
    let err = tokenize("\"abc".to_string()).unwrap_err();
    assert_eq!(err, LexError::UnterminatedString { line: 0 });
}

#[test]
fn unterminated_string_reports_last_line() {
    let err = tokenize("x\n'ab\ncd".to_string()).unwrap_err();
    assert_eq!(err, LexError::UnterminatedString { line: 2 });
}

#[test]
fn unexpected_character_reports_line() {
    let err = tokenize("burn x = 1\n\n  @".to_string()).unwrap_err();
    assert_eq!(err, LexError::UnexpectedCharacter { character: '@', line: 2 });
}

#[test]
fn comments_and_blank_space_are_skipped() {
    assert_eq!(kinds("# a comment\n\tx # more\n"), vec![TokenType::Word, TokenType::Eof]);
    assert_eq!(kinds("#"), vec![TokenType::Eof]);
}

#[test]
fn relexing_gives_identical_tokens() {
    let src = "prepmatch f(a) { return a[.b](1, 'x') }";
    let a = tokenize(src.to_string()).unwrap();
    let b = tokenize(src.to_string()).unwrap();
    assert_eq!(a.len(), b.len());
    for (x, y) in a.iter().zip(b.iter()) {
        assert_eq!(x.kind, y.kind);
        assert_eq!(x.value, y.value);
        assert_eq!(x.content, y.content);
    }
}

#[test]
fn lexer_cursor_methods() {
    let mut lexer = Lexer::new("ab".to_string());
    assert_eq!(lexer.peek(), 'a');
    assert_eq!(lexer.peek_next(), 'b');
    assert!(!lexer.match_char('x'));
    assert!(lexer.match_char('a'));
    assert_eq!(lexer.peek_next(), '\0');
    assert_eq!(lexer.advance(), 'b');
    assert_eq!(lexer.peek(), '\0');
    assert_eq!(lexer.advance(), '\0');
}

#[test]
fn scan_token_reads_one_token() {
    let mut lexer = Lexer::new("<= x".to_string());
    scan_token(&mut lexer).unwrap();
    assert_eq!(lexer.tokens.len(), 1);
    assert_eq!(lexer.tokens[0].kind, TokenType::LessThanOrEqual);
    scan_tokens(&mut lexer).unwrap();
    assert_eq!(lexer.tokens.len(), 3);
    assert_eq!(lexer.tokens[2].kind, TokenType::Eof);
}

#[test]
fn add_token_appends() {
    let mut lexer = Lexer::new(String::new());
    lexer.add_token(TokenType::Word, "w".to_string(), "w".to_string());
    assert_eq!(lexer.tokens.len(), 1);
    let t = Token::new(TokenType::Comma, ",".to_string(), ",".to_string());
    assert_eq!(t.kind, TokenType::Comma);
    assert_eq!(t.value, ",");
}
