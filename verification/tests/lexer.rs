//! Tokens, spans and errors of the lexer.

use flats::lexer::{keyword, LexError, LexErrorKind, Lexer, Span, Token};

fn float(s: &str) -> Token {
    Token::FloatLit(s.to_string())
}

/// Lex `src`, assert the stream ends in `Eof`, drop the `Eof`, and return
/// the bare `Token`s for readable assertions.
fn lex(src: &str) -> Vec<Token> {
    let spanned = Lexer::new(src).tokenize().expect("expected a clean lex");
    let mut tokens: Vec<Token> = spanned.into_iter().map(|st| st.token).collect();
    assert_eq!(
        tokens.last(),
        Some(&Token::Eof),
        "token stream must end in Eof"
    );
    tokens.pop();
    tokens
}

/// Lex `src` expecting failure; return the error.
fn lex_err(src: &str) -> LexError {
    match Lexer::new(src).tokenize() {
        Ok(toks) => panic!("expected a lex error, got {toks:?}"),
        Err(e) => e,
    }
}

fn ident(s: &str) -> Token {
    Token::Ident(s.to_string())
}

// -- unit tests ---------------------------------------------------------

#[test]
fn keywords_are_case_insensitive() {
    assert_eq!(lex("select"), vec![Token::Select]);
    assert_eq!(lex("SELECT"), vec![Token::Select]);
    assert_eq!(lex("SeLeCt"), vec![Token::Select]);
}

#[test]
fn type_names_are_idents_not_keywords() {
    // Design decision (1): VECTOR/INT/TEXT/FLOAT are identifiers so a column
    // can be named `vector` without colliding with the type.
    assert_eq!(lex("vector"), vec![ident("vector")]);
    assert_eq!(lex("VECTOR"), vec![ident("VECTOR")]);
    assert_eq!(lex("INT"), vec![ident("INT")]);
    assert_eq!(lex("text"), vec![ident("text")]);
}

#[test]
fn identifiers_preserve_case_and_allow_underscores() {
    assert_eq!(lex("published_at"), vec![ident("published_at")]);
    assert_eq!(lex("docs"), vec![ident("docs")]);
}

#[test]
fn punctuation_maps_without_surrounding_whitespace() {
    assert_eq!(
        lex("VECTOR(768),"),
        vec![
            ident("VECTOR"),
            Token::LParen,
            Token::IntLit(768),
            Token::RParen,
            Token::Comma,
        ]
    );
}

#[test]
fn integers_versus_floats() {
    assert_eq!(lex("768"), vec![Token::IntLit(768)]);
    assert_eq!(lex("1700000000"), vec![Token::IntLit(1700000000)]);
    assert_eq!(lex("0.1"), vec![float("0.1")]);
}

#[test]
fn trailing_dot_is_not_consumed_into_the_number() {
    // "768." is IntLit(768) followed by an UnexpectedChar('.') — the '.' is
    // only part of a float when a digit follows it.
    let mut lx = Lexer::new("768.");
    assert_eq!(
        lx.next_token().expect("first token").token,
        Token::IntLit(768)
    );
    match lx.next_token() {
        Err(e) => assert_eq!(e.kind, LexErrorKind::UnexpectedChar('.')),
        Ok(t) => panic!("expected UnexpectedChar('.'), got {t:?}"),
    }
}

#[test]
fn negative_number_is_minus_then_number() {
    // Design decision (2): sign is a parser concern.
    assert_eq!(lex("-0.2"), vec![Token::Minus, float("0.2")]);
}

#[test]
fn negative_vector_literal() {
    assert_eq!(
        lex("[-0.1, 0.2, -0.3]"),
        vec![
            Token::LBracket,
            Token::Minus,
            float("0.1"),
            Token::Comma,
            float("0.2"),
            Token::Comma,
            Token::Minus,
            float("0.3"),
            Token::RBracket,
        ]
    );
}

#[test]
fn integer_overflow_is_invalid_number() {
    let err = lex_err("99999999999999999999999"); // 23 digits, overflows i64
    assert!(
        matches!(err.kind, LexErrorKind::InvalidNumber(_)),
        "expected InvalidNumber, got {:?}",
        err.kind
    );
}

#[test]
fn strings_basic_and_with_spaces() {
    assert_eq!(lex("'alice'"), vec![Token::StrLit("alice".to_string())]);
    assert_eq!(lex("'My doc'"), vec![Token::StrLit("My doc".to_string())]);
}

#[test]
fn string_doubled_quote_escape() {
    assert_eq!(lex("'it''s'"), vec![Token::StrLit("it's".to_string())]);
}

#[test]
fn string_round_trips_utf8() {
    assert_eq!(lex("'café ☕'"), vec![Token::StrLit("café ☕".to_string())]);
}

#[test]
fn unterminated_string_errors() {
    let err = lex_err("'abc");
    assert_eq!(err.kind, LexErrorKind::UnterminatedString);
}

#[test]
fn unexpected_char_reports_line_col() {
    let src = "SELECT @ FROM docs";
    let err = lex_err(src);
    assert_eq!(err.kind, LexErrorKind::UnexpectedChar('@'));
    assert_eq!(err.line_col(src), (1, 8));
}

#[test]
fn spans_index_back_into_source() {
    let src = "SELECT x";
    let toks = Lexer::new(src).tokenize().expect("expected a clean lex");
    assert_eq!(toks[0].token, Token::Select);
    assert_eq!(toks[0].span, Span { start: 0, end: 6 });
    assert_eq!(toks[1].token, ident("x"));
    assert_eq!(toks[1].span, Span { start: 7, end: 8 });
    assert_eq!(toks[1].span.slice(src).as_deref(), Some("x"));
}

// -- integration tests: exact full streams (minus Eof) ------------------

#[test]
fn select_statement() {
    assert_eq!(
        lex("SELECT x, y FROM docs;"),
        vec![
            Token::Select,
            ident("x"),
            Token::Comma,
            ident("y"),
            Token::From,
            ident("docs"),
            Token::Semicolon,
        ]
    );
}

#[test]
fn create_collection_statement() {
    let src = "CREATE COLLECTION docs (\n\
               \x20   vector VECTOR(768),\n\
               \x20   author TEXT,\n\
               \x20   title TEXT,\n\
               \x20   published_at INT\n\
               ) WITH (capacity = 1000000);";
    assert_eq!(
        lex(src),
        vec![
            Token::Create,
            Token::Collection,
            ident("docs"),
            Token::LParen,
            // column `vector` and type `VECTOR` are BOTH Ident (decision 1)
            ident("vector"),
            ident("VECTOR"),
            Token::LParen,
            Token::IntLit(768),
            Token::RParen,
            Token::Comma,
            ident("author"),
            ident("TEXT"),
            Token::Comma,
            ident("title"),
            ident("TEXT"),
            Token::Comma,
            ident("published_at"),
            ident("INT"),
            Token::RParen,
            Token::With,
            Token::LParen,
            ident("capacity"),
            Token::Eq,
            Token::IntLit(1000000),
            Token::RParen,
            Token::Semicolon,
        ]
    );
}

#[test]
fn insert_statement_with_vector_literal() {
    let src = "INSERT INTO docs (vector, author, title, published_at) \
               VALUES ([0.1, 0.2, 0.3], 'alice', 'My doc', 1700000000);";
    assert_eq!(
        lex(src),
        vec![
            Token::Insert,
            Token::Into,
            ident("docs"),
            Token::LParen,
            ident("vector"),
            Token::Comma,
            ident("author"),
            Token::Comma,
            ident("title"),
            Token::Comma,
            ident("published_at"),
            Token::RParen,
            Token::Values,
            Token::LParen,
            Token::LBracket,
            float("0.1"),
            Token::Comma,
            float("0.2"),
            Token::Comma,
            float("0.3"),
            Token::RBracket,
            Token::Comma,
            Token::StrLit("alice".to_string()),
            Token::Comma,
            Token::StrLit("My doc".to_string()),
            Token::Comma,
            Token::IntLit(1700000000),
            Token::RParen,
            Token::Semicolon,
        ]
    );
}

// -- beyond the streams above ------------------------------------------------------

#[test]
fn float_text_parses_to_the_float() {
    // The token keeps the spelling; the value is what `f64` parsing makes of it.
    match &lex("0.1")[0] {
        Token::FloatLit(s) => assert_eq!(s.parse::<f64>().unwrap(), 0.1),
        other => panic!("expected a float, got {other:?}"),
    }
}

#[test]
fn the_greatest_integer_still_fits() {
    assert_eq!(lex("9223372036854775807"), vec![Token::IntLit(i64::MAX)]);
    match lex_err("9223372036854775808").kind {
        LexErrorKind::InvalidNumber(s) => assert_eq!(s, "9223372036854775808"),
        other => panic!("expected InvalidNumber, got {other:?}"),
    }
}

#[test]
fn end_of_input_repeats() {
    let mut lx = Lexer::new(" \n\t -- nothing\n");
    for _ in 0..3 {
        assert_eq!(lx.next_token().unwrap().token, Token::Eof);
    }
}

#[test]
fn comments_are_skipped_and_a_single_dash_is_a_token() {
    assert_eq!(lex("- -- not a token\n="), vec![Token::Minus, Token::Eq]);
    assert_eq!(lex("1-2"), vec![Token::IntLit(1), Token::Minus, Token::IntLit(2)]);
    assert_eq!(lex("-- a note; with 'quotes\nSELECT -- to the end"), vec![Token::Select]);
    assert_eq!(lex("'-- text'"), vec![Token::StrLit("-- text".into())]);
}

#[test]
fn positions_count_lines_and_characters() {
    let src = "SELECT\n  é @";
    let err = lex_err(src);
    assert_eq!(err.kind, LexErrorKind::UnexpectedChar('é'));
    assert_eq!(err.line_col(src), (2, 3));
    assert_eq!(err.pos, 9);
}

#[test]
fn errors_have_their_texts() {
    assert_eq!(lex_err("@").to_text(), "unexpected character '@' at byte 0");
    assert_eq!(lex_err(" \u{7}").to_text(), "unexpected character '\\u{7}' at byte 1");
    assert_eq!(lex_err("'abc").to_text(), "unterminated string literal at byte 0");
    assert_eq!(
        lex_err("99999999999999999999999").to_text(),
        "invalid number literal \"99999999999999999999999\" at byte 0"
    );
}

#[test]
fn a_span_outside_the_source_has_no_text() {
    assert_eq!(Span { start: 0, end: 9 }.slice("abc"), None);
    assert_eq!(Span { start: 0, end: 1 }.slice("é"), None);
    assert_eq!(Span { start: 1, end: 3 }.slice("aé").as_deref(), Some("é"));
}

#[test]
fn keywords_are_looked_up_by_spelling() {
    assert_eq!(keyword("Values"), Some(Token::Values));
    assert_eq!(keyword("value"), None);
}
