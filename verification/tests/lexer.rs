use hank::lexer::{Lexer, Token};

fn lex(src: &str) -> Vec<(Token, hank::types::TokenData)> {
    let mut lx = Lexer::new(src);
    lx.tokenize()
}

fn kinds(src: &str) -> Vec<Token> {
    lex(src).into_iter().map(|(t, _)| t).collect()
}

#[test]
fn tokenize_assignment_with_positions() {
    let toks = lex("x = 1\n");
    let ks: Vec<Token> = toks.iter().map(|(t, _)| t.clone()).collect();
    assert_eq!(
        ks,
        vec![
            Token::Identifier("x".to_string()),
            Token::Assign,
            Token::Number("1".to_string()),
            Token::Newline,
            Token::EOF,
        ]
    );
    for (_, td) in &toks[..4] {
        assert_eq!(td.line, 1);
        assert_eq!(td.line_text, "x = 1");
    }
    assert_eq!(toks[4].1.line, 2);
    assert_eq!(toks[4].1.line_text, "");
}

#[test]
fn tokenize_empty_text_gives_eof_only() {
    let toks = lex("");
    assert_eq!(toks.len(), 1);
    assert_eq!(toks[0].0, Token::EOF);
    assert_eq!(toks[0].1.line, 1);
}

#[test]
fn tokenize_strings_undo_escapes() {
    assert_eq!(
        kinds("'a\\nb' \"q\\\"x\" 't\\tz'"),
        vec![
            Token::String("a\nb".to_string()),
            Token::String("q\"x".to_string()),
            Token::String("t\tz".to_string()),
            Token::EOF,
        ]
    );
}

#[test]
fn tokenize_comment_runs_to_line_end() {
    let toks = lex("// hi\nx");
    assert_eq!(toks[0].0, Token::Newline);
    assert_eq!(toks[0].1.line_text, "// hi");
    assert_eq!(toks[1].0, Token::Identifier("x".to_string()));
    assert_eq!(toks[1].1.line, 2);
    assert_eq!(toks[2].0, Token::EOF);
}

#[test]
fn tokenize_numbers_keep_their_text() {
    assert_eq!(
        kinds("-3.5 42 -x"),
        vec![
            Token::Number("-3.5".to_string()),
            Token::Number("42".to_string()),
            Token::Identifier("x".to_string()),
            Token::EOF,
        ]
    );
}

#[test]
fn tokenize_skips_unknown_characters() {
    assert_eq!(
        kinds("a $ b_2"),
        vec![Token::Identifier("a".to_string()), Token::Identifier("b_2".to_string()), Token::EOF]
    );
}

#[test]
fn tokenize_punctuation() {
    assert_eq!(
        kinds("=?:~@#!^.,(){}[]"),
        vec![
            Token::Assign,
            Token::Question,
            Token::Colon,
            Token::Rescue,
            Token::At,
            Token::Hash,
            Token::Not,
            Token::Caret,
            Token::Dot,
            Token::Comma,
            Token::LParen,
            Token::RParen,
            Token::LBrace,
            Token::RBrace,
            Token::LBracket,
            Token::RBracket,
            Token::EOF,
        ]
    );
}

#[test]
fn tokenize_unicode_identifier() {
    assert_eq!(kinds("héllo"), vec![Token::Identifier("héllo".to_string()), Token::EOF]);
}

#[test]
fn try_tokenize_reports_open_string() {
    let mut lx = Lexer::new("x = 'abc");
    assert!(lx.try_tokenize().is_none());
    let mut lx = Lexer::new("x = 'abc'");
    assert!(lx.try_tokenize().is_some());
}

#[test]
fn line_numbers_count_line_breaks() {
    let toks = lex("a\n\nb\nc");
    let lines: Vec<usize> = toks.iter().map(|(_, td)| td.line).collect();
    assert_eq!(lines, vec![1, 1, 2, 3, 3, 4, 4]);
    assert_eq!(toks.last().unwrap().0, Token::EOF);
    assert_eq!(toks.iter().filter(|(t, _)| *t == Token::EOF).count(), 1);
}

#[test]
fn text_without_quotes_always_lexes() {
    for src in ["", "a b c", "{ ? (x) { ^ 1 } }", "// only a comment", "@ # $ % ^ & *"] {
        let mut lx = Lexer::new(src);
        assert!(lx.try_tokenize().is_some());
    }
}
