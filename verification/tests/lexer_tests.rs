//! The lexical analyzer: greedy matching, whitespace skipping, the
//! reserved-keyword retag, and the error cases.

use lr_parser::lexer::{LexBuildError, Lexer, TokenizeError};

#[test]
fn reserved_keyword_precedence() {
    // non-reserved Id = 0 over "[a-z]+", reserved If = 1 over "if":
    // "ifx if" is Id("ifx") then If("if")
    let lx = Lexer::new(
        r"[ \n\r\t]*",
        vec![(0, "[a-z]+".to_string(), false), (1, "if".to_string(), true)],
    )
    .unwrap();
    let toks = lx.tokenize(&b"ifx if".to_vec()).unwrap();
    assert_eq!(toks.len(), 2);
    assert_eq!(toks[0].sym, 0);
    assert_eq!(toks[0].lexeme, b"ifx".to_vec());
    assert_eq!(toks[0].pos, 0);
    assert_eq!(toks[1].sym, 1);
    assert_eq!(toks[1].lexeme, b"if".to_vec());
    assert_eq!(toks[1].pos, 4);
}

#[test]
fn greedy_match_prefers_the_first_rule() {
    let lx = Lexer::new(
        r"[ ]*",
        vec![(0, "ab".to_string(), false), (1, "a".to_string(), false)],
    )
    .unwrap();
    let toks = lx.tokenize(&b"aba".to_vec()).unwrap();
    assert_eq!(toks.len(), 2);
    assert_eq!(toks[0].sym, 0);
    assert_eq!(toks[0].lexeme, b"ab".to_vec());
    assert_eq!(toks[1].sym, 1);
    assert_eq!(toks[1].lexeme, b"a".to_vec());
}

#[test]
fn tokenize_error_reports_the_position() {
    let lx = Lexer::new(r"[ ]*", vec![(0, "[a-z]+".to_string(), false)]).unwrap();
    let r = lx.tokenize(&b"ab 12".to_vec());
    assert_eq!(r.err(), Some(TokenizeError { pos: 3 }));
}

#[test]
fn bad_patterns_are_rejected() {
    let r = Lexer::new(r"[ ]*", vec![(0, "(".to_string(), false)]);
    assert_eq!(r.err(), Some(LexBuildError::BadPattern));
    let r2 = Lexer::new("(", vec![(0, "a".to_string(), false)]);
    assert_eq!(r2.err(), Some(LexBuildError::BadPattern));
}

#[test]
fn whitespace_must_match_the_empty_string() {
    let r = Lexer::new("x+", vec![(0, "a".to_string(), false)]);
    assert_eq!(r.err(), Some(LexBuildError::WhitespaceMustMatchEmpty));
}

#[test]
fn empty_input_tokenizes_to_nothing() {
    let lx = Lexer::new(r"[ ]*", vec![(0, "[a-z]+".to_string(), false)]).unwrap();
    let toks = lx.tokenize(&b"".to_vec()).unwrap();
    assert_eq!(toks.len(), 0);
}
