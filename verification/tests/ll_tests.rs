//! The LL back-end: recursive descent with ordered choice and backtracking.

use lr_parser::driver::{ParseError, Tree};
use lr_parser::grammar::Grammar;
use lr_parser::lexer::Lexer;
use lr_parser::ll::parse_ll;

fn leaf(sym: usize, s: &str) -> Tree {
    Tree::Leaf { sym, lexeme: s.as_bytes().to_vec() }
}

fn node(sym: usize, name: &str, children: Vec<Tree>) -> Tree {
    Tree::Node { sym, name: name.to_string(), children }
}

/// Cons-lists of arithmetic terms:
/// terminals `Cons = 0 ("::")`, `Nil = 1 ("[]")`, `Num = 2`, `Op = 3`;
/// non-terminals `List = 5`, `Term = 6`.
fn list_grammar() -> Grammar {
    Grammar::new(
        4,
        2,
        vec![
            (5, "List0".to_string(), vec![6, 0, 5]),
            (5, "List1".to_string(), vec![1]),
            (6, "Term0".to_string(), vec![2, 3, 6]),
            (6, "Term1".to_string(), vec![2]),
        ],
        5,
    )
    .unwrap()
}

fn list_lexer() -> Lexer {
    Lexer::new(
        r"[ \n\r\t]*",
        vec![
            (0, "::".to_string(), false),
            (1, r"\[\]".to_string(), false),
            (2, "[1-9][0-9]*".to_string(), false),
            (3, r"\*|\+".to_string(), false),
        ],
    )
    .unwrap()
}

#[test]
fn test_ll() {
    let g = list_grammar();
    let lx = list_lexer();
    let toks = lx.tokenize(&b"1+2::3*4::[]".to_vec()).unwrap();
    let result = parse_ll(&g, &toks);

    let expected = node(
        5,
        "List0",
        vec![
            node(
                6,
                "Term0",
                vec![
                    leaf(2, "1"),
                    leaf(3, "+"),
                    node(6, "Term1", vec![leaf(2, "2")]),
                ],
            ),
            leaf(0, "::"),
            node(
                5,
                "List0",
                vec![
                    node(
                        6,
                        "Term0",
                        vec![
                            leaf(2, "3"),
                            leaf(3, "*"),
                            node(6, "Term1", vec![leaf(2, "4")]),
                        ],
                    ),
                    leaf(0, "::"),
                    node(5, "List1", vec![leaf(1, "[]")]),
                ],
            ),
        ],
    );

    assert_eq!(result, Ok(expected));
}

#[test]
fn ll_requires_the_whole_input() {
    let g = list_grammar();
    let lx = list_lexer();
    let toks = lx.tokenize(&b"[] []".to_vec()).unwrap();
    assert_eq!(parse_ll(&g, &toks), Err(ParseError::ParseError));
}

#[test]
fn ll_rejects_unparsable_input() {
    let g = list_grammar();
    let lx = list_lexer();
    let toks = lx.tokenize(&b"1+2".to_vec()).unwrap();
    assert_eq!(parse_ll(&g, &toks), Err(ParseError::ParseError));
}
