//! End-to-end parses with each algorithm, against the generated parser.

use lr_parser::driver::Tree;
use lr_parser::grammar::Grammar;
use lr_parser::lexer::Lexer;
use lr_parser::parser::{Algorithm, Parser, ParserError};

fn leaf(sym: usize, s: &str) -> Tree {
    Tree::Leaf { sym, lexeme: s.as_bytes().to_vec() }
}

fn node(sym: usize, name: &str, children: Vec<Tree>) -> Tree {
    Tree::Node { sym, name: name.to_string(), children }
}

#[test]
fn it_works() {
    let result = 2 + 2;
    assert_eq!(result, 4);
}

/// Balanced angle brackets under LR(0):
/// terminals `L = 0 ("<")`, `R = 1 (">")`; non-terminals `S = 3`, `A = 4`.
fn brackets_parser(algorithm: Algorithm) -> Parser {
    let g = Grammar::new(
        2,
        2,
        vec![
            (3, "S0".to_string(), vec![4, 4]),
            (4, "A0".to_string(), vec![0, 4, 1]),
            (4, "A1".to_string(), vec![0, 1]),
        ],
        3,
    )
    .unwrap();
    let lx = Lexer::new(
        r"[ \n\r\t]*",
        vec![(0, "<".to_string(), false), (1, ">".to_string(), false)],
    )
    .unwrap();
    Parser::new(g, lx, algorithm).unwrap()
}

#[test]
fn test_lr0() {
    let parser = brackets_parser(Algorithm::LR0);
    let s = b"<<>><>".to_vec();
    let result = parser.parse(&s);

    let a_lr = node(4, "A1", vec![leaf(0, "<"), leaf(1, ">")]);
    let a_lr_again = node(4, "A1", vec![leaf(0, "<"), leaf(1, ">")]);
    let a_llrr = node(4, "A0", vec![leaf(0, "<"), a_lr, leaf(1, ">")]);
    let expected = node(3, "S0", vec![a_llrr, a_lr_again]);

    assert_eq!(result, Ok(expected));
}

/// Left-associative arithmetic under SLR:
/// terminals `P = 0 ("+")`, `M = 1 ("*")`, `N = 2 (number)`;
/// non-terminals `E = 4`, `T = 5`.
fn arith_parser(algorithm: Algorithm) -> Result<Parser, lr_parser::grammar::BuildError> {
    let g = Grammar::new(
        3,
        2,
        vec![
            (4, "E0".to_string(), vec![4, 0, 5]),
            (4, "E1".to_string(), vec![5]),
            (5, "T0".to_string(), vec![5, 1, 2]),
            (5, "T1".to_string(), vec![2]),
        ],
        4,
    )
    .unwrap();
    let lx = Lexer::new(
        r"[ \n\r\t]*",
        vec![
            (0, r"\+".to_string(), false),
            (1, r"\*".to_string(), false),
            (2, "[1-9][0-9]*".to_string(), false),
        ],
    )
    .unwrap();
    Parser::new(g, lx, algorithm)
}

#[test]
fn test_slr() {
    let parser = arith_parser(Algorithm::SLR).unwrap();
    let s = b"1*2*3+4*5+6".to_vec();
    let result = parser.parse(&s);

    let t_1m2 = node(
        5,
        "T0",
        vec![node(5, "T1", vec![leaf(2, "1")]), leaf(1, "*"), leaf(2, "2")],
    );
    let t_1m2m3 = node(5, "T0", vec![t_1m2, leaf(1, "*"), leaf(2, "3")]);
    let t_4m5 = node(
        5,
        "T0",
        vec![node(5, "T1", vec![leaf(2, "4")]), leaf(1, "*"), leaf(2, "5")],
    );
    let t_6 = node(5, "T1", vec![leaf(2, "6")]);
    let expected = node(
        4,
        "E0",
        vec![
            node(
                4,
                "E0",
                vec![node(4, "E1", vec![t_1m2m3]), leaf(0, "+"), t_4m5],
            ),
            leaf(0, "+"),
            t_6,
        ],
    );

    assert_eq!(result, Ok(expected));
}

/// Assignment with a shared sub-expression under LR(1):
/// terminals `Eq = 0 ("=")`, `P = 1 ("+")`, `N = 2 (number)`,
/// `Id = 3 (identifier)`; non-terminals `A = 5`, `E = 6`, `T = 7`.
fn assign_parser(algorithm: Algorithm) -> Result<Parser, lr_parser::grammar::BuildError> {
    let g = Grammar::new(
        4,
        3,
        vec![
            (5, "A0".to_string(), vec![6, 0, 6]),
            (5, "A1".to_string(), vec![3]),
            (6, "E0".to_string(), vec![6, 1, 7]),
            (6, "E1".to_string(), vec![7]),
            (7, "T0".to_string(), vec![2]),
            (7, "T1".to_string(), vec![3]),
        ],
        5,
    )
    .unwrap();
    let lx = Lexer::new(
        r"[ \n\r\t]*",
        vec![
            (0, "=".to_string(), false),
            (1, r"\+".to_string(), false),
            (2, "[1-9][0-9]*".to_string(), false),
            (3, "[a-z]+".to_string(), false),
        ],
    )
    .unwrap();
    Parser::new(g, lx, algorithm)
}

#[test]
fn test_lr1() {
    let parser = assign_parser(Algorithm::LR1).unwrap();
    let s = b"x+2+y=4+z".to_vec();
    let result = parser.parse(&s);

    let e_xp2 = node(
        6,
        "E0",
        vec![
            node(6, "E1", vec![node(7, "T1", vec![leaf(3, "x")])]),
            leaf(1, "+"),
            node(7, "T0", vec![leaf(2, "2")]),
        ],
    );
    let e_xp2py = node(
        6,
        "E0",
        vec![e_xp2, leaf(1, "+"), node(7, "T1", vec![leaf(3, "y")])],
    );
    let e_4pz = node(
        6,
        "E0",
        vec![
            node(6, "E1", vec![node(7, "T0", vec![leaf(2, "4")])]),
            leaf(1, "+"),
            node(7, "T1", vec![leaf(3, "z")]),
        ],
    );
    let expected = node(5, "A0", vec![e_xp2py, leaf(0, "="), e_4pz]);

    assert_eq!(result, Ok(expected));
}

#[test]
fn whitespace_does_not_change_the_tree() {
    // the same token sequence, spread over whitespace, gives the same tree
    let parser = brackets_parser(Algorithm::LR0);
    let tight = parser.parse(&b"<<>><>".to_vec());
    let spaced = parser.parse(&b" < < > >\n< > \t".to_vec());
    assert!(tight.is_ok());
    assert_eq!(tight, spaced);
}

#[test]
fn empty_input_is_a_parse_error() {
    let parser = brackets_parser(Algorithm::LR0);
    let result = parser.parse(&b"".to_vec());
    assert_eq!(result, Err(ParserError::ParseError));
}

#[test]
fn unparsable_input_is_a_parse_error() {
    let parser = brackets_parser(Algorithm::LR0);
    let result = parser.parse(&b"<<>".to_vec());
    assert_eq!(result, Err(ParserError::ParseError));
}
