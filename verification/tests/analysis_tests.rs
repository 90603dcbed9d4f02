//! Grammar analysis: FIRST/FOLLOW values, item and closure algebra, the
//! LR(0) automaton, conflict detection, algorithm monotonicity, and the
//! determinism of table construction.

use lr_parser::driver::Tree;
use lr_parser::first_sets::compute_first_sets;
use lr_parser::follow_sets::compute_follow_sets;
use lr_parser::grammar::{BuildError, Grammar};
use lr_parser::item::{Item, LR0Closure};
use lr_parser::lexer::Lexer;
use lr_parser::lr0::compute_lr0_parsing_table;
use lr_parser::lr1::compute_lr1_parsing_table;
use lr_parser::parser::{Algorithm, Parser};
use lr_parser::slr::compute_slr_parsing_table;
use lr_parser::table::compute_table;

/// `E -> E + T | T; T -> T * N | N` with `P = 0`, `M = 1`, `N = 2`,
/// `eof = 3`, `E = 4`, `T = 5`, `aug = 6`.
fn arith_grammar() -> Grammar {
    Grammar::new(
        3,
        2,
        vec![
            (4, "E0".to_string(), vec![4, 0, 5]),
            (4, "E1".to_string(), vec![5]),
            (5, "T0".to_string(), vec![5, 1, 2]),
            (5, "T1".to_string(), vec![2]),
        ],
        4,
    )
    .unwrap()
}

/// `S -> A A; A -> L A R | L R` with `L = 0`, `R = 1`, `eof = 2`, `S = 3`,
/// `A = 4`, `aug = 5`.
fn brackets_grammar() -> Grammar {
    Grammar::new(
        2,
        2,
        vec![
            (3, "S0".to_string(), vec![4, 4]),
            (4, "A0".to_string(), vec![0, 4, 1]),
            (4, "A1".to_string(), vec![0, 1]),
        ],
        3,
    )
    .unwrap()
}

/// The LR(1)-only grammar: `A -> E = E | id; E -> E + T | T; T -> N | id`
/// with `Eq = 0`, `P = 1`, `N = 2`, `Id = 3`, `eof = 4`, `A = 5`, `E = 6`,
/// `T = 7`.
fn assign_grammar() -> Grammar {
    Grammar::new(
        4,
        3,
        vec![
            (5, "A0".to_string(), vec![6, 0, 6]),
            (5, "A1".to_string(), vec![3]),
            (6, "E0".to_string(), vec![6, 1, 7]),
            (6, "E1".to_string(), vec![7]),
            (7, "T0".to_string(), vec![2]),
            (7, "T1".to_string(), vec![3]),
        ],
        5,
    )
    .unwrap()
}

#[test]
fn item_algebra() {
    let mut it = Item::from((2, "A0".to_string()), 4, vec![0, 4, 1], 0);
    assert_eq!(it.get_rule_name(), "A0");
    assert_eq!(it.get_lhs(), 4);
    assert_eq!(it.get_rhs(), &vec![0, 4, 1]);
    assert_eq!(it.get_symbol_under_pointer(), Some(0));
    assert!(!it.is_reducible());
    assert_eq!(it.shift(), Some(0));
    assert_eq!(it.get_symbol_under_pointer(), Some(4));
    assert_eq!(it.get_rhs_after_pointer(), vec![1]);
    it.inc_pointer();
    assert_eq!(it.shift(), Some(1));
    assert!(it.is_reducible());
    assert_eq!(it.get_symbol_under_pointer(), None);
    assert_eq!(it.shift(), None);
}

#[test]
fn lr0_closure_of_initial_item() {
    let g = brackets_grammar();
    // closure of the augmented item predicts S and then both A productions
    let seed = vec![Item::at_start(&g, 0)];
    let c = LR0Closure::from(seed, &g);
    assert_eq!(c.len(), 4);
}

#[test]
fn lr0_automaton_has_states_and_accepts() {
    let g = brackets_grammar();
    let d = compute_table(&g).unwrap();
    assert!(d.states.len() > 0);
    assert!(d.accept_state < d.states.len());
    assert_eq!(d.transitions.len(), d.states.len());
}

#[test]
fn first_sets_of_arith() {
    let g = arith_grammar();
    let ft = compute_first_sets(&g);
    // FIRST(E) = FIRST(T) = { N }; terminals are their own FIRST; no ε
    assert_eq!(ft.sets[4].terms.v, vec![2]);
    assert!(!ft.sets[4].eps);
    assert_eq!(ft.sets[5].terms.v, vec![2]);
    assert!(!ft.sets[5].eps);
    assert_eq!(ft.sets[0].terms.v, vec![0]);
    assert_eq!(ft.sets[2].terms.v, vec![2]);
}

#[test]
fn follow_sets_of_arith() {
    let g = arith_grammar();
    let ft = compute_first_sets(&g);
    let fo = compute_follow_sets(&g, &ft);
    // FOLLOW(E) = { +, ⊥ }; FOLLOW(T) = { +, *, ⊥ }
    assert_eq!(fo.sets[4].v, vec![0, 3]);
    assert_eq!(fo.sets[5].v, vec![0, 1, 3]);
    // the augmented start is followed by nothing
    assert_eq!(fo.sets[6].v, Vec::<usize>::new());
}

#[test]
fn conflict_surfacing() {
    // S -> A a | b A c | d c | b d a; A -> d
    // terminals a = 0, b = 1, c = 2, d = 3; eof = 4; S = 5, A = 6
    let g = Grammar::new(
        4,
        2,
        vec![
            (5, "S0".to_string(), vec![6, 0]),
            (5, "S1".to_string(), vec![1, 6, 2]),
            (5, "S2".to_string(), vec![3, 2]),
            (5, "S3".to_string(), vec![1, 3, 0]),
            (6, "A0".to_string(), vec![3]),
        ],
        5,
    )
    .unwrap();
    assert_eq!(compute_lr0_parsing_table(&g), Err(BuildError::Conflict));
    assert_eq!(compute_slr_parsing_table(&g), Err(BuildError::Conflict));
    assert!(compute_lr1_parsing_table(&g).is_ok());
}

#[test]
fn slr_rejects_the_assignment_grammar() {
    // shift/reduce on `=` against reduce `T -> id`
    let g = assign_grammar();
    assert_eq!(compute_slr_parsing_table(&g), Err(BuildError::Conflict));
    let g2 = assign_grammar();
    assert!(compute_lr1_parsing_table(&g2).is_ok());
}

#[test]
fn algorithm_monotonicity() {
    // whatever builds under LR(0) builds under SLR and LR(1);
    // whatever builds under SLR builds under LR(1)
    let g = brackets_grammar();
    assert!(compute_lr0_parsing_table(&g).is_ok());
    assert!(compute_slr_parsing_table(&g).is_ok());
    assert!(compute_lr1_parsing_table(&g).is_ok());
    let g2 = arith_grammar();
    assert!(compute_lr0_parsing_table(&g2).is_err());
    assert!(compute_slr_parsing_table(&g2).is_ok());
    assert!(compute_lr1_parsing_table(&g2).is_ok());
}

#[test]
fn tables_are_deterministic() {
    // the same grammar gives identical tables over repeated builds
    let t1 = compute_slr_parsing_table(&arith_grammar()).unwrap();
    let t2 = compute_slr_parsing_table(&arith_grammar()).unwrap();
    assert_eq!(t1, t2);
    let t3 = compute_lr1_parsing_table(&assign_grammar()).unwrap();
    let t4 = compute_lr1_parsing_table(&assign_grammar()).unwrap();
    assert_eq!(t3, t4);
}

#[test]
fn parses_are_deterministic() {
    let g1 = assign_grammar();
    let lx1 = assign_lexer();
    let p1 = Parser::new(g1, lx1, Algorithm::LR1).unwrap();
    let g2 = assign_grammar();
    let lx2 = assign_lexer();
    let p2 = Parser::new(g2, lx2, Algorithm::LR1).unwrap();
    let s = b"x+2+y=4+z".to_vec();
    let r1 = p1.parse(&s);
    let r2 = p2.parse(&s);
    assert!(r1.is_ok());
    assert_eq!(r1, r2);
}

fn assign_lexer() -> Lexer {
    Lexer::new(
        r"[ \n\r\t]*",
        vec![
            (0, "=".to_string(), false),
            (1, r"\+".to_string(), false),
            (2, "[1-9][0-9]*".to_string(), false),
            (3, "[a-z]+".to_string(), false),
        ],
    )
    .unwrap()
}

#[test]
fn epsilon_production_parses() {
    // S -> A b; A -> a A | ε  with a = 0, b = 1, eof = 2, S = 3, A = 4
    let g = Grammar::new(
        2,
        2,
        vec![
            (3, "S0".to_string(), vec![4, 1]),
            (4, "A0".to_string(), vec![0, 4]),
            (4, "A1".to_string(), vec![]),
        ],
        3,
    )
    .unwrap();
    let lx = Lexer::new(
        r"[ \n\r\t]*",
        vec![(0, "a".to_string(), false), (1, "b".to_string(), false)],
    )
    .unwrap();
    let p = Parser::new(g, lx, Algorithm::SLR).unwrap();
    let result = p.parse(&b"aab".to_vec());
    let a_empty = Tree::Node { sym: 4, name: "A1".to_string(), children: vec![] };
    let a_inner = Tree::Node {
        sym: 4,
        name: "A0".to_string(),
        children: vec![Tree::Leaf { sym: 0, lexeme: b"a".to_vec() }, a_empty],
    };
    let a_outer = Tree::Node {
        sym: 4,
        name: "A0".to_string(),
        children: vec![Tree::Leaf { sym: 0, lexeme: b"a".to_vec() }, a_inner],
    };
    let expected = Tree::Node {
        sym: 3,
        name: "S0".to_string(),
        children: vec![a_outer, Tree::Leaf { sym: 1, lexeme: b"b".to_vec() }],
    };
    assert_eq!(result, Ok(expected));
}

#[test]
fn invalid_grammars_are_rejected() {
    // an rhs referencing an undeclared symbol
    let r = Grammar::new(1, 1, vec![(2, "S0".to_string(), vec![9])], 2);
    assert_eq!(r.err(), Some(BuildError::InvalidGrammar));
    // a non-terminal without a production
    let r2 = Grammar::new(1, 2, vec![(2, "S0".to_string(), vec![0])], 2);
    assert_eq!(r2.err(), Some(BuildError::InvalidGrammar));
    // a start symbol that is not a user non-terminal
    let r3 = Grammar::new(1, 1, vec![(2, "S0".to_string(), vec![0])], 0);
    assert_eq!(r3.err(), Some(BuildError::InvalidGrammar));
    // an rhs naming a sentinel
    let r4 = Grammar::new(1, 1, vec![(2, "S0".to_string(), vec![1])], 2);
    assert_eq!(r4.err(), Some(BuildError::InvalidGrammar));
}
