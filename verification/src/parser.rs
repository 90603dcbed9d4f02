//! The parsing table and its actions, and the entry point that builds the
//! table for a chosen algorithm.

use vstd::prelude::*;
use crate::Sym;
use crate::grammar::{Grammar, BuildError};
use crate::item::Item;

verus! {

/// One cell of the parsing table.
#[derive(Debug, PartialEq)]
pub enum Action {
    /// Consume the symbol and enter the given state; on a non-terminal this
    /// is the GOTO move.
    Shift(usize),
    /// Reduce by the given production.
    Reduce(Item),
    /// The input conforms to the start symbol.
    Accept,
}

impl Action {
    pub fn duplicate(&self) -> (r: Action)
        ensures
            match *self {
                Action::Shift(j) => r == Action::Shift(j),
                Action::Reduce(ref it) => r matches Action::Reduce(it2) && it2.rule_id.0
                    == it.rule_id.0 && it2.rule_id.1@ == it.rule_id.1@ && it2.lhs == it.lhs
                    && it2.rhs@ == it.rhs@ && it2.pointer == it.pointer,
                Action::Accept => r == Action::Accept,
            },
    {
        match self {
            Action::Shift(j) => Action::Shift(*j),
            Action::Reduce(it) => Action::Reduce(it.duplicate()),
            Action::Accept => Action::Accept,
        }
    }
}

/// The parsing table: one row per state; columns are the symbol ids,
/// plus one final column consulted when the input is exhausted.
#[derive(Debug, PartialEq)]
pub struct ParseTable {
    /// Symbol count of the grammar the table was built for.
    pub n_symbols: Sym,
    /// The end-of-input sentinel of that grammar.
    pub eof: Sym,
    /// Its start symbol.
    pub start: Sym,
    /// `rows[state][col]`; `col == n_symbols` is the exhausted-input column.
    pub rows: Vec<Vec<Option<Action>>>,
}

impl ParseTable {
    pub open spec fn cell(&self, s: int, c: int) -> Option<Action> {
        self.rows@[s]@[c]
    }

    /// Shape and cell sanity: shifts stay within the table, reductions carry
    /// a valid, reducible item.
    pub open spec fn wf(&self, g: Grammar) -> bool {
        &&& self.n_symbols == g.n_symbols
        &&& self.eof == g.eof
        &&& self.start == g.start
        &&& 1 <= self.rows@.len()
        &&& forall|s: int|
            0 <= s < self.rows@.len() ==> (#[trigger] self.rows@[s])@.len() == self.n_symbols + 1
        &&& forall|s: int, c: int|
            0 <= s < self.rows@.len() && 0 <= c <= self.n_symbols ==> (match #[trigger] self.cell(
                s,
                c,
            ) {
                Some(Action::Shift(j)) => (j as int) < self.rows@.len(),
                Some(Action::Reduce(it)) => it.valid(g) && it.dot() == it.rhs@.len(),
                Some(Action::Accept) => true,
                None => true,
            })
    }
}

/// A fresh row of empty cells.
pub fn empty_row(width: usize) -> (row: Vec<Option<Action>>)
    ensures
        row@.len() == width,
        forall|c: int| 0 <= c < width ==> (#[trigger] row@[c]) is None,
{
    let mut row: Vec<Option<Action>> = Vec::new();
    let mut c: usize = 0;
    while c < width
        invariant
            c <= width,
            row@.len() == c,
            forall|c2: int| 0 <= c2 < c ==> (#[trigger] row@[c2]) is None,
        decreases width - c,
    {
        row.push(None);
        c += 1;
    }
    row
}

/// Write one cell of a row, returning whether it was already occupied.
pub fn set_cell(row: &mut Vec<Option<Action>>, c: usize, a: Action) -> (occupied: bool)
    requires
        c < old(row)@.len(),
    ensures
        final(row)@.len() == old(row)@.len(),
        occupied == !(old(row)@[c as int] is None),
        !occupied ==> final(row)@ == old(row)@.update(c as int, Some(a)),
        occupied ==> final(row)@ == old(row)@,
{
    let occupied = match &row[c] {
        Some(_) => true,
        None => false,
    };
    if occupied {
        return true;
    }
    let _ = row.remove(c);
    row.insert(c, Some(a));
    proof {
        assert(row@ =~= old(row)@.update(c as int, Some(a)));
    }
    false
}


/// The table-construction algorithm to use.
#[derive(Debug, PartialEq, Eq, Clone, Copy)]
pub enum Algorithm {
    LR0,
    SLR,
    LR1,
}

/// Build the parsing table for the chosen algorithm. An error names the
/// conflict kind the algorithm found, and each conflict error is backed by
/// a well-formed witness: an automaton (and FOLLOW table, or closed LR(1)
/// state) actually exhibiting the conflict.
pub fn create_parser(algorithm: Algorithm, g: &Grammar) -> (res: Result<ParseTable, BuildError>)
    requires
        g.wf(),
    ensures
        match res {
            Ok(t) => t.wf(*g) && exists|s: int|
                0 <= s < t.rows@.len() && #[trigger] t.cell(s, t.n_symbols as int) == Some(
                    Action::Accept,
                ),
            Err(e) => {
                &&& e != BuildError::InvalidGrammar
                &&& (e == BuildError::TooManyStates ==> match algorithm {
                    Algorithm::LR0 => crate::table::lr0_capacity_exhausted(*g),
                    Algorithm::SLR => crate::table::lr0_capacity_exhausted(*g),
                    Algorithm::LR1 => crate::lr1::lr1_capacity_exhausted(*g),
                })
                &&& match algorithm {
                    Algorithm::LR0 => {
                        &&& e == BuildError::Conflict || e == BuildError::TooManyStates
                        &&& (e == BuildError::Conflict ==> exists|d: crate::table::Lr0Dfa|
                            #[trigger] d.wf(*g) && !crate::lr0::lr0_conflict_free(d))
                    },
                    Algorithm::SLR => {
                        &&& e == BuildError::Conflict || e == BuildError::TooManyStates
                        &&& (e == BuildError::Conflict ==> exists|
                            d: crate::table::Lr0Dfa,
                            fo: crate::follow_sets::FollowTable,
                        |
                            #[trigger] d.wf(*g) && #[trigger] fo.wf(*g)
                                && !crate::slr::slr_conflict_free(d, fo))
                    },
                    Algorithm::LR1 => {
                        &&& e == BuildError::ShiftReduceConflict || e
                            == BuildError::ReduceReduceConflict || e == BuildError::TooManyStates
                        &&& (e == BuildError::ReduceReduceConflict ==> exists|
                            ftw: crate::first_sets::FirstTable,
                            c: crate::lr1::LR1Closure,
                        |
                            #[trigger] ftw.wf(*g) && #[trigger] c.wf(*g)
                                && crate::lr1::lr1_closed(c, *g, ftw)
                                && crate::lr1::lr1_rr_conflict(c))
                        &&& (e == BuildError::ShiftReduceConflict ==> exists|
                            ftw: crate::first_sets::FirstTable,
                            c: crate::lr1::LR1Closure,
                        |
                            #[trigger] ftw.wf(*g) && #[trigger] c.wf(*g)
                                && crate::lr1::lr1_closed(c, *g, ftw)
                                && crate::lr1::lr1_sr_conflict(c))
                    },
                }
            },
        },
{
    match algorithm {
        Algorithm::LR0 => crate::lr0::compute_lr0_parsing_table(g),
        Algorithm::SLR => crate::slr::compute_slr_parsing_table(g),
        Algorithm::LR1 => crate::lr1::compute_lr1_parsing_table(g),
    }
}

/// The concatenated lexemes of a token sequence.
pub open spec fn concat_lexemes(toks: Seq<crate::lexer::Token>) -> Seq<u8>
    decreases toks.len(),
{
    if toks.len() == 0 {
        seq![]
    } else {
        toks[0].lexeme@ + concat_lexemes(toks.drop_first())
    }
}

/// The content views of the leaf trees a token sequence turns into.
pub open spec fn leaf_views(toks: Seq<crate::lexer::Token>) -> Seq<crate::driver::TreeV> {
    Seq::new(
        toks.len(),
        |i: int| crate::driver::TreeV::Leaf { sym: toks[i].sym, lexeme: toks[i].lexeme@ },
    )
}

/// The token sequence drives the table to acceptance in some number of
/// steps from the initial configuration.
pub open spec fn table_accepts(t: ParseTable, eof: Sym, toks: Seq<crate::lexer::Token>) -> bool {
    exists|n: nat|
        n < usize::MAX && #[trigger] crate::driver::accepts_in(
            t,
            crate::driver::queue_views(leaf_views(toks), eof),
            seq![0usize],
            Seq::<crate::driver::TreeV>::empty(),
            n,
        )
}

/// Parsing failed: the lexer could not advance at the given offset, or the
/// driver found no action.
#[derive(Debug, PartialEq, Eq, Clone, Copy)]
pub enum ParserError {
    TokenizeError { pos: usize },
    ParseError,
}

/// A generated parser: the grammar, its lexer, and the parsing table built
/// by the chosen algorithm.
pub struct Parser {
    pub grammar: Grammar,
    pub lexer: crate::lexer::Lexer,
    pub table: ParseTable,
}

impl Parser {
    /// The table fits the grammar and every lexer rule produces a declared
    /// user terminal.
    pub open spec fn wf(&self) -> bool {
        &&& self.grammar.wf()
        &&& self.table.wf(self.grammar)
        &&& forall|k: int|
            0 <= k < self.lexer.rules@.len() ==> ((#[trigger] self.lexer.rules@[k]).sym as int)
                < self.grammar.n_terminals
    }

    /// Assemble a parser: build the table for the chosen algorithm and check
    /// that the lexer's terminals are declared in the grammar.
    pub fn new(grammar: Grammar, lexer: crate::lexer::Lexer, algorithm: Algorithm) -> (res: Result<
        Parser,
        BuildError,
    >)
        requires
            grammar.wf(),
        ensures
            match res {
                Ok(p) => {
                    &&& p.wf()
                    &&& p.grammar == grammar
                    &&& p.lexer == lexer
                    &&& exists|s: int|
                        0 <= s < p.table.rows@.len() && #[trigger] p.table.cell(
                            s,
                            p.table.n_symbols as int,
                        ) == Some(Action::Accept)
                },
                Err(e) => {
                    &&& (e == BuildError::InvalidGrammar <==> exists|k: int|
                        0 <= k < lexer.rules@.len() && ((#[trigger] lexer.rules@[k]).sym as int)
                            >= grammar.n_terminals)
                    &&& (e == BuildError::Conflict ==> (algorithm == Algorithm::LR0 ==> exists|
                        d: crate::table::Lr0Dfa,
                    |
                        #[trigger] d.wf(grammar) && !crate::lr0::lr0_conflict_free(d)))
                    &&& (e == BuildError::Conflict ==> (algorithm == Algorithm::SLR ==> exists|
                        d: crate::table::Lr0Dfa,
                        fo: crate::follow_sets::FollowTable,
                    |
                        #[trigger] d.wf(grammar) && #[trigger] fo.wf(grammar)
                            && !crate::slr::slr_conflict_free(d, fo)))
                    &&& (e == BuildError::ReduceReduceConflict ==> exists|
                        ftw: crate::first_sets::FirstTable,
                        c: crate::lr1::LR1Closure,
                    |
                        #[trigger] ftw.wf(grammar) && #[trigger] c.wf(grammar)
                            && crate::lr1::lr1_closed(c, grammar, ftw)
                            && crate::lr1::lr1_rr_conflict(c))
                    &&& (e == BuildError::ShiftReduceConflict ==> exists|
                        ftw: crate::first_sets::FirstTable,
                        c: crate::lr1::LR1Closure,
                    |
                        #[trigger] ftw.wf(grammar) && #[trigger] c.wf(grammar)
                            && crate::lr1::lr1_closed(c, grammar, ftw)
                            && crate::lr1::lr1_sr_conflict(c))
                    &&& (e == BuildError::TooManyStates ==> match algorithm {
                        Algorithm::LR0 => crate::table::lr0_capacity_exhausted(grammar),
                        Algorithm::SLR => crate::table::lr0_capacity_exhausted(grammar),
                        Algorithm::LR1 => crate::lr1::lr1_capacity_exhausted(grammar),
                    })
                },
            },
    {
        let mut k: usize = 0;
        while k < lexer.rules.len()
            invariant
                k <= lexer.rules@.len(),
                forall|j: int|
                    0 <= j < k ==> ((#[trigger] lexer.rules@[j]).sym as int)
                        < grammar.n_terminals,
            decreases lexer.rules@.len() - k,
        {
            if lexer.rules[k].sym >= grammar.n_terminals {
                proof {
                    assert(((lexer.rules@[k as int]).sym as int) >= grammar.n_terminals);
                }
                return Err(BuildError::InvalidGrammar);
            }
            k += 1;
        }
        let table = match create_parser(algorithm, &grammar) {
            Ok(t) => t,
            Err(e) => {
                return Err(e);
            },
        };
        Ok(Parser { grammar, lexer, table })
    }

    /// Tokenize the input and run the shift/reduce driver. On success the
    /// input lexes to a gapless token sequence, each token the leftmost
    /// match of one of the lexer's rules, and the tree's leaf lexemes,
    /// concatenated, are exactly those tokens' lexemes in order. A
    /// tokenizing failure names a position where no rule matches.
    pub fn parse(&self, input: &Vec<u8>) -> (r: Result<crate::driver::Tree, ParserError>)
        requires
            self.wf(),
        ensures
            match r {
                Ok(tree) => exists|toks: Seq<crate::lexer::Token>|
                    {
                        &&& #[trigger] crate::lexer::tokens_ok(toks, input@)
                        &&& crate::lexer::tokens_from_rules(toks, self.lexer.rules@)
                        &&& crate::lexer::tokens_matched(toks, self.lexer.rules@, input@)
                        &&& crate::lexer::tokens_lexed(toks, self.lexer.rules@, input@)
                        &&& crate::lexer::tokens_gapless(toks, self.lexer.whitespace, input@)
                        &&& crate::driver::leaf_bytes(tree) == concat_lexemes(toks)
                        &&& exists|n: nat|
                            #[trigger] crate::driver::run_outcome(
                                self.table,
                                crate::driver::queue_views(leaf_views(toks), self.grammar.eof),
                                seq![0usize],
                                Seq::<crate::driver::TreeV>::empty(),
                                n,
                            ) == Some(crate::driver::tree_view(tree))
                    },
                Err(ParserError::TokenizeError { pos }) => {
                    &&& pos < input@.len()
                    &&& crate::lexer::lexer_stuck(self.lexer.rules@, input@, pos as int)
                },
                Err(ParserError::ParseError) => exists|toks: Seq<crate::lexer::Token>|
                    {
                        &&& #[trigger] crate::lexer::tokens_ok(toks, input@)
                        &&& crate::lexer::tokens_from_rules(toks, self.lexer.rules@)
                        &&& crate::lexer::tokens_matched(toks, self.lexer.rules@, input@)
                        &&& crate::lexer::tokens_lexed(toks, self.lexer.rules@, input@)
                        &&& crate::lexer::tokens_gapless(toks, self.lexer.whitespace, input@)
                        &&& !table_accepts(self.table, self.grammar.eof, toks)
                    },
            },
    {
        let toks = match self.lexer.tokenize(input) {
            Ok(t) => t,
            Err(e) => {
                return Err(ParserError::TokenizeError { pos: e.pos });
            },
        };
        let ghost toks_view = toks@;
        // turn tokens into leaf trees
        let mut trees: Vec<crate::driver::Tree> = Vec::new();
        let mut src = toks;
        while src.len() > 0
            invariant
                self.wf(),
                crate::lexer::tokens_from_rules(toks_view, self.lexer.rules@),
                toks_view.skip(toks_view.len() - src@.len()) == src@,
                src@.len() <= toks_view.len(),
                trees@.len() + src@.len() == toks_view.len(),
                crate::driver::bytes_of(trees@) + concat_lexemes(src@) == concat_lexemes(
                    toks_view,
                ),
                forall|i: int|
                    0 <= i < trees@.len() ==> (crate::driver::tree_sym(#[trigger] trees@[i])
                        as int) < self.grammar.n_symbols,
                forall|i: int|
                    0 <= i < trees@.len() ==> #[trigger] trees@[i] == (crate::driver::Tree::Leaf {
                        sym: toks_view[i].sym,
                        lexeme: toks_view[i].lexeme,
                    }),
            decreases src@.len(),
        {
            let ghost src_prev = src@;
            let ghost done = trees@.len() as int;
            let tk = src.remove(0);
            proof {
                assert(tk == src_prev[0]);
                assert(src@ =~= src_prev.drop_first());
                assert(toks_view.skip(toks_view.len() - src@.len()) =~= src@);
                // the token's terminal is declared: find its rule
                assert(toks_view[done] == tk) by {
                    assert(src_prev[0] == toks_view.skip(toks_view.len() - src_prev.len())[0]);
                };
                let k = choose|k: int|
                    0 <= k < self.lexer.rules@.len() && (#[trigger] self.lexer.rules@[k]).sym
                        == toks_view[done].sym;
                assert((tk.sym as int) < self.grammar.n_terminals);
            }
            let leaf = crate::driver::Tree::Leaf { sym: tk.sym, lexeme: tk.lexeme };
            let ghost leaf_g = leaf;
            let ghost trees_prev = trees@;
            trees.push(leaf);
            proof {
                assert(leaf_g == (crate::driver::Tree::Leaf {
                    sym: toks_view[done].sym,
                    lexeme: toks_view[done].lexeme,
                }));
                crate::driver::lemma_bytes_push(trees_prev, leaf_g);
                assert(crate::driver::leaf_bytes(leaf_g) == src_prev[0].lexeme@);
                assert(concat_lexemes(src_prev) == src_prev[0].lexeme@ + concat_lexemes(
                    src_prev.drop_first(),
                ));
                assert(crate::driver::bytes_of(trees@) + concat_lexemes(src@) =~= concat_lexemes(
                    toks_view,
                ));
            }
        }
        proof {
            assert(concat_lexemes(src@) == Seq::<u8>::empty());
            assert(crate::driver::bytes_of(trees@) + Seq::<u8>::empty() =~= crate::driver::bytes_of(
                trees@,
            ));
            assert(crate::driver::bytes_of(trees@) == concat_lexemes(toks_view));
            crate::driver::lemma_views_index(trees@);
            assert(crate::driver::views_of(trees@) =~= leaf_views(toks_view));
        }
        let r = crate::driver::parse(&self.table, &self.grammar, trees);
        proof {
            assert(crate::lexer::tokens_ok(toks_view, input@));
        }
        match r {
            Ok(tree) => Ok(tree),
            Err(_) => Err(ParserError::ParseError),
        }
    }
}

} // verus!
