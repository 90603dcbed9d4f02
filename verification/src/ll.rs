//! The LL back-end: recursive descent with ordered choice. For a
//! non-terminal the productions are tried in rule order; the first one whose
//! right-hand side parses wins, and a failed attempt backtracks to where it
//! started. The parse succeeds only when every token is consumed.

use vstd::prelude::*;
use crate::Sym;
use crate::grammar::Grammar;
use crate::lexer::Token;
use crate::driver::{Tree, TreeV, ParseError, tree_sym, tree_view, views_of, leaf_bytes, bytes_of, lemma_bytes_push, lemma_views_push, lemma_views_index};
use crate::parser::concat_lexemes;

verus! {

/// Concatenated lexemes split at any point between two token ranges.
proof fn lemma_concat_split(toks: Seq<Token>, a: int, b: int, c: int)
    requires
        0 <= a <= b <= c <= toks.len(),
    ensures
        concat_lexemes(toks.subrange(a, c)) == concat_lexemes(toks.subrange(a, b))
            + concat_lexemes(toks.subrange(b, c)),
    decreases b - a,
{
    if a == b {
        assert(toks.subrange(a, b) =~= Seq::<Token>::empty());
        assert(concat_lexemes(toks.subrange(a, b)) == Seq::<u8>::empty());
        assert(toks.subrange(a, c) =~= toks.subrange(b, c));
        assert(concat_lexemes(toks.subrange(a, c)) =~= concat_lexemes(toks.subrange(a, b))
            + concat_lexemes(toks.subrange(b, c)));
    } else {
        lemma_concat_split(toks, a + 1, b, c);
        assert(toks.subrange(a, c)[0] == toks[a]);
        assert(toks.subrange(a, c).drop_first() =~= toks.subrange(a + 1, c));
        assert(toks.subrange(a, b)[0] == toks[a]);
        assert(toks.subrange(a, b).drop_first() =~= toks.subrange(a + 1, b));
        assert(concat_lexemes(toks.subrange(a, c)) =~= concat_lexemes(toks.subrange(a, b))
            + concat_lexemes(toks.subrange(b, c)));
    }
}

fn copy_bytes(v: &Vec<u8>) -> (r: Vec<u8>)
    ensures
        r@ == v@,
{
    let mut r: Vec<u8> = Vec::new();
    let mut i: usize = 0;
    while i < v.len()
        invariant
            i <= v@.len(),
            r@ == v@.subrange(0, i as int),
        decreases v@.len() - i,
    {
        r.push(v[i]);
        proof {
            assert(r@ =~= v@.subrange(0, i + 1));
        }
        i += 1;
    }
    proof {
        assert(r@ =~= v@);
    }
    r
}

fn clone_label(s: &String) -> (r: String)
    ensures
        r == *s,
{
    s.clone()
}

/// What parsing `sym` at token position `i` yields under the
/// ordered-choice semantics, within a recursion budget: the end of the
/// consumed token range, or nothing when the parse fails there (or the
/// budget runs out). A terminal consumes one matching token; a non-terminal
/// commits to its first production whose right-hand side parses.
pub open spec fn ll_sym(g: Grammar, toks: Seq<Token>, i: int, sym: Sym, fuel: nat) -> Option<
    (TreeV, int),
>
    decreases fuel, 1int, 0int,
{
    if g.spec_is_terminal(sym) {
        if i < toks.len() && toks[i].sym == sym {
            Some((TreeV::Leaf { sym, lexeme: toks[i].lexeme@ }, i + 1))
        } else {
            None
        }
    } else {
        if fuel == 0 {
            None
        } else {
            ll_choice(g, toks, i, sym, 0, fuel)
        }
    }
}

/// Ordered choice from production `r` on: the first production of `sym`
/// whose right-hand side parses wins.
pub open spec fn ll_choice(
    g: Grammar,
    toks: Seq<Token>,
    i: int,
    sym: Sym,
    r: int,
    fuel: nat,
) -> Option<(TreeV, int)>
    decreases fuel, 0int, g.prods@.len() - r,
{
    if r < 0 || r >= g.prods@.len() || fuel == 0 {
        None
    } else if g.prods@[r].lhs == sym {
        match ll_rhs(g, toks, i, r, 0, (fuel - 1) as nat) {
            Some(p) => Some(
                (TreeV::Node { sym, name: g.prods@[r].name@, children: p.0 }, p.1),
            ),
            None => ll_choice(g, toks, i, sym, r + 1, fuel),
        }
    } else {
        ll_choice(g, toks, i, sym, r + 1, fuel)
    }
}

/// The rest of production `rule`'s right-hand side, from element `idx`,
/// parsed in sequence.
pub open spec fn ll_rhs(
    g: Grammar,
    toks: Seq<Token>,
    i: int,
    rule: int,
    idx: int,
    fuel: nat,
) -> Option<(Seq<TreeV>, int)>
    decreases fuel, 2int, g.prods@[rule].rhs@.len() - idx,
{
    if fuel == 0 || rule < 0 || rule >= g.prods@.len() || idx < 0 {
        None
    } else if idx >= g.prods@[rule].rhs@.len() {
        Some((Seq::<TreeV>::empty(), i))
    } else {
        match ll_sym(g, toks, i, g.prods@[rule].rhs@[idx], fuel) {
            Some(p) => match ll_rhs(g, toks, p.1, rule, idx + 1, fuel) {
                Some(q) => Some((seq![p.0] + q.0, q.1)),
                None => None,
            },
            None => None,
        }
    }
}

/// Parse one occurrence of `sym` at token position `i`. The result is
/// exactly what the ordered-choice semantics [`ll_sym`] yields; on success
/// the tree is rooted at `sym` and carries exactly the lexemes of the
/// consumed token range. The recursion budget only bounds the verifier's
/// measure; real parses never exhaust it.
fn parse_symbol(g: &Grammar, toks: &Vec<Token>, i: usize, sym: Sym, fuel: usize) -> (r: Result<
    (Tree, usize),
    ParseError,
>)
    requires
        g.wf(),
        (sym as int) < g.n_symbols,
        i <= toks@.len(),
    ensures
        r matches Ok(p) ==> {
            &&& i <= p.1 <= toks@.len()
            &&& tree_sym(p.0) == sym
            &&& leaf_bytes(p.0) == concat_lexemes(toks@.subrange(i as int, p.1 as int))
        },
        match r {
            Ok(p) => ll_sym(*g, toks@, i as int, sym, fuel as nat) == Some(
                (tree_view(p.0), p.1 as int),
            ),
            Err(e) => ll_sym(*g, toks@, i as int, sym, fuel as nat) is None,
        },
    decreases fuel, 0int,
{
    if g.is_terminal(sym) {
        if i < toks.len() && toks[i].sym == sym {
            let lexeme = copy_bytes(&toks[i].lexeme);
            let leaf = Tree::Leaf { sym, lexeme };
            proof {
                let w = toks@.subrange(i as int, i + 1);
                assert(w[0] == toks@[i as int]);
                assert(w.drop_first() =~= Seq::<Token>::empty());
                assert(concat_lexemes(w.drop_first()) == Seq::<u8>::empty());
                assert(leaf_bytes(leaf) =~= concat_lexemes(w));
                assert(tree_view(leaf) == TreeV::Leaf { sym, lexeme: toks@[i as int].lexeme@ });
            }
            Ok((leaf, i + 1))
        } else {
            Err(ParseError::ParseError)
        }
    } else {
        if fuel == 0 {
            return Err(ParseError::ParseError);
        }
        let mut r: usize = 0;
        while r < g.prods.len()
            invariant
                g.wf(),
                (sym as int) < g.n_symbols,
                !g.spec_is_terminal(sym),
                i <= toks@.len(),
                r <= g.prods@.len(),
                fuel >= 1,
                ll_choice(*g, toks@, i as int, sym, 0, fuel as nat) == ll_choice(
                    *g,
                    toks@,
                    i as int,
                    sym,
                    r as int,
                    fuel as nat,
                ),
            decreases g.prods@.len() - r,
        {
            if g.prods[r].lhs == sym {
                match parse_rhs(g, toks, i, r, fuel - 1) {
                    Ok((children, j)) => {
                        let node = Tree::Node {
                            sym,
                            name: clone_label(&g.prods[r].name),
                            children,
                        };
                        proof {
                            assert(tree_view(node) == TreeV::Node {
                                sym,
                                name: g.prods@[r as int].name@,
                                children: views_of(children@),
                            });
                            assert(ll_choice(*g, toks@, i as int, sym, r as int, fuel as nat)
                                == Some((tree_view(node), j as int)));
                        }
                        return Ok((node, j));
                    },
                    Err(_) => {
                        // ordered choice: backtrack and try the next
                        // production of this non-terminal
                        proof {
                            assert(ll_choice(*g, toks@, i as int, sym, r as int, fuel as nat)
                                == ll_choice(*g, toks@, i as int, sym, r + 1, fuel as nat));
                        }
                    },
                }
            }
            r += 1;
        }
        Err(ParseError::ParseError)
    }
}

/// Parse the whole right-hand side of production `rule` at position `i`,
/// returning the children in rhs order.
fn parse_rhs(g: &Grammar, toks: &Vec<Token>, i: usize, rule: usize, fuel: usize) -> (r: Result<
    (Vec<Tree>, usize),
    ParseError,
>)
    requires
        g.wf(),
        (rule as int) < g.prods@.len(),
        i <= toks@.len(),
    ensures
        r matches Ok(p) ==> {
            &&& i <= p.1 <= toks@.len()
            &&& bytes_of(p.0@) == concat_lexemes(toks@.subrange(i as int, p.1 as int))
        },
        match r {
            Ok(p) => ll_rhs(*g, toks@, i as int, rule as int, 0, fuel as nat) == Some(
                (views_of(p.0@), p.1 as int),
            ),
            Err(e) => ll_rhs(*g, toks@, i as int, rule as int, 0, fuel as nat) is None,
        },
    decreases fuel, 1int,
{
    if fuel == 0 {
        return Err(ParseError::ParseError);
    }
    let mut children: Vec<Tree> = Vec::new();
    let mut cur: usize = i;
    let mut idx: usize = 0;
    let rhs_len = g.prods[rule].rhs.len();
    proof {
        assert(toks@.subrange(i as int, i as int) =~= Seq::<Token>::empty());
        assert(views_of(children@) == Seq::<TreeV>::empty());
        match ll_rhs(*g, toks@, i as int, rule as int, 0, fuel as nat) {
            Some(q) => {
                assert(Seq::<TreeV>::empty() + q.0 =~= q.0);
            },
            None => {},
        }
    }
    while idx < rhs_len
        invariant
            g.wf(),
            (rule as int) < g.prods@.len(),
            rhs_len == g.prods@[rule as int].rhs@.len(),
            idx <= rhs_len,
            i <= cur <= toks@.len(),
            fuel >= 1,
            bytes_of(children@) == concat_lexemes(toks@.subrange(i as int, cur as int)),
            (match ll_rhs(*g, toks@, cur as int, rule as int, idx as int, fuel as nat) {
                Some(q) => ll_rhs(*g, toks@, i as int, rule as int, 0, fuel as nat) == Some(
                    (views_of(children@) + q.0, q.1),
                ),
                None => ll_rhs(*g, toks@, i as int, rule as int, 0, fuel as nat) is None,
            }),
        decreases rhs_len - idx,
    {
        let next_sym = g.prods[rule].rhs[idx];
        proof {
            assert(g.prod_wf(rule as int));
            assert(g.prods@[rule as int].rhs@[idx as int] < g.n_symbols);
        }
        match parse_symbol(g, toks, cur, next_sym, fuel) {
            Ok((tree, j)) => {
                let ghost children_prev = children@;
                let ghost cur_prev = cur as int;
                let ghost tree_g = tree;
                children.push(tree);
                proof {
                    lemma_bytes_push(children_prev, tree_g);
                    lemma_views_push(children_prev, tree_g);
                    lemma_concat_split(toks@, i as int, cur_prev, j as int);
                    // one parsed element folds into the sequence the
                    // semantics builds
                    match ll_rhs(*g, toks@, j as int, rule as int, idx + 1, fuel as nat) {
                        Some(q) => {
                            assert(ll_rhs(
                                *g,
                                toks@,
                                cur_prev,
                                rule as int,
                                idx as int,
                                fuel as nat,
                            ) == Some((seq![tree_view(tree_g)] + q.0, q.1)));
                            assert(views_of(children_prev) + (seq![tree_view(tree_g)] + q.0)
                                =~= views_of(children@) + q.0);
                        },
                        None => {
                            assert(ll_rhs(
                                *g,
                                toks@,
                                cur_prev,
                                rule as int,
                                idx as int,
                                fuel as nat,
                            ) is None);
                        },
                    }
                }
                cur = j;
            },
            Err(e) => {
                proof {
                    assert(ll_rhs(*g, toks@, cur as int, rule as int, idx as int, fuel as nat)
                        is None);
                }
                return Err(e);
            },
        }
        idx += 1;
    }
    proof {
        assert(ll_rhs(*g, toks@, cur as int, rule as int, idx as int, fuel as nat) == Some(
            (Seq::<TreeV>::empty(), cur as int),
        ));
        assert(views_of(children@) + Seq::<TreeV>::empty() =~= views_of(children@));
    }
    Ok((children, cur))
}

/// Parse a token sequence as one occurrence of the start symbol consuming
/// the whole input; anything less is a parse error. On success the tree is
/// rooted at the start symbol and its leaf lexemes, concatenated, are
/// exactly the tokens' lexemes.
pub fn parse_ll(g: &Grammar, toks: &Vec<Token>) -> (r: Result<Tree, ParseError>)
    requires
        g.wf(),
    ensures
        match r {
            Ok(tree) => {
                &&& tree_sym(tree) == g.start
                &&& leaf_bytes(tree) == concat_lexemes(toks@)
            },
            Err(e) => e == ParseError::ParseError,
        },
        (match r {
            Ok(tree) => ll_sym(*g, toks@, 0, g.start, usize::MAX as nat) == Some(
                (tree_view(tree), toks@.len() as int),
            ),
            Err(e) => !(exists|tv: TreeV|
                #[trigger] ll_sym(*g, toks@, 0, g.start, usize::MAX as nat) == Some(
                    (tv, toks@.len() as int),
                )),
        }),
{
    match parse_symbol(g, toks, 0, g.start, usize::MAX) {
        Ok((tree, j)) => {
            if j == toks.len() {
                proof {
                    assert(toks@.subrange(0, toks@.len() as int) =~= toks@);
                }
                Ok(tree)
            } else {
                Err(ParseError::ParseError)
            }
        },
        Err(e) => Err(e),
    }
}

} // verus!
