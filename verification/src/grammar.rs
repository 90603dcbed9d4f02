//! The augmented grammar: terminals, non-terminals, productions.
//!
//! Symbols are integer ids sharing one id space:
//! user terminals `0 .. n_terminals`, then the end-of-input sentinel `eof`,
//! then the user non-terminals, then the augmented start sentinel `aug_start`.
//! The grammar surface syntax is an external collaborator: the core receives
//! the rules already structured, with production labels kept as strings only
//! to name the variants of the resulting parse-tree nodes.

use vstd::prelude::*;
use crate::Sym;

verus! {

/// One production `lhs -> rhs`, labelled `name`.
/// The production with id 0 is always the augmented `S~ -> S ⊥`.
pub struct Production {
    pub name: String,
    pub lhs: Sym,
    pub rhs: Vec<Sym>,
}

/// Errors surfaced while building a grammar or a parsing table.
#[derive(Debug, PartialEq, Eq, Clone, Copy)]
pub enum BuildError {
    /// An rhs references an undeclared symbol or a sentinel, a non-terminal
    /// has no production, or the start symbol is not a user non-terminal.
    InvalidGrammar,
    /// LR(1) construction found a shift and a reduce on one cell.
    ShiftReduceConflict,
    /// LR(1) construction found two reduces on one cell.
    ReduceReduceConflict,
    /// LR(0) or SLR construction found a shift/reduce or reduce/reduce conflict.
    Conflict,
    /// The item-set automaton exceeded this library's state capacity.
    TooManyStates,
}

/// The immutable augmented grammar.
pub struct Grammar {
    /// Productions, indexed by rule id; `prods[0]` is the augmented production.
    pub prods: Vec<Production>,
    /// User terminals are the ids `0 .. n_terminals`.
    pub n_terminals: Sym,
    /// All symbol ids lie in `0 .. n_symbols`.
    pub n_symbols: Sym,
    /// The end-of-input sentinel `⊥`; equals `n_terminals`.
    pub eof: Sym,
    /// The user start symbol.
    pub start: Sym,
    /// The augmented start sentinel `S~`; equals `n_symbols - 1`.
    pub aug_start: Sym,
}

impl Grammar {
    /// `s` is a terminal (a user terminal or the `⊥` sentinel).
    pub open spec fn spec_is_terminal(&self, s: Sym) -> bool {
        s <= self.eof
    }

    /// `s` is a non-terminal (a user non-terminal or the `S~` sentinel).
    pub open spec fn spec_is_nonterminal(&self, s: Sym) -> bool {
        self.eof < s < self.n_symbols
    }

    /// Some production has `x` on its left-hand side.
    pub open spec fn has_prod_for(&self, x: Sym) -> bool {
        exists|r: int| 1 <= r < self.prods@.len() && (#[trigger] self.prods@[r].lhs) == x
    }

    /// The production at `r` is internally consistent with the symbol space.
    pub open spec fn prod_wf(&self, r: int) -> bool {
        &&& self.spec_is_nonterminal(self.prods@[r].lhs)
        &&& forall|i: int|
            0 <= i < self.prods@[r].rhs@.len() ==> (#[trigger] self.prods@[r].rhs@[i])
                < self.n_symbols
    }

    /// Well-formedness: the sentinel layout, the augmented production at id 0,
    /// sane productions, and at least one production per user non-terminal.
    pub open spec fn wf(&self) -> bool {
        &&& self.n_symbols < usize::MAX
        &&& self.eof == self.n_terminals
        &&& self.aug_start == self.n_symbols - 1
        &&& self.eof < self.start < self.aug_start
        &&& 1 <= self.prods@.len()
        &&& self.prods@[0].lhs == self.aug_start
        &&& self.prods@[0].rhs@ == seq![self.start, self.eof]
        &&& forall|r: int| 0 <= r < self.prods@.len() ==> self.prod_wf(r)
        &&& forall|r: int|
            1 <= r < self.prods@.len() ==> (#[trigger] self.prods@[r].lhs) != self.aug_start
        &&& forall|r: int, i: int|
            1 <= r < self.prods@.len() && 0 <= i < self.prods@[r].rhs@.len() ==> (
            #[trigger] self.prods@[r].rhs@[i]) != self.eof && self.prods@[r].rhs@[i]
                != self.aug_start
        &&& forall|x: Sym| self.eof < x < self.aug_start ==> #[trigger] self.has_prod_for(x)
    }

    pub fn is_terminal(&self, s: Sym) -> (r: bool)
        ensures
            r == self.spec_is_terminal(s),
    {
        s <= self.eof
    }

    pub fn is_nonterminal(&self, s: Sym) -> (r: bool)
        ensures
            r == self.spec_is_nonterminal(s),
    {
        self.eof < s && s < self.n_symbols
    }

    /// The inputs describe a valid grammar: the symbol space fits the machine,
    /// the start symbol is a user non-terminal, every production's lhs is a
    /// user non-terminal, every rhs symbol is declared and is not a sentinel,
    /// and every user non-terminal owns at least one production.
    pub open spec fn valid_input(
        n_terminals: Sym,
        n_nonterminals: Sym,
        rules: Seq<(Sym, String, Vec<Sym>)>,
        start: Sym,
    ) -> bool {
        let eof = n_terminals as int;
        let n_symbols = n_terminals + n_nonterminals + 2;
        let aug = n_symbols - 1;
        &&& n_symbols < usize::MAX
        &&& rules.len() + 1 <= usize::MAX
        &&& eof < start < aug
        &&& forall|r: int| 0 <= r < rules.len() ==> eof < (#[trigger] rules[r].0) < aug
        &&& forall|r: int, i: int|
            0 <= r < rules.len() && 0 <= i < rules[r].2@.len() ==> {
                let s = #[trigger] rules[r].2@[i];
                s < n_symbols && s != eof && s != aug
            }
        &&& forall|x: int| eof < x < aug ==> #[trigger] input_has_rule(rules, x)
    }

    /// Build the augmented grammar from user terminal count, user non-terminal
    /// count, the user productions in source order, and the start symbol.
    /// User production `k` of the input receives rule id `k + 1`;
    /// rule id 0 is the augmented production `S~ -> S ⊥`, labelled `"S_0"`.
    pub fn new(
        n_terminals: Sym,
        n_nonterminals: Sym,
        rules: Vec<(Sym, String, Vec<Sym>)>,
        start: Sym,
    ) -> (res: Result<Grammar, BuildError>)
        ensures
            match res {
                Ok(g) => {
                    &&& Self::valid_input(n_terminals, n_nonterminals, rules@, start)
                    &&& g.wf()
                    &&& g.n_terminals == n_terminals
                    &&& g.n_symbols == n_terminals + n_nonterminals + 2
                    &&& g.eof == n_terminals
                    &&& g.start == start
                    &&& g.aug_start == g.n_symbols - 1
                    &&& g.prods@.len() == rules@.len() + 1
                    &&& g.prods@[0].name@ == "S_0"@
                    &&& forall|r: int|
                        0 <= r < rules@.len() ==> {
                            &&& (#[trigger] g.prods@[r + 1]).lhs == rules@[r].0
                            &&& g.prods@[r + 1].name == rules@[r].1
                            &&& g.prods@[r + 1].rhs == rules@[r].2
                        }
                },
                Err(e) => {
                    &&& e == BuildError::InvalidGrammar
                    &&& !Self::valid_input(n_terminals, n_nonterminals, rules@, start)
                },
            },
    {
        // Symbol-space layout, with machine-limit checks.
        if n_terminals > usize::MAX - 3 || n_nonterminals > usize::MAX - 3 - n_terminals {
            return Err(BuildError::InvalidGrammar);
        }
        let n_symbols = n_terminals + n_nonterminals + 2;
        let eof = n_terminals;
        let aug = n_symbols - 1;
        if rules.len() > usize::MAX - 1 {
            return Err(BuildError::InvalidGrammar);
        }
        if !(eof < start && start < aug) {
            return Err(BuildError::InvalidGrammar);
        }
        // Validate every production.
        let mut r: usize = 0;
        while r < rules.len()
            invariant
                r <= rules@.len(),
                eof == n_terminals,
                aug == n_symbols - 1,
                n_symbols == n_terminals + n_nonterminals + 2,
                forall|k: int| 0 <= k < r ==> eof < (#[trigger] rules@[k].0) < aug,
                forall|k: int, i: int|
                    0 <= k < r && 0 <= i < rules@[k].2@.len() ==> {
                        let s = #[trigger] rules@[k].2@[i];
                        s < n_symbols && s != eof && s != aug
                    },
            decreases rules@.len() - r,
        {
            let lhs = rules[r].0;
            if !(eof < lhs && lhs < aug) {
                return Err(BuildError::InvalidGrammar);
            }
            let mut i: usize = 0;
            while i < rules[r].2.len()
                invariant
                    r < rules@.len(),
                    i <= rules@[r as int].2@.len(),
                    eof == n_terminals,
                    aug == n_symbols - 1,
                    n_symbols == n_terminals + n_nonterminals + 2,
                    forall|j: int|
                        0 <= j < i ==> {
                            let s = #[trigger] rules@[r as int].2@[j];
                            s < n_symbols && s != eof && s != aug
                        },
                decreases rules@[r as int].2@.len() - i,
            {
                let s = rules[r].2[i];
                if s >= n_symbols || s == eof || s == aug {
                    return Err(BuildError::InvalidGrammar);
                }
                i += 1;
            }
            r += 1;
        }
        // Every user non-terminal must own a production.
        let mut x: usize = eof + 1;
        while x < aug
            invariant
                eof < x <= aug,
                eof == n_terminals,
                aug == n_symbols - 1,
                n_symbols == n_terminals + n_nonterminals + 2,
                forall|y: int| eof < y < x ==> #[trigger] input_has_rule(rules@, y),
            decreases aug - x,
        {
            let mut found = false;
            let mut k: usize = 0;
            while k < rules.len()
                invariant
                    k <= rules@.len(),
                    found ==> exists|j: int|
                        0 <= j < rules@.len() && (#[trigger] rules@[j].0) == x,
                    !found ==> forall|j: int| 0 <= j < k ==> (#[trigger] rules@[j].0) != x,
                decreases rules@.len() - k,
            {
                if rules[k].0 == x {
                    found = true;
                }
                k += 1;
            }
            if !found {
                // No production for x, yet `valid_input` demands one: reject.
                proof {
                    if Self::valid_input(n_terminals, n_nonterminals, rules@, start) {
                        assert(input_has_rule(rules@, x as int));
                        let j = choose|j: int|
                            0 <= j < rules@.len() && (#[trigger] rules@[j].0) == (x as int) as Sym;
                        assert(rules@[j].0 == x);
                        assert(false);
                    }
                }
                return Err(BuildError::InvalidGrammar);
            }
            proof {
                let j = choose|j: int| 0 <= j < rules@.len() && rules@[j].0 == x;
                assert(rules@[j].0 == (x as int) as Sym);
                assert(input_has_rule(rules@, x as int));
            }
            x += 1;
        }
        // Assemble: the augmented production first, then the user productions.
        let mut prods: Vec<Production> = Vec::new();
        let mut aug_rhs: Vec<Sym> = Vec::new();
        aug_rhs.push(start);
        aug_rhs.push(eof);
        proof {
            assert(aug_rhs@ =~= seq![start, eof]);
        }
        prods.push(Production { name: augmented_name(), lhs: aug, rhs: aug_rhs });
        let ghost snapshot = rules@;
        let mut rest = rules;
        let mut k: usize = 0;
        while rest.len() > 0
            invariant
                snapshot.len() + 1 <= usize::MAX,
                k + rest@.len() == snapshot.len(),
                rest@ == snapshot.skip(k as int),
                prods@.len() == k + 1,
                prods@[0].lhs == aug,
                prods@[0].rhs@ == seq![start, eof],
                prods@[0].name@ == "S_0"@,
                forall|j: int|
                    0 <= j < k ==> {
                        &&& (#[trigger] prods@[j + 1]).lhs == snapshot[j].0
                        &&& prods@[j + 1].name == snapshot[j].1
                        &&& prods@[j + 1].rhs == snapshot[j].2
                    },
            decreases rest@.len(),
        {
            let (lhs, name, rhs) = rest.remove(0);
            proof {
                assert(snapshot.skip(k as int)[0] == snapshot[k as int]);
                assert(snapshot.skip(k as int).remove(0) =~= snapshot.skip(k as int + 1));
            }
            prods.push(Production { name, lhs, rhs });
            k += 1;
        }
        let g = Grammar { prods, n_terminals, n_symbols, eof, start, aug_start: aug };
        proof {
            assert forall|rr: int| 0 <= rr < g.prods@.len() implies g.prod_wf(rr) by {
                if rr == 0 {
                    assert(g.prods@[0].rhs@[0] == start);
                    assert(g.prods@[0].rhs@[1] == eof);
                } else {
                    assert(g.prods@[rr] == g.prods@[(rr - 1) + 1]);
                    assert(g.prods@[rr].rhs == snapshot[rr - 1].2);
                }
            };
            assert forall|xx: Sym| g.eof < xx < g.aug_start implies #[trigger] g.has_prod_for(
                xx,
            ) by {
                assert(input_has_rule(snapshot, xx as int));
                let j = choose|j: int|
                    0 <= j < snapshot.len() && (#[trigger] snapshot[j].0) == (xx as int) as Sym;
                assert(g.prods@[j + 1].lhs == xx);
            };
            assert forall|x: int| g.eof < x < g.aug_start implies #[trigger] input_has_rule(
                rules@,
                x,
            ) by {
                assert(eof < x < aug);
            };
            assert forall|rr: int| 1 <= rr < g.prods@.len() implies (#[trigger] g.prods@[rr].lhs)
                != g.aug_start by {
                assert(g.prods@[rr] == g.prods@[(rr - 1) + 1]);
            };
            assert forall|rr: int, ii: int|
                1 <= rr < g.prods@.len() && 0 <= ii < g.prods@[rr].rhs@.len() implies (
            #[trigger] g.prods@[rr].rhs@[ii]) != g.eof && g.prods@[rr].rhs@[ii]
                != g.aug_start by {
                assert(g.prods@[rr] == g.prods@[(rr - 1) + 1]);
                assert(g.prods@[rr].rhs == snapshot[rr - 1].2);
                assert(rules@[rr - 1].2@[ii] != eof && rules@[rr - 1].2@[ii] != aug);
            };
        }
        Ok(g)
    }

    /// Number of items `(rule, dot)` over the whole grammar: the bound behind
    /// the closure worklists' termination measures.
    pub open spec fn num_items(&self) -> int {
        num_items_of(self.prods@)
    }
}

/// Some input rule has `x` on its left-hand side.
pub open spec fn input_has_rule(rules: Seq<(Sym, String, Vec<Sym>)>, x: int) -> bool {
    exists|r: int| 0 <= r < rules.len() && (#[trigger] rules[r].0) == x as Sym
}

/// Items contributed by a sequence of productions: each production
/// `A -> X1..Xk` carries `k + 1` dot positions.
pub open spec fn num_items_of(prods: Seq<Production>) -> int
    decreases prods.len(),
{
    if prods.len() == 0 {
        0
    } else {
        num_items_of(prods.drop_last()) + prods.last().rhs@.len() + 1
    }
}

/// The label of the augmented production; reserved, since user labels may not
/// contain an underscore.
fn augmented_name() -> (s: String)
    ensures
        s@ == "S_0"@,
{
    "S_0".to_owned()
}

} // verus!
