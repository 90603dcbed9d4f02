//! The canonical LR(0) item-set automaton: states are canonical closures,
//! discovered by a worklist from the closure of the augmented item, with
//! transitions grouped by the symbol under the dot.
//!
//! State ids are assigned in discovery order, and outgoing symbols are
//! visited in increasing id order, so the automaton is deterministic.

use vstd::prelude::*;
use crate::Sym;
use crate::grammar::{Grammar, BuildError};
use crate::item::{Item, LR0Closure, closure_valid, has_seed_keys, keys_subset};

verus! {

/// Hard bound on the number of automaton states this library will build.
pub const MAX_STATES: usize = 1000000;

/// The grammar can exhibit a full complement of pairwise-distinct LR(0)
/// states: the only ground on which a build may stop with a capacity error.
pub open spec fn lr0_capacity_exhausted(g: Grammar) -> bool {
    exists|ss: Seq<LR0Closure>|
        {
            &&& #[trigger] ss.len() == MAX_STATES
            &&& forall|p: int| 0 <= p < ss.len() ==> (#[trigger] ss[p]).wf(g) && ss[p].closed(g)
            &&& forall|p: int, q: int|
                0 <= p < q < ss.len() ==> !closure_same(#[trigger] ss[p], #[trigger] ss[q])
        }
}

/// Two closures carry the same item keys: the same canonical set.
pub open spec fn closure_same(a: LR0Closure, b: LR0Closure) -> bool {
    &&& a.items@.len() == b.items@.len()
    &&& forall|k: int|
        0 <= k < a.items@.len() ==> (#[trigger] a.items@[k]).rule() == b.items@[k].rule()
            && a.items@[k].dot() == b.items@[k].dot()
}

proof fn lemma_same_has(a: LR0Closure, b: LR0Closure)
    requires
        closure_same(a, b),
    ensures
        forall|r: int, d: int| #[trigger] a.has(r, d) <==> b.has(r, d),
{
    assert forall|r: int, d: int| #[trigger] a.has(r, d) <==> b.has(r, d) by {
        if a.has(r, d) {
            let k = choose|k: int|
                0 <= k < a.items@.len() && (#[trigger] a.items@[k]).rule() == r
                    && a.items@[k].dot() == d;
            assert(b.items@[k].rule() == r && b.items@[k].dot() == d);
        }
        if b.has(r, d) {
            let k = choose|k: int|
                0 <= k < b.items@.len() && (#[trigger] b.items@[k]).rule() == r
                    && b.items@[k].dot() == d;
            assert(a.items@[k].rule() == r && a.items@[k].dot() == d);
        }
    };
}

/// The closure has an item with `sym` under the dot: the state moves on `sym`.
pub open spec fn moves_on(c: LR0Closure, g: Grammar, sym: int) -> bool {
    exists|k: int|
        0 <= k < c.items@.len() && (#[trigger] c.items@[k]).dot() < c.items@[k].rhs@.len()
            && c.items@[k].rhs@[c.items@[k].dot()] == sym as Sym
}

/// Some transition on `sym` leaves this state.
pub open spec fn trans_has(ts: Seq<(Sym, usize)>, sym: int) -> bool {
    exists|k: int| 0 <= k < ts.len() && (#[trigger] ts[k]).0 == sym as Sym
}

/// The LR(0) automaton.
pub struct Lr0Dfa {
    /// Canonical closures; the state id is the index. State 0 is the closure
    /// of the augmented item with the dot at the left end.
    pub states: Vec<LR0Closure>,
    /// Outgoing transitions of each state, in increasing symbol order.
    pub transitions: Vec<Vec<(Sym, usize)>>,
    /// The state containing the augmented item with the dot at the end:
    /// the one that accepts once the input is exhausted.
    pub accept_state: usize,
}

/// State `j` is the target of a transition out of a state with a smaller id:
/// discovery order makes every state's parent precede it.
pub open spec fn has_pred(ts: Seq<Vec<(Sym, usize)>>, j: int) -> bool {
    exists|p: int, k: int|
        0 <= p < j && p < ts.len() && 0 <= k < ts[p]@.len() && (((#[trigger] ts[p]@[k]).1) as int)
            == j
}

/// Some entry of the transition row under construction targets state `j`.
pub open spec fn row_targets(row: Seq<(Sym, usize)>, j: int) -> bool {
    exists|k: int| 0 <= k < row.len() && (((#[trigger] row[k]).1) as int) == j
}

/// Every item of `src` with `sym` under the dot lies, shifted, in `c2`:
/// `c2` covers the transition's kernel.
pub open spec fn kernel_in(c2: LR0Closure, src: LR0Closure, g: Grammar, sym: int) -> bool {
    forall|r: int, d: int|
        #[trigger] src.has(r, d) && 0 <= r < g.prods@.len() && 0 <= d < g.prods@[r].rhs@.len()
            && g.prods@[r].rhs@[d] == sym as Sym ==> c2.has(r, d + 1)
}

impl Lr0Dfa {
    /// Every transition `(sym, j)` of state `i` is within bounds; state `j`
    /// is exactly the closure of state `i`'s kernel shifted on `sym`: it
    /// contains every shifted kernel item, and it is least — contained in
    /// every closed set covering that kernel.
    pub open spec fn trans_wf_at(&self, g: Grammar, i: int, k: int) -> bool {
        let sym = self.transitions@[i]@[k].0;
        let j = self.transitions@[i]@[k].1 as int;
        &&& (sym as int) < g.n_symbols
        &&& 0 <= j < self.states@.len()
        &&& forall|r: int, d: int|
            #[trigger] self.states@[i].has(r, d) && 0 <= r < g.prods@.len() && 0 <= d
                < g.prods@[r].rhs@.len() && g.prods@[r].rhs@[d] == sym ==> self.states@[j].has(
                r,
                d + 1,
            )
        &&& forall|c2: LR0Closure|
            c2.closed(g) && kernel_in(c2, self.states@[i], g, sym as int)
                ==> #[trigger] keys_subset(self.states@[j], c2)
    }

    pub open spec fn wf(&self, g: Grammar) -> bool {
        &&& 1 <= self.states@.len()
        &&& self.transitions@.len() == self.states@.len()
        &&& forall|i: int|
            0 <= i < self.states@.len() ==> (#[trigger] self.states@[i]).wf(g)
                && self.states@[i].closed(g)
        &&& forall|i: int, k: int|
            0 <= i < self.transitions@.len() && 0 <= k < self.transitions@[i]@.len()
                ==> self.trans_wf_at(g, i, k)
        &&& forall|i: int, k1: int, k2: int|
            0 <= i < self.transitions@.len() && 0 <= k1 < k2 < self.transitions@[i]@.len() ==> (
            #[trigger] self.transitions@[i]@[k1]).0 < (#[trigger] self.transitions@[i]@[k2]).0
        &&& forall|i: int, sym: int|
            0 <= i < self.states@.len() && 0 <= sym < g.n_symbols ==> (#[trigger] moves_on(
                self.states@[i],
                g,
                sym,
            ) <==> trans_has(self.transitions@[i]@, sym))
        &&& forall|i: int, j: int|
            0 <= i < j < self.states@.len() ==> !closure_same(
                #[trigger] self.states@[i],
                #[trigger] self.states@[j],
            )
        &&& self.states@[0].has(0, 0)
        &&& forall|c2: LR0Closure|
            c2.closed(g) && c2.has(0, 0) ==> #[trigger] keys_subset(self.states@[0], c2)
        &&& forall|j: int| 1 <= j < self.states@.len() ==> #[trigger] has_pred(self.transitions@, j)
        &&& (self.accept_state as int) < self.states@.len()
        &&& self.states@[self.accept_state as int].has(0, 2)
        &&& forall|r: int, d: int|
            #[trigger] self.states@[self.accept_state as int].has(r, d) ==> r == 0 && d == 2
    }
}

/// Reachability: a well-formed automaton holds no unreachable state. Any set
/// of state ids that contains state 0 and is closed under the automaton's
/// transitions contains every state id.
pub proof fn lemma_state_reachable(g: Grammar, d: Lr0Dfa, rs: Set<int>, j: int)
    requires
        d.wf(g),
        rs.contains(0),
        forall|p: int, k: int|
            rs.contains(p) && 0 <= p < d.transitions@.len() && 0 <= k
                < d.transitions@[p]@.len() ==> rs.contains(
                ((#[trigger] d.transitions@[p]@[k]).1) as int,
            ),
        0 <= j < d.states@.len(),
    ensures
        rs.contains(j),
    decreases j,
{
    if j >= 1 {
        assert(has_pred(d.transitions@, j));
        let (p, k) = choose|p: int, k: int|
            0 <= p < j && p < d.transitions@.len() && 0 <= k < d.transitions@[p]@.len() && (((
            #[trigger] d.transitions@[p]@[k]).1) as int) == j;
        lemma_state_reachable(g, d, rs, p);
    }
}

/// Find a transition on `sym` in a transition row.
pub fn lookup_transition(ts: &Vec<(Sym, usize)>, sym: Sym) -> (r: Option<usize>)
    ensures
        match r {
            Some(j) => exists|k: int|
                0 <= k < ts@.len() && (#[trigger] ts@[k]) == (sym, j),
            None => !trans_has(ts@, sym as int),
        },
{
    let mut k: usize = 0;
    while k < ts.len()
        invariant
            k <= ts@.len(),
            forall|k2: int| 0 <= k2 < k ==> (#[trigger] ts@[k2]).0 != sym,
        decreases ts@.len() - k,
    {
        if ts[k].0 == sym {
            let j = ts[k].1;
            proof {
                assert(ts@[k as int] == (sym, j));
            }
            return Some(j);
        }
        k += 1;
    }
    proof {
        if trans_has(ts@, sym as int) {
            let k2 = choose|k2: int| 0 <= k2 < ts@.len() && (#[trigger] ts@[k2]).0 == sym;
            assert(false);
        }
    }
    None
}

/// Compare two canonical closures by their item keys.
fn closure_eq(a: &LR0Closure, b: &LR0Closure) -> (r: bool)
    ensures
        r == closure_same(*a, *b),
{
    if a.items.len() != b.items.len() {
        return false;
    }
    let mut k: usize = 0;
    while k < a.items.len()
        invariant
            a.items@.len() == b.items@.len(),
            k <= a.items@.len(),
            forall|k2: int|
                0 <= k2 < k ==> (#[trigger] a.items@[k2]).rule() == b.items@[k2].rule()
                    && a.items@[k2].dot() == b.items@[k2].dot(),
        decreases a.items@.len() - k,
    {
        if a.items[k].rule_id.0 != b.items[k].rule_id.0 || a.items[k].pointer != b.items[k].pointer {
            return false;
        }
        k += 1;
    }
    true
}

/// Find a state whose closure equals `c`.
fn find_state(states: &Vec<LR0Closure>, c: &LR0Closure) -> (r: Option<usize>)
    ensures
        match r {
            Some(j) => (j as int) < states@.len() && closure_same(states@[j as int], *c),
            None => forall|j: int|
                0 <= j < states@.len() ==> !closure_same(#[trigger] states@[j], *c),
        },
{
    let mut j: usize = 0;
    while j < states.len()
        invariant
            j <= states@.len(),
            forall|j2: int| 0 <= j2 < j ==> !closure_same(#[trigger] states@[j2], *c),
        decreases states@.len() - j,
    {
        if closure_eq(&states[j], c) {
            return Some(j);
        }
        j += 1;
    }
    None
}

/// The items of `c` with `sym` under the dot, each with the dot advanced.
fn shifted_group(c: &LR0Closure, sym: Sym, g: &Grammar) -> (grp: Vec<Item>)
    requires
        g.wf(),
        c.wf(*g),
    ensures
        closure_valid(grp@, *g),
        grp@.len() > 0 <==> moves_on(*c, *g, sym as int),
        forall|r: int, d: int|
            #[trigger] c.has(r, d) && 0 <= r < g.prods@.len() && 0 <= d < g.prods@[r].rhs@.len()
                && g.prods@[r].rhs@[d] == sym ==> exists|k: int|
                0 <= k < grp@.len() && (#[trigger] grp@[k]).rule() == r && grp@[k].dot() == d + 1,
        forall|k: int|
            0 <= k < grp@.len() ==> {
                let gi = #[trigger] grp@[k];
                &&& gi.dot() > 0
                &&& c.has(gi.rule(), gi.dot() - 1)
                &&& 0 <= gi.rule() < g.prods@.len()
                &&& gi.dot() - 1 < g.prods@[gi.rule()].rhs@.len()
                &&& g.prods@[gi.rule()].rhs@[gi.dot() - 1] == sym
            },
    {
        let mut grp: Vec<Item> = Vec::new();
        let mut idx: usize = 0;
        while idx < c.items.len()
            invariant
                g.wf(),
                c.wf(*g),
                idx <= c.items@.len(),
                closure_valid(grp@, *g),
                grp@.len() > 0 ==> moves_on(*c, *g, sym as int),
                forall|t: int|
                    0 <= t < idx && (#[trigger] c.items@[t]).dot() < c.items@[t].rhs@.len()
                        && c.items@[t].rhs@[c.items@[t].dot()] == sym ==> exists|k: int|
                        0 <= k < grp@.len() && (#[trigger] grp@[k]).rule() == c.items@[t].rule()
                            && grp@[k].dot() == c.items@[t].dot() + 1,
                forall|k: int|
                    0 <= k < grp@.len() ==> {
                        let gi = #[trigger] grp@[k];
                        &&& gi.dot() > 0
                        &&& c.has(gi.rule(), gi.dot() - 1)
                        &&& 0 <= gi.rule() < g.prods@.len()
                        &&& gi.dot() - 1 < g.prods@[gi.rule()].rhs@.len()
                        &&& g.prods@[gi.rule()].rhs@[gi.dot() - 1] == sym
                    },
            decreases c.items@.len() - idx,
        {
            let it = &c.items[idx];
            if it.pointer < it.rhs.len() && it.rhs[it.pointer] == sym {
                let mut nit = it.duplicate();
                proof {
                    assert(c.items@[idx as int].valid(*g));
                    assert(moves_on(*c, *g, sym as int)) by {
                        assert(c.items@[idx as int].dot() < c.items@[idx as int].rhs@.len());
                    };
                }
                nit.inc_pointer();
                let ghost grp_prev = grp@;
                grp.push(nit);
                proof {
                    assert(grp@[grp_prev.len() as int] == nit);
                    assert(forall|k: int| 0 <= k < grp_prev.len() ==> grp@[k] == grp_prev[k]);
                    assert(c.has(nit.rule(), nit.dot() - 1)) by {
                        assert(c.items@[idx as int].rule() == nit.rule() && c.items@[
                            idx as int].dot() == nit.dot() - 1);
                    };
                    assert forall|t: int|
                        0 <= t < idx + 1 && (#[trigger] c.items@[t]).dot() < c.items@[t].rhs@.len()
                            && c.items@[t].rhs@[c.items@[t].dot()] == sym implies exists|k: int|
                        0 <= k < grp@.len() && (#[trigger] grp@[k]).rule() == c.items@[t].rule()
                            && grp@[k].dot() == c.items@[t].dot() + 1 by {
                        if t < idx {
                            let k = choose|k: int|
                                0 <= k < grp_prev.len() && (#[trigger] grp_prev[k]).rule()
                                    == c.items@[t].rule() && grp_prev[k].dot() == c.items@[t].dot()
                                    + 1;
                            assert(grp@[k] == grp_prev[k]);
                        } else {
                            assert(grp@[grp_prev.len() as int].rule() == c.items@[t].rule());
                        }
                    };
                }
            }
            idx += 1;
        }
        proof {
            if moves_on(*c, *g, sym as int) {
                let k = choose|k: int|
                    0 <= k < c.items@.len() && (#[trigger] c.items@[k]).dot()
                        < c.items@[k].rhs@.len() && c.items@[k].rhs@[c.items@[k].dot()]
                        == sym as Sym;
                assert(exists|k2: int|
                    0 <= k2 < grp@.len() && (#[trigger] grp@[k2]).rule() == c.items@[k].rule()
                        && grp@[k2].dot() == c.items@[k].dot() + 1);
            }
        }
        grp
    }


/// Build the LR(0) automaton: the states, their transitions, and the accept
/// state, which is found by following the start symbol and then `⊥` from
/// state 0. Fails only if the automaton outgrows [`MAX_STATES`].
pub fn compute_table(g: &Grammar) -> (res: Result<Lr0Dfa, BuildError>)
    requires
        g.wf(),
    ensures
        match res {
            Ok(d) => d.wf(*g),
            Err(e) => {
                &&& e == BuildError::TooManyStates
                &&& lr0_capacity_exhausted(*g)
            },
        },
{
    let mut seed: Vec<Item> = Vec::new();
    let it0 = Item::at_start(g, 0);
    let ghost it0g = it0;
    seed.push(it0);
    let ghost seed_view = seed@;
    proof {
        assert(seed_view[0] == it0g);
        assert(closure_valid(seed_view, *g)) by {
            assert(seed_view[0].valid(*g));
        };
    }
    let c0 = LR0Closure::from(seed, g);
    let mut states: Vec<LR0Closure> = Vec::new();
    let mut transitions: Vec<Vec<(Sym, usize)>> = Vec::new();
    states.push(c0);
    proof {
        assert(c0.has(seed_view[0].rule(), seed_view[0].dot()));
        assert(states@[0].has(0, 0));
        assert forall|c2: LR0Closure| c2.closed(*g) && c2.has(0, 0) implies #[trigger] keys_subset(
            states@[0],
            c2,
        ) by {
            assert(has_seed_keys(c2, seed_view)) by {
                assert forall|jx: int| 0 <= jx < seed_view.len() implies c2.has(
                    (#[trigger] seed_view[jx]).rule(),
                    seed_view[jx].dot(),
                ) by {
                    assert(seed_view[jx] == it0g);
                };
            };
            assert(keys_subset(c0, c2));
        };
    }
    let mut i: usize = 0;
    while i < states.len()
        invariant
            g.wf(),
            1 <= states@.len() <= MAX_STATES,
            i <= states@.len(),
            transitions@.len() == i,
            states@[0].has(0, 0),
            forall|c2: LR0Closure|
                c2.closed(*g) && c2.has(0, 0) ==> #[trigger] keys_subset(states@[0], c2),
            forall|p: int|
                0 <= p < states@.len() ==> (#[trigger] states@[p]).wf(*g) && states@[p].closed(*g),
            forall|p: int, q: int|
                0 <= p < q < states@.len() ==> !closure_same(
                    #[trigger] states@[p],
                    #[trigger] states@[q],
                ),
            forall|p: int, k: int|
                0 <= p < i && 0 <= k < transitions@[p]@.len() ==> {
                    let sym = (#[trigger] transitions@[p]@[k]).0;
                    let j = transitions@[p]@[k].1 as int;
                    &&& (sym as int) < g.n_symbols
                    &&& 0 <= j < states@.len()
                    &&& forall|r: int, d: int|
                        #[trigger] states@[p].has(r, d) && 0 <= r < g.prods@.len() && 0 <= d
                            < g.prods@[r].rhs@.len() && g.prods@[r].rhs@[d] == sym
                            ==> states@[j].has(r, d + 1)
                    &&& forall|c2: LR0Closure|
                        c2.closed(*g) && kernel_in(c2, states@[p], *g, sym as int)
                            ==> #[trigger] keys_subset(states@[j], c2)
                },
            forall|p: int, k1: int, k2: int|
                0 <= p < i && 0 <= k1 < k2 < transitions@[p]@.len() ==> (
                #[trigger] transitions@[p]@[k1]).0 < (#[trigger] transitions@[p]@[k2]).0,
            forall|p: int, sym: int|
                0 <= p < i && 0 <= sym < g.n_symbols ==> (#[trigger] moves_on(
                    states@[p],
                    *g,
                    sym,
                ) <==> trans_has(transitions@[p]@, sym)),
            forall|j2: int| 1 <= j2 < states@.len() ==> #[trigger] has_pred(transitions@, j2),
        decreases MAX_STATES - states@.len(), states@.len() - i,
    {
        let ghost len_at_entry = states@.len();
        let mut row: Vec<(Sym, usize)> = Vec::new();
        let mut sym: Sym = 0;
        while sym < g.n_symbols
            invariant
                g.wf(),
                1 <= states@.len() <= MAX_STATES,
                len_at_entry <= states@.len(),
                i < len_at_entry,
                i < states@.len(),
                transitions@.len() == i,
                sym <= g.n_symbols,
                states@[0].has(0, 0),
                forall|c2: LR0Closure|
                    c2.closed(*g) && c2.has(0, 0) ==> #[trigger] keys_subset(states@[0], c2),
                forall|p: int|
                    0 <= p < states@.len() ==> (#[trigger] states@[p]).wf(*g) && states@[p].closed(
                        *g,
                    ),
                forall|p: int, q: int|
                    0 <= p < q < states@.len() ==> !closure_same(
                        #[trigger] states@[p],
                        #[trigger] states@[q],
                    ),
                forall|p: int, k: int|
                    0 <= p < i && 0 <= k < transitions@[p]@.len() ==> {
                        let s3 = (#[trigger] transitions@[p]@[k]).0;
                        let j = transitions@[p]@[k].1 as int;
                        &&& (s3 as int) < g.n_symbols
                        &&& 0 <= j < states@.len()
                        &&& forall|r: int, d: int|
                            #[trigger] states@[p].has(r, d) && 0 <= r < g.prods@.len() && 0 <= d
                                < g.prods@[r].rhs@.len() && g.prods@[r].rhs@[d] == s3
                                ==> states@[j].has(r, d + 1)
                        &&& forall|c2: LR0Closure|
                            c2.closed(*g) && kernel_in(c2, states@[p], *g, s3 as int)
                                ==> #[trigger] keys_subset(states@[j], c2)
                    },
                forall|p: int, k1: int, k2: int|
                    0 <= p < i && 0 <= k1 < k2 < transitions@[p]@.len() ==> (
                    #[trigger] transitions@[p]@[k1]).0 < (#[trigger] transitions@[p]@[k2]).0,
                forall|p: int, sym2: int|
                    0 <= p < i && 0 <= sym2 < g.n_symbols ==> (#[trigger] moves_on(
                        states@[p],
                        *g,
                        sym2,
                    ) <==> trans_has(transitions@[p]@, sym2)),
                forall|k: int|
                    0 <= k < row@.len() ==> {
                        let s2 = (#[trigger] row@[k]).0;
                        let j = row@[k].1 as int;
                        &&& (s2 as int) < sym
                        &&& 0 <= j < states@.len()
                        &&& forall|r: int, d: int|
                            #[trigger] states@[i as int].has(r, d) && 0 <= r < g.prods@.len() && 0
                                <= d < g.prods@[r].rhs@.len() && g.prods@[r].rhs@[d] == s2
                                ==> states@[j].has(r, d + 1)
                        &&& forall|c2: LR0Closure|
                            c2.closed(*g) && kernel_in(c2, states@[i as int], *g, s2 as int)
                                ==> #[trigger] keys_subset(states@[j], c2)
                    },
                forall|k1: int, k2: int|
                    0 <= k1 < k2 < row@.len() ==> (#[trigger] row@[k1]).0
                        < (#[trigger] row@[k2]).0,
                forall|s2: int|
                    0 <= s2 < sym ==> (#[trigger] moves_on(states@[i as int], *g, s2)
                        <==> trans_has(row@, s2)),
                forall|j2: int| 1 <= j2 < len_at_entry ==> #[trigger] has_pred(transitions@, j2),
                forall|j2: int|
                    len_at_entry <= j2 < states@.len() ==> #[trigger] row_targets(row@, j2),
            decreases g.n_symbols - sym,
        {
            let grp = shifted_group(&states[i], sym, g);
            if grp.len() > 0 {
                let ghost grp_view = grp@;
                let next = LR0Closure::from(grp, g);
                let j_opt = find_state(&states, &next);
                let ghost states_prev = states@;
                let j: usize = match j_opt {
                    Some(j) => {
                        proof {
                            lemma_same_has(states@[j as int], next);
                            assert(forall|r: int, d: int|
                                #[trigger] states@[j as int].has(r, d) <==> next.has(r, d));
                        }
                        j
                    },
                    None => {
                        if states.len() >= MAX_STATES {
                            proof {
                                assert(states@.len() == MAX_STATES);
                            }
                            return Err(BuildError::TooManyStates);
                        }
                        let j = states.len();
                        states.push(next);
                        proof {
                            assert(forall|p: int|
                                0 <= p < states_prev.len() ==> states@[p] == states_prev[p]);
                            assert(states@[j as int] == next);
                            assert forall|p: int, q: int|
                                0 <= p < q < states@.len() implies !closure_same(
                                #[trigger] states@[p],
                                #[trigger] states@[q],
                            ) by {
                                if q == j as int {
                                    assert(!closure_same(states_prev[p], next));
                                    assert(states@[p] == states_prev[p]);
                                    if closure_same(states@[p], states@[q]) {
                                        assert(false);
                                    }
                                }
                            };
                        }
                        j
                    },
                };
                proof {
                    // every item of the current state that moves on `sym`
                    // lands, shifted, in state j
                    assert forall|r: int, d: int|
                        #[trigger] states@[i as int].has(r, d) && 0 <= r < g.prods@.len() && 0 <= d
                            < g.prods@[r].rhs@.len() && g.prods@[r].rhs@[d]
                            == sym implies states@[j as int].has(r, d + 1) by {
                        let k = choose|k: int|
                            0 <= k < grp_view.len() && (#[trigger] grp_view[k]).rule() == r
                                && grp_view[k].dot() == d + 1;
                        assert(next.has(r, d + 1));
                    };
                    // and state j is least among closed sets covering the
                    // shifted kernel, because its seeds all lie in the kernel
                    assert forall|c2: LR0Closure|
                        c2.closed(*g) && kernel_in(
                        c2,
                        states@[i as int],
                        *g,
                        sym as int,
                    ) implies #[trigger] keys_subset(states@[j as int], c2) by {
                        assert(has_seed_keys(c2, grp_view)) by {
                            assert forall|jj: int| 0 <= jj < grp_view.len() implies c2.has(
                                (#[trigger] grp_view[jj]).rule(),
                                grp_view[jj].dot(),
                            ) by {
                                let gi = grp_view[jj];
                                assert(states@[i as int].has(gi.rule(), gi.dot() - 1));
                                assert(c2.has(gi.rule(), (gi.dot() - 1) + 1));
                            };
                        };
                        assert(keys_subset(next, c2));
                        assert forall|r: int, d: int| #[trigger] states@[j as int].has(
                            r,
                            d,
                        ) implies c2.has(r, d) by {
                            assert(next.has(r, d));
                        };
                    };
                }
                let ghost row_prev = row@;
                row.push((sym, j));
                proof {
                    assert(row@[row_prev.len() as int] == (sym, j));
                    assert(forall|k: int| 0 <= k < row_prev.len() ==> row@[k] == row_prev[k]);
                    assert forall|k: int| 0 <= k < row@.len() implies {
                        let s2 = (#[trigger] row@[k]).0;
                        let jj = row@[k].1 as int;
                        forall|c2: LR0Closure|
                            c2.closed(*g) && kernel_in(c2, states@[i as int], *g, s2 as int)
                                ==> #[trigger] keys_subset(states@[jj], c2)
                    } by {
                        if k < row_prev.len() {
                            assert(row@[k] == row_prev[k]);
                        } else {
                            assert(row@[k] == (sym, j));
                            assert(row@[k].0 == sym && row@[k].1 == j);
                            assert(forall|c2: LR0Closure|
                                c2.closed(*g) && kernel_in(c2, states@[i as int], *g, sym as int)
                                    ==> #[trigger] keys_subset(states@[j as int], c2));
                        }
                    };
                    assert forall|jx: int|
                        len_at_entry <= jx < states@.len() implies #[trigger] row_targets(
                        row@,
                        jx,
                    ) by {
                        if jx < states_prev.len() {
                            assert(row_targets(row_prev, jx));
                            let k2 = choose|k2: int|
                                0 <= k2 < row_prev.len() && (((#[trigger] row_prev[k2]).1) as int)
                                    == jx;
                            assert(row@[k2] == row_prev[k2]);
                            assert(((row@[k2].1) as int) == jx);
                        } else {
                            assert(jx == j as int);
                            assert(((row@[row_prev.len() as int].1) as int) == jx);
                        }
                    };
                    assert forall|s2: int|
                        0 <= s2 < sym + 1 implies (#[trigger] moves_on(states@[i as int], *g, s2)
                        <==> trans_has(row@, s2)) by {
                        if s2 < sym as int {
                            if trans_has(row_prev, s2) {
                                let k = choose|k: int|
                                    0 <= k < row_prev.len() && (#[trigger] row_prev[k]).0
                                        == s2 as Sym;
                                assert(row@[k].0 == s2 as Sym);
                            }
                            if trans_has(row@, s2) {
                                let k = choose|k: int|
                                    0 <= k < row@.len() && (#[trigger] row@[k]).0 == s2 as Sym;
                                assert(k < row_prev.len());
                                assert(row_prev[k].0 == s2 as Sym);
                            }
                        } else {
                            assert(row@[row_prev.len() as int].0 == sym);
                            assert(trans_has(row@, s2));
                            assert(moves_on(states@[i as int], *g, s2));
                        }
                    };
                }
            } else {
                proof {
                    assert forall|s2: int|
                        0 <= s2 < sym + 1 implies (#[trigger] moves_on(states@[i as int], *g, s2)
                        <==> trans_has(row@, s2)) by {
                        if s2 == sym as int {
                            assert(!moves_on(states@[i as int], *g, s2));
                            if trans_has(row@, s2) {
                                let k = choose|k: int|
                                    0 <= k < row@.len() && (#[trigger] row@[k]).0 == s2 as Sym;
                                assert(false);
                            }
                        }
                    };
                }
            }
            sym += 1;
        }
        let ghost trans_prev = transitions@;
        let ghost row_view = row@;
        transitions.push(row);
        proof {
            assert(forall|p: int| 0 <= p < trans_prev.len() ==> transitions@[p] == trans_prev[p]);
            assert(transitions@[trans_prev.len() as int]@ == row_view);
            assert forall|jx: int| 1 <= jx < states@.len() implies #[trigger] has_pred(
                transitions@,
                jx,
            ) by {
                if jx < len_at_entry {
                    assert(has_pred(trans_prev, jx));
                    let (p, k) = choose|p: int, k: int|
                        0 <= p < jx && p < trans_prev.len() && 0 <= k < trans_prev[p]@.len() && (((
                        #[trigger] trans_prev[p]@[k]).1) as int) == jx;
                    assert(transitions@[p] == trans_prev[p]);
                    assert((((transitions@[p]@[k]).1) as int) == jx);
                } else {
                    assert(row_targets(row_view, jx));
                    let k = choose|k: int|
                        0 <= k < row_view.len() && (((#[trigger] row_view[k]).1) as int) == jx;
                    assert((((transitions@[i as int]@[k]).1) as int) == jx);
                    assert(0 <= (i as int) < jx);
                }
            };
        }
        i += 1;
    }
    // Locate the accept state: follow `S` then `⊥` from state 0.
    proof {
        assert(g.prods@[0].rhs@ == seq![g.start, g.eof]);
        assert(moves_on(states@[0], *g, g.start as int)) by {
            let k = choose|k: int|
                0 <= k < states@[0].items@.len() && (#[trigger] states@[0].items@[k]).rule() == 0
                    && states@[0].items@[k].dot() == 0;
            assert(states@[0].items@[k].valid(*g));
            assert(states@[0].items@[k].rhs@[0] == g.start);
        };
    }
    let s1_opt = lookup_transition(&transitions[0], g.start);
    let s1: usize = match s1_opt {
        Some(s1) => s1,
        None => {
            proof {
                assert(false);
            }
            return Err(BuildError::TooManyStates);
        },
    };
    proof {
        let k = choose|k: int|
            0 <= k < transitions@[0]@.len() && (#[trigger] transitions@[0]@[k]) == (g.start, s1);
        assert(states@[s1 as int].has(0, 1));
        assert(moves_on(states@[s1 as int], *g, g.eof as int)) by {
            let k2 = choose|k2: int|
                0 <= k2 < states@[s1 as int].items@.len()
                    && (#[trigger] states@[s1 as int].items@[k2]).rule() == 0
                    && states@[s1 as int].items@[k2].dot() == 1;
            assert(states@[s1 as int].items@[k2].valid(*g));
            assert(states@[s1 as int].items@[k2].rhs@[1] == g.eof);
        };
    }
    let s2_opt = lookup_transition(&transitions[s1], g.eof);
    let s2: usize = match s2_opt {
        Some(s2) => s2,
        None => {
            proof {
                assert(false);
            }
            return Err(BuildError::TooManyStates);
        },
    };
    proof {
        let k = choose|k: int|
            0 <= k < transitions@[s1 as int]@.len() && (#[trigger] transitions@[s1 as int]@[k]) == (
            g.eof,
            s2,
        );
        assert(states@[s2 as int].has(0, 2));
    }
    // The accept state holds nothing besides `S~ -> S ⊥ .`: the `⊥`-edge's
    // target is contained in every closed set covering its kernel, and the
    // singleton is such a set, since user productions never mention `⊥`.
    let mut acc_item = Item::at_start(g, 0);
    proof {
        assert(acc_item.rhs@.len() == 2);
    }
    acc_item.inc_pointer();
    acc_item.inc_pointer();
    let mut acc_items: Vec<Item> = Vec::new();
    acc_items.push(acc_item);
    let single = LR0Closure { items: acc_items };
    proof {
        assert(single.items@.len() == 1);
        assert(single.items@[0].rule() == 0 && single.items@[0].dot() == 2);
        assert(single.closed(*g)) by {
            assert forall|ii: int| 0 <= ii < single.items@.len() implies single.closed_at(
                *g,
                (#[trigger] single.items@[ii]).rule(),
                single.items@[ii].dot(),
            ) by {
                assert(g.prods@[0].rhs@.len() == 2);
            };
        };
        assert(kernel_in(single, states@[s1 as int], *g, g.eof as int)) by {
            assert forall|r: int, d: int|
                #[trigger] states@[s1 as int].has(r, d) && 0 <= r < g.prods@.len() && 0 <= d
                    < g.prods@[r].rhs@.len() && g.prods@[r].rhs@[d] == g.eof implies single.has(
                r,
                d + 1,
            ) by {
                if r >= 1 {
                    assert(g.prods@[r].rhs@[d] != g.eof);
                }
                assert(r == 0);
                assert(g.prods@[0].rhs@ == seq![g.start, g.eof]);
                if d == 0 {
                    assert(g.prods@[0].rhs@[0] == g.start);
                    assert(false);
                }
                assert(d == 1);
                assert(single.items@[0].rule() == 0 && single.items@[0].dot() == 2);
                assert(single.has(r, d + 1));
            };
        };
        let k = choose|k: int|
            0 <= k < transitions@[s1 as int]@.len() && (#[trigger] transitions@[s1 as int]@[k]) == (
            g.eof,
            s2,
        );
        assert(keys_subset(states@[s2 as int], single));
        assert forall|r: int, d: int| #[trigger] states@[s2 as int].has(r, d) implies r == 0 && d
            == 2 by {
            assert(single.has(r, d));
            let jx = choose|jx: int|
                0 <= jx < single.items@.len() && (#[trigger] single.items@[jx]).rule() == r
                    && single.items@[jx].dot() == d;
            assert(jx == 0);
        };
    }
    Ok(Lr0Dfa { states, transitions, accept_state: s2 })
}

} // verus!
