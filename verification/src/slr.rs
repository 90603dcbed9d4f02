//! The SLR parsing table: shifts come from the LR(0) automaton; a reducible
//! item `A -> α·` reduces on every terminal in `FOLLOW(A)`. A cell that
//! would receive two actions is a conflict and aborts the build.

use vstd::prelude::*;
use crate::Sym;
use crate::grammar::{Grammar, BuildError};
use crate::table::{Lr0Dfa, compute_table, trans_has, moves_on};
use crate::parser::{Action, ParseTable, empty_row, set_cell};
use crate::first_sets::compute_first_sets;
use crate::follow_sets::{FollowTable, compute_follow_sets};
use crate::lr0::lr0_conflict_free;

verus! {

/// The SLR condition at the automaton `d` with FOLLOW table `fo`: no
/// terminal in the FOLLOW set of a reducible item's left-hand side is also
/// shifted from that state or claimed by another reducible item there.
pub open spec fn slr_conflict_free(d: Lr0Dfa, fo: FollowTable) -> bool {
    forall|i: int, k: int|
        0 <= i < d.states@.len() && 0 <= k < d.states@[i].items@.len() && (
        #[trigger] d.states@[i].items@[k]).dot() == d.states@[i].items@[k].rhs@.len()
            ==> forall|x: Sym|
            (#[trigger] fo.sets@[d.states@[i].items@[k].lhs as int].has(x)) ==> {
                &&& !trans_has(d.transitions@[i]@, x as int)
                &&& forall|k2: int|
                    0 <= k2 < d.states@[i].items@.len() && k2 != k && (#[trigger] d.states@[i].items@[k2]).dot() == d.states@[i].items@[k2].rhs@.len()
                        ==> !fo.sets@[d.states@[i].items@[k2].lhs as int].has(x)
            }
}

/// A grammar that builds under LR(0) also builds under SLR: a state whose
/// reduction LR(0) accepts is a singleton, so it shifts nothing and holds no
/// second reducible item, and no SLR cell can collide.
pub proof fn lemma_lr0_builds_implies_slr(g: Grammar, d: Lr0Dfa, fo: FollowTable)
    requires
        g.wf(),
        d.wf(g),
        fo.wf(g),
        lr0_conflict_free(d),
    ensures
        slr_conflict_free(d, fo),
{
    assert forall|i: int, k: int|
        0 <= i < d.states@.len() && 0 <= k < d.states@[i].items@.len() && (
    #[trigger] d.states@[i].items@[k]).dot() == d.states@[i].items@[k].rhs@.len() implies forall|
        x: Sym,
    |
        (#[trigger] fo.sets@[d.states@[i].items@[k].lhs as int].has(x)) ==> {
            &&& !trans_has(d.transitions@[i]@, x as int)
            &&& forall|k2: int|
                0 <= k2 < d.states@[i].items@.len() && k2 != k && (#[trigger] d.states@[i].items@[k2]).dot() == d.states@[i].items@[k2].rhs@.len()
                    ==> !fo.sets@[d.states@[i].items@[k2].lhs as int].has(x)
        } by {
        let c = d.states@[i];
        assert(crate::lr0::has_reducible(c)) by {
            assert(c.items@[k].dot() == c.items@[k].rhs@.len());
        };
        assert(c.items@.len() == 1);
        assert(k == 0);
        assert forall|x: Sym|
            (#[trigger] fo.sets@[c.items@[k].lhs as int].has(x)) implies {
            &&& !trans_has(d.transitions@[i]@, x as int)
            &&& forall|k2: int|
                0 <= k2 < c.items@.len() && k2 != k && (#[trigger] c.items@[k2]).dot()
                    == c.items@[k2].rhs@.len() ==> !fo.sets@[c.items@[k2].lhs as int].has(x)
        } by {
            // x is a terminal id, so the automaton's move/transition
            // correspondence applies to it
            assert(c.items@[k].valid(g));
            assert(g.prod_wf(c.items@[k].rule()));
            assert(g.spec_is_nonterminal(g.prods@[c.items@[k].rule()].lhs));
            assert((c.items@[k].lhs as int) < g.n_symbols);
            let fset = fo.sets@[c.items@[k].lhs as int];
            let m = choose|m: int| 0 <= m < fset.seq().len() && fset.seq()[m] == x;
            assert((x as int) < g.eof + 1);
            if trans_has(d.transitions@[i]@, x as int) {
                assert(moves_on(c, g, x as int));
                let k3 = choose|k3: int|
                    0 <= k3 < c.items@.len() && (#[trigger] c.items@[k3]).dot()
                        < c.items@[k3].rhs@.len() && c.items@[k3].rhs@[c.items@[k3].dot()]
                        == x;
                assert(k3 == 0);
                assert(false);
            }
        };
    };
}

/// The SLR condition at one state: no reducible item's FOLLOW terminal is
/// shifted from the state or claimed by another reducible item there.
pub open spec fn slr_state_free(d: Lr0Dfa, fo: FollowTable, i: int) -> bool {
    forall|k: int|
        0 <= k < d.states@[i].items@.len() && (#[trigger] d.states@[i].items@[k]).dot()
            == d.states@[i].items@[k].rhs@.len() ==> forall|x: Sym|
            (#[trigger] fo.sets@[d.states@[i].items@[k].lhs as int].has(x)) ==> {
                &&& !trans_has(d.transitions@[i]@, x as int)
                &&& forall|k2: int|
                    0 <= k2 < d.states@[i].items@.len() && k2 != k && (#[trigger] d.states@[
                        i].items@[k2]).dot() == d.states@[i].items@[k2].rhs@.len()
                        ==> !fo.sets@[d.states@[i].items@[k2].lhs as int].has(x)
            }
}

/// The SLR row for state `i`: shifts exactly on the automaton's
/// transitions, reduces exactly on the FOLLOW terminals of the state's
/// reducible items, and nothing else anywhere.
pub open spec fn slr_row_exact(
    row: Seq<Option<Action>>,
    d: Lr0Dfa,
    fo: FollowTable,
    g: Grammar,
    i: int,
) -> bool {
    &&& forall|k: int|
        0 <= k < d.transitions@[i]@.len() ==> row[((#[trigger] d.transitions@[i]@[k]).0) as int]
            == Some(Action::Shift(d.transitions@[i]@[k].1))
    &&& forall|k: int, x: Sym|
        0 <= k < d.states@[i].items@.len() && (#[trigger] d.states@[i].items@[k]).dot()
            == d.states@[i].items@[k].rhs@.len() && (#[trigger] fo.sets@[d.states@[i].items@[
            k].lhs as int].has(x)) ==> ((x as int) <= g.n_symbols && (row[x as int] matches Some(
            Action::Reduce(it),
        ) && it.rule() == d.states@[i].items@[k].rule()))
    &&& forall|c: int|
        0 <= c <= g.n_symbols && !((#[trigger] row[c]) is None) ==> (trans_has(
            d.transitions@[i]@,
            c,
        ) || exists|k: int|
            0 <= k < d.states@[i].items@.len() && (#[trigger] d.states@[i].items@[k]).dot()
                == d.states@[i].items@[k].rhs@.len() && fo.sets@[d.states@[i].items@[
                k].lhs as int].has(c as Sym))
}

/// Fill the SLR table for a built automaton and FOLLOW table: an error is
/// returned exactly when some state exhibits an SLR conflict, so the fill
/// decides the SLR condition. On success the cells are pinned: away from
/// the accept state, every row is exactly its shifts and FOLLOW-reduces;
/// the accept row holds `Accept` alone.
pub fn slr_fill(g: &Grammar, d: &Lr0Dfa, fo: &FollowTable) -> (res: Result<
    ParseTable,
    BuildError,
>)
    requires
        g.wf(),
        d.wf(*g),
        fo.wf(*g),
    ensures
        match res {
            Ok(t) => {
                &&& t.wf(*g)
                &&& t.rows@.len() == d.states@.len()
                &&& t.cell(d.accept_state as int, g.n_symbols as int) == Some(Action::Accept)
                &&& forall|c: int|
                    0 <= c < g.n_symbols ==> (#[trigger] t.cell(d.accept_state as int, c)) is None
                &&& forall|i: int|
                    0 <= i < d.states@.len() && i != d.accept_state ==> #[trigger] slr_row_exact(
                        t.rows@[i]@,
                        *d,
                        *fo,
                        *g,
                        i,
                    )
                &&& slr_conflict_free(*d, *fo)
            },
            Err(e) => {
                &&& e == BuildError::Conflict
                &&& !slr_conflict_free(*d, *fo)
            },
        },
{
    let width = g.n_symbols + 1;
    let mut rows: Vec<Vec<Option<Action>>> = Vec::new();
    let mut s: usize = 0;
    while s < d.states.len()
        invariant
            g.wf(),
            d.wf(*g),
            fo.wf(*g),
            width == g.n_symbols + 1,
            s <= d.states@.len(),
            rows@.len() == s,
            forall|p: int| 0 <= p < s ==> (#[trigger] rows@[p])@.len() == width,
            forall|p: int, c: int|
                0 <= p < s && 0 <= c < width ==> (match #[trigger] rows@[p]@[c] {
                    Some(Action::Shift(j)) => (j as int) < d.states@.len(),
                    Some(Action::Reduce(it)) => it.valid(*g) && it.dot() == it.rhs@.len(),
                    Some(Action::Accept) => true,
                    None => true,
                }),
            forall|p: int| 0 <= p < s ==> #[trigger] slr_state_free(*d, *fo, p),
            forall|p: int| 0 <= p < s ==> #[trigger] slr_row_exact(rows@[p]@, *d, *fo, *g, p),
        decreases d.states@.len() - s,
    {
        let mut row = empty_row(width);
        // shifts and gotos
        let ts = &d.transitions[s];
        let mut k: usize = 0;
        while k < ts.len()
            invariant
                g.wf(),
                d.wf(*g),
                width == g.n_symbols + 1,
                s < d.states@.len(),
                *ts == d.transitions@[s as int],
                k <= ts@.len(),
                row@.len() == width,
                forall|c: int|
                    0 <= c < width ==> (match #[trigger] row@[c] {
                        Some(Action::Shift(j)) => (j as int) < d.states@.len(),
                        Some(Action::Reduce(it)) => it.valid(*g) && it.dot() == it.rhs@.len(),
                        Some(Action::Accept) => true,
                        None => true,
                    }),
                forall|c: int|
                    0 <= c < width && !((#[trigger] row@[c]) is None) ==> exists|k2: int|
                        0 <= k2 < k && (#[trigger] ts@[k2]).0 == c as Sym,
                forall|k2: int|
                    0 <= k2 < k ==> row@[(#[trigger] ts@[k2]).0 as int] == Some(
                        Action::Shift(ts@[k2].1),
                    ),
            decreases ts@.len() - k,
        {
            let (sym, j) = ts[k];
            proof {
                assert(d.trans_wf_at(*g, s as int, k as int));
                assert(ts@[k as int] == (sym, j));
                // the cell is still empty: an occupant would be an earlier
                // transition on the same symbol, but symbols are strictly
                // increasing
                if !(row@[sym as int] is None) {
                    let k2 = choose|k2: int| 0 <= k2 < k && (#[trigger] ts@[k2]).0 == sym;
                    assert(ts@[k2].0 < ts@[k as int].0);
                    assert(false);
                }
            }
            let ghost row_prev = row@;
            let _ = set_cell(&mut row, sym, Action::Shift(j));
            proof {
                assert forall|k2: int| 0 <= k2 < k + 1 implies row@[(#[trigger] ts@[k2]).0
                    as int] == Some(Action::Shift(ts@[k2].1)) by {
                    if k2 < k {
                        assert(ts@[k2].0 < ts@[k as int].0);
                        assert(row@[ts@[k2].0 as int] == row_prev[ts@[k2].0 as int]);
                    } else {
                        assert(row@[sym as int] == Some(Action::Shift(j)));
                    }
                };
                assert forall|c: int|
                    0 <= c < width && !((#[trigger] row@[c]) is None) implies exists|k2: int|
                    0 <= k2 < k + 1 && (#[trigger] ts@[k2]).0 == c as Sym by {
                    if c == sym as int {
                        assert(ts@[k as int].0 == c as Sym);
                    } else {
                        let k2 = choose|k2: int| 0 <= k2 < k && (#[trigger] ts@[k2]).0 == c as Sym;
                    }
                };
            }
            k += 1;
        }
        proof {
            // every occupied cell is some transition's shift
            assert forall|c: int|
                0 <= c < width && !((#[trigger] row@[c]) is None) implies trans_has(
                d.transitions@[s as int]@,
                c,
            ) by {
                let k2 = choose|k2: int|
                    0 <= k2 < ts@.len() && (#[trigger] ts@[k2]).0 == c as Sym;
            };
        }
        // reduces on FOLLOW of each reducible item's left-hand side
        let st = &d.states[s];
        let mut k: usize = 0;
        while k < st.items.len()
            invariant
                g.wf(),
                d.wf(*g),
                fo.wf(*g),
                width == g.n_symbols + 1,
                s < d.states@.len(),
                *st == d.states@[s as int],
                k <= st.items@.len(),
                row@.len() == width,
                forall|c: int|
                    0 <= c < width ==> (match #[trigger] row@[c] {
                        Some(Action::Shift(j)) => (j as int) < d.states@.len(),
                        Some(Action::Reduce(it)) => it.valid(*g) && it.dot() == it.rhs@.len(),
                        Some(Action::Accept) => true,
                        None => true,
                    }),
                forall|c: int|
                    0 <= c < width && !((#[trigger] row@[c]) is None) ==> (trans_has(
                        d.transitions@[s as int]@,
                        c,
                    ) || exists|k2: int|
                        0 <= k2 < k && (#[trigger] st.items@[k2]).dot()
                            == st.items@[k2].rhs@.len() && fo.sets@[st.items@[k2].lhs as int].has(
                            c as Sym,
                        )),
                forall|k2: int|
                    0 <= k2 < d.transitions@[s as int]@.len()
                        ==> row@[(#[trigger] d.transitions@[s as int]@[k2]).0 as int] == Some(
                        Action::Shift(d.transitions@[s as int]@[k2].1),
                    ),
                forall|k2: int, x: Sym|
                    0 <= k2 < k && (#[trigger] st.items@[k2]).dot() == st.items@[k2].rhs@.len()
                        && (#[trigger] fo.sets@[st.items@[k2].lhs as int].has(x)) ==> ((x as int)
                        < width && (row@[x as int] matches Some(Action::Reduce(it2)) && it2.rule()
                        == st.items@[k2].rule())),
            decreases st.items@.len() - k,
        {
            let it = &st.items[k];
            if it.pointer == it.rhs.len() {
                proof {
                    assert(st.items@[k as int].valid(*g));
                    assert(g.prod_wf(st.items@[k as int].rule()));
                    assert(g.spec_is_nonterminal(g.prods@[st.items@[k as int].rule()].lhs));
                    assert((st.items@[k as int].lhs as int) < g.n_symbols);
                }
                let fset = &fo.sets[it.lhs];
                let mut m: usize = 0;
                while m < fset.len()
                    invariant
                        g.wf(),
                        d.wf(*g),
                        fo.wf(*g),
                        width == g.n_symbols + 1,
                        s < d.states@.len(),
                        *st == d.states@[s as int],
                        k < st.items@.len(),
                        *it == d.states@[s as int].items@[k as int],
                        it.valid(*g),
                        it.dot() == it.rhs@.len(),
                        *fset == fo.sets@[it.lhs as int],
                        m <= fset.seq().len(),
                        row@.len() == width,
                        forall|c: int|
                            0 <= c < width ==> (match #[trigger] row@[c] {
                                Some(Action::Shift(j)) => (j as int) < d.states@.len(),
                                Some(Action::Reduce(it2)) => it2.valid(*g) && it2.dot()
                                    == it2.rhs@.len(),
                                Some(Action::Accept) => true,
                                None => true,
                            }),
                        forall|c: int|
                            0 <= c < width && !((#[trigger] row@[c]) is None) ==> (trans_has(
                                d.transitions@[s as int]@,
                                c,
                            ) || (exists|k2: int|
                                0 <= k2 < k && (#[trigger] st.items@[k2]).dot()
                                    == st.items@[k2].rhs@.len() && fo.sets@[st.items@[
                                    k2].lhs as int].has(c as Sym)) || (exists|m2: int|
                                0 <= m2 < m && (#[trigger] fset.seq()[m2]) == c)),
                        forall|k2: int|
                            0 <= k2 < d.transitions@[s as int]@.len()
                                ==> row@[(#[trigger] d.transitions@[s as int]@[k2]).0 as int]
                                == Some(Action::Shift(d.transitions@[s as int]@[k2].1)),
                        forall|k2: int, x: Sym|
                            0 <= k2 < k && (#[trigger] st.items@[k2]).dot() == st.items@[
                                k2].rhs@.len() && (#[trigger] fo.sets@[st.items@[
                                k2].lhs as int].has(x)) ==> ((x as int) < width && (row@[x as int]
                                matches Some(Action::Reduce(it2)) && it2.rule() == st.items@[
                                k2].rule())),
                        forall|m2: int|
                            0 <= m2 < m ==> ((#[trigger] fset.seq()[m2]) as int) < width && (row@[
                                fset.seq()[m2] as int] matches Some(Action::Reduce(it2))
                                && it2.rule() == st.items@[k as int].rule()),
                    decreases fset.seq().len() - m,
                {
                    let x = fset.get(m);
                    proof {
                        assert(fset.seq()[m as int] == x);
                        assert(fo.sets@[it.lhs as int].has(x)) by {
                            assert(fset.seq()[m as int] == x);
                        };
                        assert(g.prod_wf(it.rule()));
                        assert((it.lhs as int) < fo.sets@.len());
                        assert(fo.sets@[it.lhs as int].below(g.eof + 1));
                        assert((x as int) < g.eof + 1) by {
                            assert(fset.seq()[m as int] < g.eof + 1);
                        };
                    }
                    let dup = it.duplicate();
                    proof {
                        assert(dup.valid(*g));
                        assert(dup.dot() == dup.rhs@.len());
                        assert(dup.rule() == it.rule());
                    }
                    let occupied = set_cell(&mut row, x, Action::Reduce(dup));
                    if occupied {
                        proof {
                            let ki = k as int;
                            let si = s as int;
                            let mi = m as int;
                            // the occupied cell cannot stem from an earlier
                            // symbol of this very FOLLOW set: they are smaller
                            assert(trans_has(d.transitions@[si]@, x as int) || exists|k2: int|
                                0 <= k2 < ki && (#[trigger] st.items@[k2]).dot()
                                    == st.items@[k2].rhs@.len() && fo.sets@[st.items@[
                                    k2].lhs as int].has(x)) by {
                                if exists|m2: int|
                                    0 <= m2 < mi && (#[trigger] fset.seq()[m2]) == x {
                                    let m2 = choose|m2: int|
                                        0 <= m2 < mi && (#[trigger] fset.seq()[m2]) == x;
                                    assert(fset.wf());
                                    assert(fset.seq()[m2] < fset.seq()[mi]);
                                    assert(false);
                                }
                            };
                            assert(!slr_conflict_free(*d, *fo)) by {
                                if slr_conflict_free(*d, *fo) {
                                    assert(d.states@[si].items@[ki].dot() == d.states@[
                                        si].items@[ki].rhs@.len());
                                    assert(fo.sets@[d.states@[si].items@[ki].lhs as int].has(x));
                                    if trans_has(d.transitions@[si]@, x as int) {
                                        assert(false);
                                    } else {
                                        let k2 = choose|k2: int|
                                            0 <= k2 < ki && (#[trigger] st.items@[k2]).dot()
                                                == st.items@[k2].rhs@.len() && fo.sets@[st.items@[
                                                k2].lhs as int].has(x);
                                        assert(false);
                                    }
                                }
                            };
                        }
                        return Err(BuildError::Conflict);
                    }
                    proof {
                        let mi = m as int;
                        assert(row@[x as int] matches Some(Action::Reduce(it2)) && it2.rule()
                            == st.items@[k as int].rule());
                        assert forall|k2: int|
                            0 <= k2 < d.transitions@[s as int]@.len() implies row@[(
                        #[trigger] d.transitions@[s as int]@[k2]).0 as int] == Some(
                            Action::Shift(d.transitions@[s as int]@[k2].1),
                        ) by {
                            assert(d.trans_wf_at(*g, s as int, k2));
                            let c0 = d.transitions@[s as int]@[k2].0 as int;
                            if c0 == x as int {
                                assert(false);
                            }
                        };
                        assert forall|c: int|
                            0 <= c < width && !((#[trigger] row@[c]) is None) implies (trans_has(
                            d.transitions@[s as int]@,
                            c,
                        ) || (exists|k2: int|
                            0 <= k2 < k && (#[trigger] st.items@[k2]).dot()
                                == st.items@[k2].rhs@.len() && fo.sets@[st.items@[
                                k2].lhs as int].has(c as Sym)) || (exists|m2: int|
                            0 <= m2 < mi + 1 && (#[trigger] fset.seq()[m2]) == c)) by {
                            if c == x as int {
                                assert(fset.seq()[mi] == x);
                                assert(0 <= mi < mi + 1 && fset.seq()[mi] == c);
                            } else {
                                if exists|m2: int|
                                    0 <= m2 < mi && (#[trigger] fset.seq()[m2]) == c {
                                    let m2 = choose|m2: int|
                                        0 <= m2 < mi && (#[trigger] fset.seq()[m2]) == c;
                                    assert(0 <= m2 < mi + 1 && fset.seq()[m2] == c);
                                }
                            }
                        };
                    }
                    m += 1;
                }
                proof {
                    let ki = k as int;
                    assert forall|c: int|
                        0 <= c < width && !((#[trigger] row@[c]) is None) implies (trans_has(
                        d.transitions@[s as int]@,
                        c,
                    ) || exists|k2: int|
                        0 <= k2 < ki + 1 && (#[trigger] st.items@[k2]).dot()
                            == st.items@[k2].rhs@.len() && fo.sets@[st.items@[k2].lhs as int].has(
                            c as Sym,
                        )) by {
                        if !trans_has(d.transitions@[s as int]@, c) {
                            if exists|m2: int|
                                0 <= m2 < fset.seq().len() && (#[trigger] fset.seq()[m2]) == c {
                                let m2 = choose|m2: int|
                                    0 <= m2 < fset.seq().len() && (#[trigger] fset.seq()[m2])
                                        == c;
                                assert(fo.sets@[st.items@[ki].lhs as int].has(c as Sym)) by {
                                    assert(fset.seq()[m2] == c as Sym);
                                };
                                assert(0 <= ki < ki + 1 && st.items@[ki].dot() == st.items@[
                                    ki].rhs@.len() && fo.sets@[st.items@[ki].lhs as int].has(
                                    c as Sym,
                                ));
                            } else {
                                let k2 = choose|k2: int|
                                    0 <= k2 < ki && (#[trigger] st.items@[k2]).dot()
                                        == st.items@[k2].rhs@.len() && fo.sets@[st.items@[
                                        k2].lhs as int].has(c as Sym);
                                assert(0 <= k2 < ki + 1);
                            }
                        }
                    };
                    assert forall|k2: int, x: Sym|
                        0 <= k2 < ki + 1 && (#[trigger] st.items@[k2]).dot() == st.items@[
                            k2].rhs@.len() && (#[trigger] fo.sets@[st.items@[k2].lhs as int].has(
                            x,
                        )) implies ((x as int) < width && (row@[x as int] matches Some(
                        Action::Reduce(it2),
                    ) && it2.rule() == st.items@[k2].rule())) by {
                        if k2 == ki {
                            let m2 = choose|m2: int|
                                0 <= m2 < fset.seq().len() && (#[trigger] fset.seq()[m2]) == x;
                            assert(row@[fset.seq()[m2] as int] matches Some(Action::Reduce(it2))
                                && it2.rule() == st.items@[ki].rule());
                        }
                    };
                }
            } else {
                proof {
                    let ki = k as int;
                    assert forall|c: int|
                        0 <= c < width && !((#[trigger] row@[c]) is None) implies (trans_has(
                        d.transitions@[s as int]@,
                        c,
                    ) || exists|k2: int|
                        0 <= k2 < ki + 1 && (#[trigger] st.items@[k2]).dot()
                            == st.items@[k2].rhs@.len() && fo.sets@[st.items@[k2].lhs as int].has(
                            c as Sym,
                        )) by {
                        if !trans_has(d.transitions@[s as int]@, c) {
                            let k2 = choose|k2: int|
                                0 <= k2 < ki && (#[trigger] st.items@[k2]).dot()
                                    == st.items@[k2].rhs@.len() && fo.sets@[st.items@[
                                    k2].lhs as int].has(c as Sym);
                            assert(0 <= k2 < ki + 1);
                        }
                    };
                }
            }
            k += 1;
        }
        // the state holds no conflict: every reducible item's FOLLOW cell
        // holds its own reduce, so no shift and no second reduce claims it
        proof {
            let si = s as int;
            assert forall|k: int|
                0 <= k < d.states@[si].items@.len() && (#[trigger] d.states@[si].items@[k]).dot()
                    == d.states@[si].items@[k].rhs@.len() implies forall|x: Sym|
                (#[trigger] fo.sets@[d.states@[si].items@[k].lhs as int].has(x)) ==> {
                    &&& !trans_has(d.transitions@[si]@, x as int)
                    &&& forall|k2: int|
                        0 <= k2 < d.states@[si].items@.len() && k2 != k && (#[trigger] d.states@[
                            si].items@[k2]).dot() == d.states@[si].items@[k2].rhs@.len()
                            ==> !fo.sets@[d.states@[si].items@[k2].lhs as int].has(x)
                } by {
                assert forall|x: Sym|
                    (#[trigger] fo.sets@[d.states@[si].items@[k].lhs as int].has(x)) implies {
                    &&& !trans_has(d.transitions@[si]@, x as int)
                    &&& forall|k2: int|
                        0 <= k2 < d.states@[si].items@.len() && k2 != k && (#[trigger] d.states@[
                            si].items@[k2]).dot() == d.states@[si].items@[k2].rhs@.len()
                            ==> !fo.sets@[d.states@[si].items@[k2].lhs as int].has(x)
                } by {
                    assert(row@[x as int] matches Some(Action::Reduce(it2)) && it2.rule()
                        == st.items@[k].rule());
                    if trans_has(d.transitions@[si]@, x as int) {
                        let kt = choose|kt: int|
                            0 <= kt < d.transitions@[si]@.len() && (#[trigger] d.transitions@[
                                si]@[kt]).0 == x as Sym;
                        assert(row@[x as int] == Some(
                            Action::Shift(d.transitions@[si]@[kt].1),
                        ));
                        assert(false);
                    }
                    assert forall|k2: int|
                        0 <= k2 < d.states@[si].items@.len() && k2 != k && (#[trigger] d.states@[
                            si].items@[k2]).dot() == d.states@[si].items@[k2].rhs@.len()
                            implies !fo.sets@[d.states@[si].items@[k2].lhs as int].has(x) by {
                        if fo.sets@[d.states@[si].items@[k2].lhs as int].has(x) {
                            assert(row@[x as int] matches Some(Action::Reduce(it3)) && it3.rule()
                                == st.items@[k2].rule());
                            // two reducible items at distinct positions have
                            // distinct rules, since both dots sit at the end
                            if k2 < k {
                                assert(crate::item::key_lt(st.items@[k2], st.items@[k]));
                            } else {
                                assert(crate::item::key_lt(st.items@[k], st.items@[k2]));
                            }
                            assert(st.items@[k2].valid(*g));
                            assert(st.items@[k].valid(*g));
                            assert(st.items@[k2].rule() != st.items@[k].rule());
                            assert(false);
                        }
                    };
                };
            };
            assert(slr_state_free(*d, *fo, si));
            assert(slr_row_exact(row@, *d, *fo, *g, si));
        }
        let ghost rows_prev = rows@;
        rows.push(row);
        proof {
            assert(forall|p: int| 0 <= p < rows_prev.len() ==> #[trigger] rows@[p] == rows_prev[p]);
        }
        s += 1;
    }
    // replace the accept state's row: `Accept` alone, on the
    // exhausted-input column; the augmented reduction there is never used
    let mut arow = empty_row(width);
    let _ = set_cell(&mut arow, g.n_symbols, Action::Accept);
    proof {
        assert(arow@[width - 1] == Some(Action::Accept));
    }
    let ghost rows_before = rows@;
    let _ = rows.remove(d.accept_state);
    rows.insert(d.accept_state, arow);
    proof {
        assert(rows@ =~= rows_before.update(d.accept_state as int, arow));
        assert forall|i: int|
            0 <= i < d.states@.len() && i != d.accept_state implies #[trigger] slr_row_exact(
            rows@[i]@,
            *d,
            *fo,
            *g,
            i,
        ) by {
            assert(rows@[i] == rows_before[i]);
        };
        assert forall|c: int| 0 <= c < g.n_symbols implies (#[trigger] rows@[d.accept_state
            as int]@[c]) is None by {
            assert(rows@[d.accept_state as int] == arow);
        };
        assert(slr_conflict_free(*d, *fo)) by {
            assert forall|i: int, k: int|
                0 <= i < d.states@.len() && 0 <= k < d.states@[i].items@.len() && (
            #[trigger] d.states@[i].items@[k]).dot()
                == d.states@[i].items@[k].rhs@.len() implies forall|x: Sym|
                (#[trigger] fo.sets@[d.states@[i].items@[k].lhs as int].has(x)) ==> {
                    &&& !trans_has(d.transitions@[i]@, x as int)
                    &&& forall|k2: int|
                        0 <= k2 < d.states@[i].items@.len() && k2 != k && (#[trigger] d.states@[
                            i].items@[k2]).dot() == d.states@[i].items@[k2].rhs@.len()
                            ==> !fo.sets@[d.states@[i].items@[k2].lhs as int].has(x)
                } by {
                assert(slr_state_free(*d, *fo, i));
            };
        };
    }
    let t = ParseTable { n_symbols: g.n_symbols, eof: g.eof, start: g.start, rows };
    proof {
        assert forall|s2: int, cc: int|
            0 <= s2 < t.rows@.len() && 0 <= cc <= t.n_symbols implies (match #[trigger] t.cell(
            s2,
            cc,
        ) {
            Some(Action::Shift(j)) => (j as int) < t.rows@.len(),
            Some(Action::Reduce(it)) => it.valid(*g) && it.dot() == it.rhs@.len(),
            Some(Action::Accept) => true,
            None => true,
        }) by {
            if s2 != d.accept_state {
                assert(t.rows@[s2] == rows_before[s2]);
            }
        };
    }
    Ok(t)
}


/// Build the SLR parsing table: the LR(0) automaton, FIRST and FOLLOW sets,
/// then the fill with conflict detection.
pub fn compute_slr_parsing_table(g: &Grammar) -> (res: Result<ParseTable, BuildError>)
    requires
        g.wf(),
    ensures
        match res {
            Ok(t) => {
                &&& t.wf(*g)
                &&& exists|d: Lr0Dfa, fo: FollowTable|
                    {
                        &&& #[trigger] d.wf(*g)
                        &&& #[trigger] fo.wf(*g)
                        &&& slr_conflict_free(d, fo)
                        &&& t.rows@.len() == d.states@.len()
                        &&& t.cell(d.accept_state as int, g.n_symbols as int) == Some(
                            Action::Accept,
                        )
                        &&& forall|c: int|
                            0 <= c < g.n_symbols ==> (#[trigger] t.cell(
                                d.accept_state as int,
                                c,
                            )) is None
                        &&& forall|i: int|
                            0 <= i < d.states@.len() && i != d.accept_state
                                ==> #[trigger] slr_row_exact(t.rows@[i]@, d, fo, *g, i)
                    }
            },
            Err(e) => {
                &&& e == BuildError::Conflict || e == BuildError::TooManyStates
                &&& (e == BuildError::Conflict ==> exists|
                    d: Lr0Dfa,
                    ft: crate::first_sets::FirstTable,
                    fo: FollowTable,
                |
                    {
                        &&& #[trigger] d.wf(*g)
                        &&& #[trigger] ft.wf(*g)
                        &&& #[trigger] fo.wf(*g)
                        &&& (forall|r: int|
                            0 <= r < g.prods@.len()
                                ==> #[trigger] crate::first_sets::prod_first_entailed(*g, ft, r))
                        &&& (forall|r: int, i: int|
                            0 <= r < g.prods@.len() && 0 <= i < g.prods@[r].rhs@.len()
                                ==> #[trigger] crate::follow_sets::prod_follow_entailed(
                                *g,
                                ft,
                                fo,
                                r,
                                i,
                            ))
                        &&& !slr_conflict_free(d, fo)
                    })
                &&& (e == BuildError::TooManyStates ==> crate::table::lr0_capacity_exhausted(*g))
            },
        },
{
    let d = match compute_table(g) {
        Ok(d) => d,
        Err(e) => {
            return Err(e);
        },
    };
    let ft = compute_first_sets(g);
    let fo = compute_follow_sets(g, &ft);
    let res = slr_fill(g, &d, &fo);
    proof {
        if res is Ok {
            assert(d.wf(*g) && fo.wf(*g));
        } else {
            assert(d.wf(*g) && ft.wf(*g) && fo.wf(*g) && !slr_conflict_free(d, fo));
        }
    }
    res
}

} // verus!
