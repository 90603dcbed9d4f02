//! The LR(0) parsing table: shifts come from the automaton's transitions;
//! a state containing a reducible item must contain nothing else, and then
//! reduces by it on every terminal. The accept state's row holds `Accept`
//! alone, on the exhausted-input column.

use vstd::prelude::*;
use crate::Sym;
use crate::grammar::{Grammar, BuildError};
use crate::item::LR0Closure;
use crate::table::{Lr0Dfa, compute_table};
use crate::parser::{Action, ParseTable, empty_row, set_cell};

verus! {

/// The closure holds an item with the dot at the end.
pub open spec fn has_reducible(c: LR0Closure) -> bool {
    exists|k: int|
        0 <= k < c.items@.len() && (#[trigger] c.items@[k]).dot() == c.items@[k].rhs@.len()
}

/// The LR(0) condition: a state with a reducible item is a singleton.
pub open spec fn lr0_conflict_free(d: Lr0Dfa) -> bool {
    forall|i: int|
        0 <= i < d.states@.len() ==> (has_reducible(#[trigger] d.states@[i])
            ==> d.states@[i].items@.len() == 1)
}

/// The row carries every automaton transition `(sym, j)` as `Shift(j)`.
pub open spec fn row_has_shifts(row: Seq<Option<Action>>, ts: Seq<(crate::Sym, usize)>) -> bool {
    forall|k: int|
        0 <= k < ts.len() ==> row[(#[trigger] ts[k]).0 as int] == Some(
            Action::Shift(ts[k].1),
        )
}

/// The row reduces by the state's lone item on every terminal, `⊥` included.
pub open spec fn row_reduces_by(row: Seq<Option<Action>>, c: LR0Closure, eof: int) -> bool {
    forall|x: int|
        0 <= x <= eof ==> ((#[trigger] row[x]) matches Some(Action::Reduce(it)) && it.rule()
            == c.items@[0].rule() && it.dot() == c.items@[0].dot())
}

/// No stray actions: an occupied cell of the row is a transition's shift,
/// or a terminal-column reduce in a state holding a reducible item.
pub open spec fn lr0_row_exact(row: Seq<Option<Action>>, d: Lr0Dfa, g: Grammar, i: int) -> bool {
    forall|c: int|
        0 <= c <= g.n_symbols && !((#[trigger] row[c]) is None) ==> (crate::table::trans_has(
            d.transitions@[i]@,
            c,
        ) || (has_reducible(d.states@[i]) && 0 <= c <= g.eof))
}

/// Fill the LR(0) table for a built automaton.
/// Returns the table exactly when the LR(0) condition holds.
/// Away from the accept state, whose row holds `Accept` alone, the cells
/// are pinned: every transition appears as its shift, and a state with a
/// reducible item reduces by it on every terminal.
pub fn lr0_fill(g: &Grammar, d: &Lr0Dfa) -> (res: Result<ParseTable, BuildError>)
    requires
        g.wf(),
        d.wf(*g),
    ensures
        match res {
            Ok(t) => {
                &&& t.wf(*g)
                &&& t.rows@.len() == d.states@.len()
                &&& lr0_conflict_free(*d)
                &&& t.cell(d.accept_state as int, g.n_symbols as int) == Some(Action::Accept)
                &&& forall|i: int|
                    0 <= i < d.states@.len() && i != d.accept_state ==> row_has_shifts(
                        (#[trigger] t.rows@[i])@,
                        d.transitions@[i]@,
                    )
                &&& forall|i: int|
                    0 <= i < d.states@.len() && i != d.accept_state && has_reducible(
                        d.states@[i],
                    ) ==> row_reduces_by((#[trigger] t.rows@[i])@, d.states@[i], g.eof as int)
                &&& forall|i: int|
                    0 <= i < d.states@.len() && i != d.accept_state ==> #[trigger] lr0_row_exact(
                        t.rows@[i]@,
                        *d,
                        *g,
                        i,
                    )
                &&& forall|c: int|
                    0 <= c < g.n_symbols ==> (#[trigger] t.cell(d.accept_state as int, c)) is None
            },
            Err(e) => {
                &&& e == BuildError::Conflict
                &&& !lr0_conflict_free(*d)
            },
        },
{
    // conflict check: a state with a reducible item must be a singleton
    let mut i: usize = 0;
    while i < d.states.len()
        invariant
            g.wf(),
            d.wf(*g),
            i <= d.states@.len(),
            forall|p: int|
                0 <= p < i ==> (has_reducible(#[trigger] d.states@[p])
                    ==> d.states@[p].items@.len() == 1),
        decreases d.states@.len() - i,
    {
        let st = &d.states[i];
        let mut k: usize = 0;
        let mut reducible = false;
        while k < st.items.len()
            invariant
                *st == d.states@[i as int],
                k <= st.items@.len(),
                reducible ==> has_reducible(*st),
                !reducible ==> forall|k2: int|
                    0 <= k2 < k ==> (#[trigger] st.items@[k2]).dot() != st.items@[k2].rhs@.len(),
            decreases st.items@.len() - k,
        {
            if st.items[k].pointer == st.items[k].rhs.len() {
                reducible = true;
                proof {
                    assert(st.items@[k as int].dot() == st.items@[k as int].rhs@.len());
                }
            }
            k += 1;
        }
        if reducible && st.items.len() != 1 {
            proof {
                assert(has_reducible(d.states@[i as int]));
                assert(!lr0_conflict_free(*d));
            }
            return Err(BuildError::Conflict);
        }
        proof {
            if !reducible && has_reducible(*st) {
                let k2 = choose|k2: int|
                    0 <= k2 < st.items@.len() && (#[trigger] st.items@[k2]).dot()
                        == st.items@[k2].rhs@.len();
                assert(false);
            }
        }
        i += 1;
    }
    // fill
    let width = g.n_symbols + 1;
    let mut rows: Vec<Vec<Option<Action>>> = Vec::new();
    let mut s: usize = 0;
    while s < d.states.len()
        invariant
            g.wf(),
            d.wf(*g),
            width == g.n_symbols + 1,
            s <= d.states@.len(),
            rows@.len() == s,
            lr0_conflict_free(*d),
            forall|p: int| 0 <= p < s ==> (#[trigger] rows@[p])@.len() == width,
            forall|p: int, c: int|
                0 <= p < s && 0 <= c < width ==> (match #[trigger] rows@[p]@[c] {
                    Some(Action::Shift(j)) => (j as int) < d.states@.len(),
                    Some(Action::Reduce(it)) => it.valid(*g) && it.dot() == it.rhs@.len(),
                    Some(Action::Accept) => true,
                    None => true,
                }),
            (d.accept_state as int) < s ==> rows@[d.accept_state as int]@[width - 1]
                == Some(Action::Accept),
            (d.accept_state as int) < s ==> forall|c: int|
                0 <= c < width - 1 ==> (#[trigger] rows@[d.accept_state as int]@[c]) is None,
            forall|p: int|
                0 <= p < s && p != d.accept_state ==> #[trigger] lr0_row_exact(
                    rows@[p]@,
                    *d,
                    *g,
                    p,
                ),
            forall|p: int|
                0 <= p < s && p != d.accept_state ==> row_has_shifts(
                    (#[trigger] rows@[p])@,
                    d.transitions@[p]@,
                ),
            forall|p: int|
                0 <= p < s && p != d.accept_state && has_reducible(d.states@[p])
                    ==> row_reduces_by((#[trigger] rows@[p])@, d.states@[p], g.eof as int),
        decreases d.states@.len() - s,
    {
        let mut row = empty_row(width);
        if s == d.accept_state {
            let ghost row0 = row@;
            let _ = set_cell(&mut row, g.n_symbols, Action::Accept);
            proof {
                assert(row@[width - 1] == Some(Action::Accept));
                assert(forall|c: int| 0 <= c < width - 1 ==> (#[trigger] row@[c]) is None);
            }
        } else {
            // shifts and gotos
            let ts = &d.transitions[s];
            let mut k: usize = 0;
            while k < ts.len()
                invariant
                    g.wf(),
                    d.wf(*g),
                    width == g.n_symbols + 1,
                    s < d.states@.len(),
                    *ts == d.transitions@[s as int],
                    k <= ts@.len(),
                    row@.len() == width,
                    forall|c: int|
                        0 <= c < width ==> (match #[trigger] row@[c] {
                            Some(Action::Shift(j)) => (j as int) < d.states@.len(),
                            Some(Action::Reduce(it)) => it.valid(*g) && it.dot()
                                == it.rhs@.len(),
                            Some(Action::Accept) => true,
                            None => true,
                        }),
                    forall|k2: int|
                        0 <= k2 < k ==> row@[(#[trigger] ts@[k2]).0 as int] == Some(
                            Action::Shift(ts@[k2].1),
                        ),
                    forall|c: int|
                        0 <= c < width && !((#[trigger] row@[c]) is None) ==> exists|k2: int|
                            0 <= k2 < k && (#[trigger] ts@[k2]).0 == c as crate::Sym,
                decreases ts@.len() - k,
            {
                let (sym, j) = ts[k];
                proof {
                    assert(d.trans_wf_at(*g, s as int, k as int));
                    assert(ts@[k as int] == (sym, j));
                    // the cell is still empty: an occupant would be an
                    // earlier transition on the same symbol
                    if !(row@[sym as int] is None) {
                        let k2 = choose|k2: int|
                            0 <= k2 < k && (#[trigger] ts@[k2]).0 == sym;
                        assert(ts@[k2].0 < ts@[k as int].0);
                        assert(false);
                    }
                }
                let ghost row_prev = row@;
                let _ = set_cell(&mut row, sym, Action::Shift(j));
                proof {
                    assert forall|k2: int|
                        0 <= k2 < k + 1 implies row@[(#[trigger] ts@[k2]).0 as int] == Some(
                        Action::Shift(ts@[k2].1),
                    ) by {
                        if k2 < k {
                            assert(ts@[k2].0 != ts@[k as int].0);
                            assert(row@[ts@[k2].0 as int] == row_prev[ts@[k2].0 as int]);
                        } else {
                            assert(row@[sym as int] == Some(Action::Shift(j)));
                        }
                    };
                    assert forall|c: int|
                        0 <= c < width && !((#[trigger] row@[c]) is None) implies exists|k2: int|
                        0 <= k2 < k + 1 && (#[trigger] ts@[k2]).0 == c as crate::Sym by {
                        if c == sym as int {
                            assert(ts@[k as int].0 == c as crate::Sym);
                        } else {
                            let k2 = choose|k2: int|
                                0 <= k2 < k && (#[trigger] ts@[k2]).0 == c as crate::Sym;
                        }
                    };
                }
                k += 1;
            }
            // a lone reducible item reduces on every terminal
            let st = &d.states[s];
            if st.items.len() == 1 {
                let it = &st.items[0];
                if it.pointer == it.rhs.len() {
                    proof {
                        assert(st.items@[0].valid(*g));
                        // the lone item is reducible, so the state moves on
                        // nothing and its transition row is empty
                        assert(d.transitions@[s as int]@.len() == 0) by {
                            if d.transitions@[s as int]@.len() > 0 {
                                assert(crate::table::trans_has(
                                    d.transitions@[s as int]@,
                                    d.transitions@[s as int]@[0].0 as int,
                                )) by {
                                    assert(d.transitions@[s as int]@[0].0
                                        == d.transitions@[s as int]@[0].0);
                                };
                                assert(d.trans_wf_at(*g, s as int, 0));
                                assert(crate::table::moves_on(
                                    d.states@[s as int],
                                    *g,
                                    d.transitions@[s as int]@[0].0 as int,
                                ));
                                let k3 = choose|k3: int|
                                    0 <= k3 < st.items@.len() && (#[trigger] st.items@[k3]).dot()
                                        < st.items@[k3].rhs@.len();
                                assert(false);
                            }
                        };
                        // hence nothing was written yet
                        assert forall|c: int| 0 <= c < width implies (#[trigger] row@[c])
                            is None by {
                            if !(row@[c] is None) {
                                let k2 = choose|k2: int|
                                    0 <= k2 < d.transitions@[s as int]@.len() && (
                                    #[trigger] d.transitions@[s as int]@[k2]).0
                                        == c as crate::Sym;
                                assert(false);
                            }
                        };
                    }
                    let mut x: usize = 0;
                    while x <= g.eof
                        invariant
                            g.wf(),
                            d.wf(*g),
                            width == g.n_symbols + 1,
                            s < d.states@.len(),
                            *it == d.states@[s as int].items@[0],
                            it.valid(*g),
                            it.dot() == it.rhs@.len(),
                            x <= g.eof + 1,
                            row@.len() == width,
                            forall|c: int|
                                0 <= c < width ==> (match #[trigger] row@[c] {
                                    Some(Action::Shift(j)) => (j as int) < d.states@.len(),
                                    Some(Action::Reduce(it2)) => it2.valid(*g) && it2.dot()
                                        == it2.rhs@.len(),
                                    Some(Action::Accept) => true,
                                    None => true,
                                }),
                            forall|x2: int|
                                0 <= x2 < x ==> ((#[trigger] row@[x2]) matches Some(
                                    Action::Reduce(it2),
                                ) && it2.rule() == it.rule() && it2.dot() == it.dot()),
                            forall|c: int| x <= c < width ==> (#[trigger] row@[c]) is None,
                        decreases g.eof + 1 - x,
                    {
                        let dup = it.duplicate();
                        proof {
                            assert(dup.valid(*g));
                            assert(dup.dot() == dup.rhs@.len());
                            assert(row@[x as int] is None);
                        }
                        let ghost row_prev = row@;
                        let _ = set_cell(&mut row, x, Action::Reduce(dup));
                        proof {
                            assert(forall|c: int|
                                0 <= c < width && c != x ==> #[trigger] row@[c] == row_prev[c]);
                        }
                        x += 1;
                    }
                    proof {
                        assert(row_reduces_by(row@, d.states@[s as int], g.eof as int));
                        assert(row_has_shifts(row@, d.transitions@[s as int]@));
                        assert(has_reducible(d.states@[s as int])) by {
                            assert(d.states@[s as int].items@[0].dot() == d.states@[
                                s as int].items@[0].rhs@.len());
                        };
                        assert forall|c: int|
                            0 <= c <= g.n_symbols && !((#[trigger] row@[c])
                                is None) implies (crate::table::trans_has(
                            d.transitions@[s as int]@,
                            c,
                        ) || (has_reducible(d.states@[s as int]) && 0 <= c <= g.eof)) by {
                            if c > g.eof {
                                assert(row@[c] is None);
                            }
                        };
                        assert(lr0_row_exact(row@, *d, *g, s as int));
                    }
                } else {
                    proof {
                        if has_reducible(d.states@[s as int]) {
                            let k3 = choose|k3: int|
                                0 <= k3 < st.items@.len() && (#[trigger] st.items@[k3]).dot()
                                    == st.items@[k3].rhs@.len();
                            assert(k3 == 0);
                            assert(false);
                        }
                        assert(row_has_shifts(row@, d.transitions@[s as int]@));
                        assert forall|c: int|
                            0 <= c <= g.n_symbols && !((#[trigger] row@[c])
                                is None) implies crate::table::trans_has(
                            d.transitions@[s as int]@,
                            c,
                        ) by {
                            let k2 = choose|k2: int|
                                0 <= k2 < ts@.len() && (#[trigger] ts@[k2]).0 == c as Sym;
                        };
                        assert(lr0_row_exact(row@, *d, *g, s as int));
                    }
                }
            } else {
                proof {
                    if has_reducible(d.states@[s as int]) {
                        assert(d.states@[s as int].items@.len() == 1);
                        assert(false);
                    }
                    assert(row_has_shifts(row@, d.transitions@[s as int]@));
                    assert forall|c: int|
                        0 <= c <= g.n_symbols && !((#[trigger] row@[c])
                            is None) implies crate::table::trans_has(
                        d.transitions@[s as int]@,
                        c,
                    ) by {
                        let k2 = choose|k2: int|
                            0 <= k2 < ts@.len() && (#[trigger] ts@[k2]).0 == c as Sym;
                    };
                    assert(lr0_row_exact(row@, *d, *g, s as int));
                }
            }
        }
        let ghost rows_prev = rows@;
        rows.push(row);
        proof {
            assert(forall|p: int| 0 <= p < rows_prev.len() ==> #[trigger] rows@[p] == rows_prev[p]);
        }
        s += 1;
    }
    let t = ParseTable { n_symbols: g.n_symbols, eof: g.eof, start: g.start, rows };
    Ok(t)
}

/// Build the LR(0) parsing table for the grammar: construct the automaton,
/// then fill the table, reporting a conflict when a state with a reducible
/// item holds any other item.
pub fn compute_lr0_parsing_table(g: &Grammar) -> (res: Result<ParseTable, BuildError>)
    requires
        g.wf(),
    ensures
        match res {
            Ok(t) => {
                &&& t.wf(*g)
                &&& exists|d: Lr0Dfa|
                    {
                        &&& #[trigger] d.wf(*g)
                        &&& lr0_conflict_free(d)
                        &&& t.rows@.len() == d.states@.len()
                        &&& t.cell(d.accept_state as int, g.n_symbols as int) == Some(
                            Action::Accept,
                        )
                        &&& forall|i: int|
                            0 <= i < d.states@.len() && i != d.accept_state ==> row_has_shifts(
                                (#[trigger] t.rows@[i])@,
                                d.transitions@[i]@,
                            )
                        &&& forall|i: int|
                            0 <= i < d.states@.len() && i != d.accept_state && has_reducible(
                                d.states@[i],
                            ) ==> row_reduces_by(
                                (#[trigger] t.rows@[i])@,
                                d.states@[i],
                                g.eof as int,
                            )
                        &&& forall|i: int|
                            0 <= i < d.states@.len() && i != d.accept_state
                                ==> #[trigger] lr0_row_exact(t.rows@[i]@, d, *g, i)
                        &&& forall|c: int|
                            0 <= c < g.n_symbols ==> (#[trigger] t.cell(
                                d.accept_state as int,
                                c,
                            )) is None
                    }
            },
            Err(e) => {
                &&& e == BuildError::Conflict || e == BuildError::TooManyStates
                &&& (e == BuildError::Conflict ==> exists|d: Lr0Dfa|
                    #[trigger] d.wf(*g) && !lr0_conflict_free(d))
                &&& (e == BuildError::TooManyStates ==> crate::table::lr0_capacity_exhausted(*g))
            },
        },
{
    let d = match compute_table(g) {
        Ok(d) => d,
        Err(e) => {
            return Err(e);
        },
    };
    let res = lr0_fill(g, &d);
    proof {
        if res is Ok {
            assert(d.wf(*g));
        } else {
            assert(d.wf(*g) && !lr0_conflict_free(d));
        }
    }
    res
}

} // verus!
