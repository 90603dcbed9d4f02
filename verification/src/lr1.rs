//! LR(1) items-with-lookahead: closures map each item to a set of lookahead
//! terminals, closed under prediction with lookaheads read from FIRST; the
//! LR(1) table is built jointly with the automaton over these closures.
//!
//! Lookaheads are terminal ids; the extra value `n_symbols` stands for the
//! exhausted input, the lookahead of the initial augmented item.

use vstd::prelude::*;
use crate::Sym;
use crate::grammar::{Grammar, BuildError};
use crate::item::{Item, key_lt, closure_sorted, closure_valid, lemma_closure_len_bound};
use crate::symset::{
    SymSet,
    sum_of,
    lemma_sum_update,
    lemma_sum_insert,
    lemma_sum_bound,
    lemma_sum_nonneg,
};
use crate::first_sets::{FirstTable, first_of_seq, seq_first_has, seq_first_eps, compute_first_sets, prod_first_entailed};
use crate::parser::{Action, ParseTable, empty_row, set_cell};

verus! {

/// An item together with its lookahead set.
pub struct LR1Entry {
    pub item: Item,
    pub looks: SymSet,
}

/// An LR(1) item-set: entries strictly sorted by item key, each carrying a
/// non-empty set of lookaheads.
pub struct LR1Closure {
    pub entries: Vec<LR1Entry>,
}

impl LR1Closure {
    pub open spec fn wf(&self, g: Grammar) -> bool {
        &&& forall|i: int|
            0 <= i < self.entries@.len() ==> (#[trigger] self.entries@[i]).item.valid(g)
        &&& forall|i: int|
            0 <= i < self.entries@.len() ==> (#[trigger] self.entries@[i]).looks.wf()
                && self.entries@[i].looks.below(g.n_symbols + 1)
        &&& forall|i: int, j: int|
            0 <= i < j < self.entries@.len() ==> key_lt(
                self.entries@[i].item,
                self.entries@[j].item,
            )
    }

    /// The closure maps the item `(r, d)` to a set containing `a`.
    pub open spec fn has_la(&self, r: int, d: int, a: Sym) -> bool {
        exists|i: int|
            0 <= i < self.entries@.len() && (#[trigger] self.entries@[i]).item.rule() == r
                && self.entries@[i].item.dot() == d && self.entries@[i].looks.has(a)
    }

    /// The closure has an entry for the item `(r, d)`.
    pub open spec fn has_key(&self, r: int, d: int) -> bool {
        exists|i: int|
            0 <= i < self.entries@.len() && (#[trigger] self.entries@[i]).item.rule() == r
                && self.entries@[i].item.dot() == d
    }

    /// Lookahead counts per entry; their sum is the worklist's progress
    /// measure.
    pub open spec fn sizes(&self) -> Seq<int> {
        Seq::new(self.entries@.len(), |i: int| self.entries@[i].looks.seq().len() as int)
    }

    pub open spec fn total(&self) -> int {
        sum_of(self.sizes())
    }
}

/// Prediction discharged for `[(r, d), a]`: with a non-terminal `X` under
/// the dot and `w` the rest of the right-hand side, every production of `X`
/// carries every lookahead of `FIRST(w)`, and `a` itself when `w` is
/// nullable.
pub open spec fn lr1_closed_at(
    c: LR1Closure,
    g: Grammar,
    ft: FirstTable,
    r: int,
    d: int,
    a: Sym,
) -> bool {
    (0 <= r < g.prods@.len() && d < g.prods@[r].rhs@.len() && g.spec_is_nonterminal(
        g.prods@[r].rhs@[d],
    )) ==> {
        let x = g.prods@[r].rhs@[d];
        let w = g.prods@[r].rhs@.skip(d + 1);
        forall|r2: int|
            0 <= r2 < g.prods@.len() && (#[trigger] g.prods@[r2].lhs) == x ==> {
                &&& forall|b: Sym| #[trigger] seq_first_has(ft, w, b) ==> c.has_la(r2, 0, b)
                &&& (seq_first_eps(ft, w) ==> c.has_la(r2, 0, a))
            }
    }
}

/// The whole mapping is closed under prediction.
pub open spec fn lr1_closed(c: LR1Closure, g: Grammar, ft: FirstTable) -> bool {
    forall|i: int, li: int|
        0 <= i < c.entries@.len() && 0 <= li < c.entries@[i].looks.seq().len()
            ==> lr1_closed_at(
            c,
            g,
            ft,
            c.entries@[i].item.rule(),
            c.entries@[i].item.dot(),
            #[trigger] c.entries@[i].looks.seq()[li],
        )
}

/// A bound on the total number of lookahead facts a closure can hold.
pub proof fn lemma_lr1_total_bound(c: LR1Closure, g: Grammar)
    requires
        g.wf(),
        c.wf(g),
    ensures
        0 <= c.total() <= g.num_items() * (g.n_symbols + 1),
{
    let items_of = Seq::new(c.entries@.len(), |i: int| c.entries@[i].item);
    assert(closure_sorted(items_of)) by {
        assert forall|i: int, j: int|
            0 <= i < j < items_of.len() implies key_lt(items_of[i], items_of[j]) by {
            assert(key_lt(c.entries@[i].item, c.entries@[j].item));
        };
    };
    assert(closure_valid(items_of, g)) by {
        assert forall|i: int| 0 <= i < items_of.len() implies (#[trigger] items_of[i]).valid(
            g,
        ) by {
            assert(c.entries@[i].item.valid(g));
        };
    };
    lemma_closure_len_bound(items_of, g);
    assert forall|i: int| 0 <= i < c.sizes().len() implies 0 <= #[trigger] c.sizes()[i]
        <= g.n_symbols + 1 by {
        assert(c.entries@[i].looks.wf() && c.entries@[i].looks.below(g.n_symbols + 1));
        c.entries@[i].looks.lemma_len_bound((g.n_symbols + 1) as usize);
    };
    lemma_sum_bound(c.sizes(), g.n_symbols + 1);
    lemma_sum_nonneg(c.sizes());
    assert(c.sizes().len() <= g.num_items());
    assert(c.sizes().len() * (g.n_symbols + 1) <= g.num_items() * (g.n_symbols + 1))
        by (nonlinear_arith)
        requires
            c.sizes().len() <= g.num_items(),
            g.n_symbols + 1 >= 0,
    ;
}

impl LR1Closure {
    /// Record the lookahead `a` for the item's key, creating the entry at
    /// its sorted position when absent. Returns whether anything was added.
    fn insert_la(&mut self, it: &Item, a: Sym, g: &Grammar) -> (added: bool)
        requires
            g.wf(),
            old(self).wf(*g),
            it.valid(*g),
            (a as int) < g.n_symbols + 1,
        ensures
            final(self).wf(*g),
            added == !old(self).has_la(it.rule(), it.dot(), a),
            !added ==> *final(self) == *old(self),
            forall|r: int, d: int, b: Sym|
                #[trigger] final(self).has_la(r, d, b) <==> (old(self).has_la(r, d, b) || (r
                    == it.rule() && d == it.dot() && b == a)),
            forall|r: int, d: int|
                #[trigger] final(self).has_key(r, d) <==> (old(self).has_key(r, d) || (r
                    == it.rule() && d == it.dot())),
            final(self).total() == old(self).total() + (if added {
                1int
            } else {
                0int
            }),
    {
        let mut i: usize = 0;
        while i < self.entries.len() && crate::item::key_less(&self.entries[i].item, it)
            invariant
                i <= self.entries@.len(),
                forall|j: int| 0 <= j < i ==> key_lt((#[trigger] self.entries@[j]).item, *it),
            decreases self.entries@.len() - i,
        {
            i += 1;
        }
        let ghost o = self.entries@;
        let ghost ii = i as int;
        if i < self.entries.len() && self.entries[i].item.rule_id.0 == it.rule_id.0
            && self.entries[i].item.pointer == it.pointer {
            // the key exists; grow its lookahead set if needed
            if self.entries[i].looks.contains(a) {
                proof {
                    assert(old(self).has_la(it.rule(), it.dot(), a)) by {
                        assert(o[ii].item.rule() == it.rule() && o[ii].item.dot() == it.dot()
                            && o[ii].looks.has(a));
                    };
                }
                return false;
            }
            proof {
                if old(self).has_la(it.rule(), it.dot(), a) {
                    let k = choose|k: int|
                        0 <= k < o.len() && (#[trigger] o[k]).item.rule() == it.rule()
                            && o[k].item.dot() == it.dot() && o[k].looks.has(a);
                    if k < ii {
                        assert(key_lt(o[k].item, *it));
                        assert(false);
                    } else if k > ii {
                        assert(key_lt(o[ii].item, o[k].item));
                        assert(false);
                    }
                    assert(false);
                }
            }
            let mut e = self.entries.remove(i);
            let _ = e.looks.insert(a);
            let ghost e_new = e;
            self.entries.insert(i, e);
            proof {
                assert(self.entries@ =~= o.update(ii, e_new));
                assert(self.sizes() =~= old(self).sizes().update(ii, e_new.looks.seq().len() as int));
                lemma_sum_update(old(self).sizes(), ii, e_new.looks.seq().len() as int);
                assert forall|r: int, d: int, b: Sym|
                    #[trigger] self.has_la(r, d, b) implies (old(self).has_la(r, d, b) || (r
                    == it.rule() && d == it.dot() && b == a)) by {
                    let k = choose|k: int|
                        0 <= k < self.entries@.len() && (#[trigger] self.entries@[k]).item.rule()
                            == r && self.entries@[k].item.dot() == d && self.entries@[k].looks.has(
                            b,
                        );
                    if k != ii {
                        assert(o[k].item.rule() == r && o[k].item.dot() == d && o[k].looks.has(b));
                    } else {
                        if b != a {
                            assert(o[ii].looks.has(b));
                        }
                    }
                };
                assert forall|r: int, d: int, b: Sym|
                    old(self).has_la(r, d, b) implies #[trigger] self.has_la(r, d, b) by {
                    let k = choose|k: int|
                        0 <= k < o.len() && (#[trigger] o[k]).item.rule() == r && o[k].item.dot()
                            == d && o[k].looks.has(b);
                    if k == ii {
                        assert(self.entries@[ii].looks.has(b));
                        assert(self.entries@[ii].item.rule() == r && self.entries@[ii].item.dot()
                            == d);
                    } else {
                        assert(self.entries@[k].item.rule() == r && self.entries@[k].item.dot()
                            == d && self.entries@[k].looks.has(b));
                    }
                };
                assert(self.has_la(it.rule(), it.dot(), a)) by {
                    assert(self.entries@[ii].item.rule() == it.rule() && self.entries@[
                        ii].item.dot() == it.dot() && self.entries@[ii].looks.has(a));
                };
                assert forall|r: int, d: int| #[trigger] self.has_key(r, d) implies (old(
                    self,
                ).has_key(r, d) || (r == it.rule() && d == it.dot())) by {
                    let k = choose|k: int|
                        0 <= k < self.entries@.len() && (#[trigger] self.entries@[k]).item.rule()
                            == r && self.entries@[k].item.dot() == d;
                    if k != ii {
                        assert(o[k].item.rule() == r && o[k].item.dot() == d);
                    }
                };
                assert forall|r: int, d: int| old(self).has_key(r, d) implies #[trigger] self
                    .has_key(r, d) by {
                    let k = choose|k: int|
                        0 <= k < o.len() && (#[trigger] o[k]).item.rule() == r && o[k].item.dot()
                            == d;
                    assert(self.entries@[k].item.rule() == r && self.entries@[k].item.dot() == d);
                };
            }
            true
        } else {
            // no entry with this key: create one
            proof {
                assert forall|j: int| ii <= j < o.len() implies key_lt(*it, o[j].item) by {
                    if ii < o.len() {
                        assert(!key_lt(o[ii].item, *it));
                        if j > ii {
                            assert(key_lt(o[ii].item, o[j].item));
                        }
                    }
                };
                if old(self).has_la(it.rule(), it.dot(), a) {
                    let k = choose|k: int|
                        0 <= k < o.len() && (#[trigger] o[k]).item.rule() == it.rule()
                            && o[k].item.dot() == it.dot() && o[k].looks.has(a);
                    assert(false);
                }
            }
            let mut looks = SymSet::new();
            let _ = looks.insert(a);
            let e = LR1Entry { item: it.duplicate(), looks };
            let ghost e_new = e;
            self.entries.insert(i, e);
            proof {
                assert(self.entries@ =~= o.insert(ii, e_new));
                assert(forall|j: int| 0 <= j < ii ==> #[trigger] self.entries@[j] == o[j]);
                assert(forall|j: int|
                    ii < j < self.entries@.len() ==> #[trigger] self.entries@[j] == o[j - 1]);
                assert(self.entries@[ii] == e_new);
                assert(e_new.looks.seq().len() == 1);
                assert(self.sizes() =~= old(self).sizes().insert(ii, 1int));
                lemma_sum_insert(old(self).sizes(), ii, 1int);
                assert forall|r: int, d: int, b: Sym|
                    #[trigger] self.has_la(r, d, b) implies (old(self).has_la(r, d, b) || (r
                    == it.rule() && d == it.dot() && b == a)) by {
                    let k = choose|k: int|
                        0 <= k < self.entries@.len() && (#[trigger] self.entries@[k]).item.rule()
                            == r && self.entries@[k].item.dot() == d && self.entries@[k].looks.has(
                            b,
                        );
                    if k < ii {
                        assert(o[k].item.rule() == r && o[k].item.dot() == d && o[k].looks.has(b));
                    } else if k > ii {
                        assert(o[k - 1].item.rule() == r && o[k - 1].item.dot() == d && o[k
                            - 1].looks.has(b));
                    } else {
                        assert(e_new.looks.has(b) ==> b == a);
                    }
                };
                assert forall|r: int, d: int, b: Sym|
                    old(self).has_la(r, d, b) implies #[trigger] self.has_la(r, d, b) by {
                    let k = choose|k: int|
                        0 <= k < o.len() && (#[trigger] o[k]).item.rule() == r && o[k].item.dot()
                            == d && o[k].looks.has(b);
                    if k < ii {
                        assert(self.entries@[k].item.rule() == r && self.entries@[k].item.dot()
                            == d && self.entries@[k].looks.has(b));
                    } else {
                        assert(self.entries@[k + 1].item.rule() == r && self.entries@[k
                            + 1].item.dot() == d && self.entries@[k + 1].looks.has(b));
                    }
                };
                assert(self.has_la(it.rule(), it.dot(), a)) by {
                    assert(self.entries@[ii].item.rule() == it.rule() && self.entries@[
                        ii].item.dot() == it.dot() && self.entries@[ii].looks.has(a));
                };
                assert forall|r: int, d: int| #[trigger] self.has_key(r, d) implies (old(
                    self,
                ).has_key(r, d) || (r == it.rule() && d == it.dot())) by {
                    let k = choose|k: int|
                        0 <= k < self.entries@.len() && (#[trigger] self.entries@[k]).item.rule()
                            == r && self.entries@[k].item.dot() == d;
                    if k < ii {
                        assert(o[k].item.rule() == r && o[k].item.dot() == d);
                    } else if k > ii {
                        assert(o[k - 1].item.rule() == r && o[k - 1].item.dot() == d);
                    }
                };
                assert forall|r: int, d: int| old(self).has_key(r, d) implies #[trigger] self
                    .has_key(r, d) by {
                    let k = choose|k: int|
                        0 <= k < o.len() && (#[trigger] o[k]).item.rule() == r && o[k].item.dot()
                            == d;
                    if k < ii {
                        assert(self.entries@[k].item.rule() == r && self.entries@[k].item.dot()
                            == d);
                    } else {
                        assert(self.entries@[k + 1].item.rule() == r && self.entries@[k
                            + 1].item.dot() == d);
                    }
                };
            }
            true
        }
    }
}


/// Some seed pair carries the item key `(r, d)`.
pub open spec fn seed_key(items: Seq<(Item, SymSet)>, r: int, d: int) -> bool {
    exists|j: int|
        0 <= j < items.len() && (#[trigger] items[j]).0.rule() == r && items[j].0.dot() == d
}

/// Every seed lookahead fact is recorded in `c`.
pub open spec fn lr1_has_seed_facts(c: LR1Closure, seeds: Seq<(Item, SymSet)>) -> bool {
    forall|j: int, li: int|
        0 <= j < seeds.len() && 0 <= li < seeds[j].1.seq().len() ==> c.has_la(
            (#[trigger] seeds[j]).0.rule(),
            seeds[j].0.dot(),
            #[trigger] seeds[j].1.seq()[li],
        )
}

/// Fact-level subset: every lookahead fact of `a` is one of `b`.
pub open spec fn lr1_facts_subset(a: LR1Closure, b: LR1Closure) -> bool {
    forall|r: int, d: int, x: Sym| #[trigger] a.has_la(r, d, x) ==> b.has_la(r, d, x)
}

/// Some pair in `q` carries the key `(r, d)` with lookahead `a`.
pub open spec fn in_queue_la(q: Seq<(Item, Sym)>, r: int, d: int, a: Sym) -> bool {
    exists|j: int|
        0 <= j < q.len() && (#[trigger] q[j]).0.rule() == r && q[j].0.dot() == d && q[j].1 == a
}

proof fn lemma_in_queue_la_push(q: Seq<(Item, Sym)>, it: Item, a: Sym)
    ensures
        forall|r: int, d: int, b: Sym|
            in_queue_la(q, r, d, b) ==> #[trigger] in_queue_la(q.push((it, a)), r, d, b),
        in_queue_la(q.push((it, a)), it.rule(), it.dot(), a),
{
    assert forall|r: int, d: int, b: Sym| in_queue_la(q, r, d, b) implies #[trigger] in_queue_la(
        q.push((it, a)),
        r,
        d,
        b,
    ) by {
        let j = choose|j: int|
            0 <= j < q.len() && (#[trigger] q[j]).0.rule() == r && q[j].0.dot() == d && q[j].1
                == b;
        assert(q.push((it, a))[j] == q[j]);
    };
    assert(q.push((it, a))[q.len() as int] == (it, a));
}

proof fn lemma_in_queue_la_pop(q: Seq<(Item, Sym)>)
    requires
        q.len() > 0,
    ensures
        forall|r: int, d: int, b: Sym|
            #[trigger] in_queue_la(q, r, d, b) ==> in_queue_la(q.drop_last(), r, d, b) || (r
                == q.last().0.rule() && d == q.last().0.dot() && b == q.last().1),
{
    assert forall|r: int, d: int, b: Sym| #[trigger] in_queue_la(q, r, d, b) implies in_queue_la(
        q.drop_last(),
        r,
        d,
        b,
    ) || (r == q.last().0.rule() && d == q.last().0.dot() && b == q.last().1) by {
        let j = choose|j: int|
            0 <= j < q.len() && (#[trigger] q[j]).0.rule() == r && q[j].0.dot() == d && q[j].1
                == b;
        if j < q.len() - 1 {
            assert(q.drop_last()[j] == q[j]);
        }
    };
}

/// The pending-or-closed bookkeeping of the closure worklist: every recorded
/// lookahead fact is either still queued for prediction, already discharged,
/// or the one fact being discharged right now.
pub open spec fn lr1_pending(
    c: LR1Closure,
    g: Grammar,
    ft: FirstTable,
    q: Seq<(Item, Sym)>,
    cr: int,
    cd: int,
    ca: Sym,
    use_current: bool,
) -> bool {
    forall|i: int, li: int|
        0 <= i < c.entries@.len() && 0 <= li < c.entries@[i].looks.seq().len() ==> {
            let r = c.entries@[i].item.rule();
            let d = c.entries@[i].item.dot();
            let a = #[trigger] c.entries@[i].looks.seq()[li];
            ||| in_queue_la(q, r, d, a)
            ||| lr1_closed_at(c, g, ft, r, d, a)
            ||| (use_current && r == cr && d == cd && a == ca)
        }
}

impl LR1Closure {
    /// The LR(1) closure of the given item-to-lookaheads mapping: for every
    /// recorded fact `[A -> α·Xβ, a]` and every production `X -> γ`, record
    /// `[X -> ·γ, b]` for every `b` in `FIRST(β)`, and for `b = a` when `β`
    /// is nullable, until nothing more can be recorded.
    pub fn from(items: Vec<(Item, SymSet)>, g: &Grammar, ft: &FirstTable) -> (c: LR1Closure)
        requires
            g.wf(),
            ft.wf(*g),
            forall|j: int|
                0 <= j < items@.len() ==> (#[trigger] items@[j]).0.valid(*g) && items@[j].1.wf()
                    && items@[j].1.below(g.n_symbols + 1),
        ensures
            c.wf(*g),
            lr1_closed(c, *g, *ft),
            forall|j: int, li: int|
                0 <= j < items@.len() && 0 <= li < items@[j].1.seq().len() ==> c.has_la(
                    (#[trigger] items@[j]).0.rule(),
                    items@[j].0.dot(),
                    #[trigger] items@[j].1.seq()[li],
                ),
            forall|i: int|
                0 <= i < c.entries@.len() ==> (seed_key(
                    items@,
                    (#[trigger] c.entries@[i]).item.rule(),
                    c.entries@[i].item.dot(),
                ) || c.entries@[i].item.dot() == 0),
            forall|c2: LR1Closure|
                lr1_closed(c2, *g, *ft) && lr1_has_seed_facts(c2, items@)
                    ==> #[trigger] lr1_facts_subset(c, c2),
    {
        let mut c = LR1Closure { entries: Vec::new() };
        let mut queue: Vec<(Item, Sym)> = Vec::new();
        let mut sj: usize = 0;
        while sj < items.len()
            invariant
                g.wf(),
                ft.wf(*g),
                forall|j: int|
                    0 <= j < items@.len() ==> (#[trigger] items@[j]).0.valid(*g)
                        && items@[j].1.wf() && items@[j].1.below(g.n_symbols + 1),
                sj <= items@.len(),
                c.wf(*g),
                forall|j: int|
                    0 <= j < queue@.len() ==> (#[trigger] queue@[j]).0.valid(*g) && ((
                    queue@[j].1 as int) < g.n_symbols + 1),
                forall|j: int, li: int|
                    0 <= j < sj && 0 <= li < items@[j].1.seq().len() ==> c.has_la(
                        (#[trigger] items@[j]).0.rule(),
                        items@[j].0.dot(),
                        #[trigger] items@[j].1.seq()[li],
                    ),
                forall|i: int, li: int|
                    0 <= i < c.entries@.len() && 0 <= li < c.entries@[i].looks.seq().len()
                        ==> in_queue_la(
                        queue@,
                        c.entries@[i].item.rule(),
                        c.entries@[i].item.dot(),
                        #[trigger] c.entries@[i].looks.seq()[li],
                    ),
                forall|i: int|
                    0 <= i < c.entries@.len() ==> (seed_key(
                        items@,
                        (#[trigger] c.entries@[i]).item.rule(),
                        c.entries@[i].item.dot(),
                    ) || c.entries@[i].item.dot() == 0),
                forall|qi: int|
                    0 <= qi < queue@.len() ==> c.has_la(
                        (#[trigger] queue@[qi]).0.rule(),
                        queue@[qi].0.dot(),
                        queue@[qi].1,
                    ),
                forall|c2: LR1Closure|
                    lr1_closed(c2, *g, *ft) && lr1_has_seed_facts(c2, items@)
                        ==> #[trigger] lr1_facts_subset(c, c2),
            decreases items@.len() - sj,
        {
            let seed_item = &items[sj].0;
            let seed_looks = &items[sj].1;
            let mut li: usize = 0;
            while li < seed_looks.len()
                invariant
                    g.wf(),
                    ft.wf(*g),
                    sj < items@.len(),
                    *seed_item == items@[sj as int].0,
                    *seed_looks == items@[sj as int].1,
                    seed_item.valid(*g),
                    seed_looks.wf(),
                    seed_looks.below(g.n_symbols + 1),
                    li <= seed_looks.seq().len(),
                    c.wf(*g),
                    forall|j: int|
                        0 <= j < queue@.len() ==> (#[trigger] queue@[j]).0.valid(*g) && ((
                        queue@[j].1 as int) < g.n_symbols + 1),
                    forall|j: int, li2: int|
                        0 <= j < sj && 0 <= li2 < items@[j].1.seq().len() ==> c.has_la(
                            (#[trigger] items@[j]).0.rule(),
                            items@[j].0.dot(),
                            #[trigger] items@[j].1.seq()[li2],
                        ),
                    forall|li2: int|
                        0 <= li2 < li ==> c.has_la(
                            items@[sj as int].0.rule(),
                            items@[sj as int].0.dot(),
                            #[trigger] items@[sj as int].1.seq()[li2],
                        ),
                    forall|i: int, li2: int|
                        0 <= i < c.entries@.len() && 0 <= li2 < c.entries@[i].looks.seq().len()
                            ==> in_queue_la(
                            queue@,
                            c.entries@[i].item.rule(),
                            c.entries@[i].item.dot(),
                            #[trigger] c.entries@[i].looks.seq()[li2],
                        ),
                    forall|i: int|
                        0 <= i < c.entries@.len() ==> (seed_key(
                            items@,
                            (#[trigger] c.entries@[i]).item.rule(),
                            c.entries@[i].item.dot(),
                        ) || c.entries@[i].item.dot() == 0),
                    forall|qi: int|
                        0 <= qi < queue@.len() ==> c.has_la(
                            (#[trigger] queue@[qi]).0.rule(),
                            queue@[qi].0.dot(),
                            queue@[qi].1,
                        ),
                    forall|c2: LR1Closure|
                        lr1_closed(c2, *g, *ft) && lr1_has_seed_facts(c2, items@)
                            ==> #[trigger] lr1_facts_subset(c, c2),
                decreases seed_looks.seq().len() - li,
            {
                let a = seed_looks.get(li);
                proof {
                    assert(seed_looks.seq()[li as int] == a);
                    assert((a as int) < g.n_symbols + 1);
                }
                let ghost c_prev = c;
                let ghost q_prev = queue@;
                let added = c.insert_la(seed_item, a, g);
                if added {
                    let dup = seed_item.duplicate();
                    proof {
                        lemma_in_queue_la_push(q_prev, dup, a);
                    }
                    queue.push((dup, a));
                    proof {
                        assert(in_queue_la(queue@, seed_item.rule(), seed_item.dot(), a));
                    }
                }
                proof {
                    assert forall|i: int, li2: int|
                        0 <= i < c.entries@.len() && 0 <= li2
                            < c.entries@[i].looks.seq().len() implies in_queue_la(
                        queue@,
                        c.entries@[i].item.rule(),
                        c.entries@[i].item.dot(),
                        #[trigger] c.entries@[i].looks.seq()[li2],
                    ) by {
                        let r = c.entries@[i].item.rule();
                        let d = c.entries@[i].item.dot();
                        let b = c.entries@[i].looks.seq()[li2];
                        assert(c.entries@[i].looks.has(b));
                        assert(c.has_la(r, d, b));
                        if c_prev.has_la(r, d, b) {
                            let k = choose|k: int|
                                0 <= k < c_prev.entries@.len() && (
                                #[trigger] c_prev.entries@[k]).item.rule() == r
                                    && c_prev.entries@[k].item.dot() == d
                                    && c_prev.entries@[k].looks.has(b);
                            let lk = choose|lk: int|
                                0 <= lk < c_prev.entries@[k].looks.seq().len()
                                    && c_prev.entries@[k].looks.seq()[lk] == b;
                            assert(c_prev.entries@[k].looks.seq()[lk] == b);
                            assert(in_queue_la(q_prev, r, d, b));
                        } else {
                            assert(r == seed_item.rule() && d == seed_item.dot() && b == a);
                            assert(in_queue_la(queue@, r, d, b));
                        }
                    };
                    assert forall|i: int| 0 <= i < c.entries@.len() implies (seed_key(
                        items@,
                        (#[trigger] c.entries@[i]).item.rule(),
                        c.entries@[i].item.dot(),
                    ) || c.entries@[i].item.dot() == 0) by {
                        let ri = c.entries@[i].item.rule();
                        let di = c.entries@[i].item.dot();
                        assert(c.has_key(ri, di));
                        if c_prev.has_key(ri, di) {
                            let k = choose|k: int|
                                0 <= k < c_prev.entries@.len() && (
                                #[trigger] c_prev.entries@[k]).item.rule() == ri
                                    && c_prev.entries@[k].item.dot() == di;
                        } else {
                            assert(ri == seed_item.rule() && di == seed_item.dot());
                            assert(seed_key(items@, ri, di)) by {
                                assert(items@[sj as int].0.rule() == ri && items@[
                                    sj as int].0.dot() == di);
                            };
                        }
                    };
                    assert forall|qi: int| 0 <= qi < queue@.len() implies c.has_la(
                        (#[trigger] queue@[qi]).0.rule(),
                        queue@[qi].0.dot(),
                        queue@[qi].1,
                    ) by {
                        if qi < q_prev.len() {
                            assert(queue@[qi] == q_prev[qi]);
                            assert(c_prev.has_la(
                                queue@[qi].0.rule(),
                                queue@[qi].0.dot(),
                                queue@[qi].1,
                            ));
                        } else {
                            assert(c.has_la(seed_item.rule(), seed_item.dot(), a));
                        }
                    };
                    // the new fact is a seed's: any closed superset of the
                    // seeds holds it too
                    assert forall|c2: LR1Closure|
                        lr1_closed(c2, *g, *ft) && lr1_has_seed_facts(
                        c2,
                        items@,
                    ) implies #[trigger] lr1_facts_subset(c, c2) by {
                        assert(lr1_facts_subset(c_prev, c2));
                        assert forall|r3: int, d3: int, x3: Sym| #[trigger] c.has_la(
                            r3,
                            d3,
                            x3,
                        ) implies c2.has_la(r3, d3, x3) by {
                            if !c_prev.has_la(r3, d3, x3) {
                                assert(r3 == seed_item.rule() && d3 == seed_item.dot() && x3
                                    == a);
                                assert(items@[sj as int].1.seq()[li as int] == a);
                                assert(c2.has_la(
                                    items@[sj as int].0.rule(),
                                    items@[sj as int].0.dot(),
                                    items@[sj as int].1.seq()[li as int],
                                ));
                            }
                        };
                    };
                }
                li += 1;
            }
            sj += 1;
        }
        proof {
            lemma_lr1_total_bound(c, *g);
        }
        // drain the queue, predicting from each fact
        while queue.len() > 0
            invariant
                g.wf(),
                ft.wf(*g),
                c.wf(*g),
                0 <= c.total() <= g.num_items() * (g.n_symbols + 1),
                forall|j: int|
                    0 <= j < queue@.len() ==> (#[trigger] queue@[j]).0.valid(*g) && ((
                    queue@[j].1 as int) < g.n_symbols + 1),
                forall|j: int, li: int|
                    0 <= j < items@.len() && 0 <= li < items@[j].1.seq().len() ==> c.has_la(
                        (#[trigger] items@[j]).0.rule(),
                        items@[j].0.dot(),
                        #[trigger] items@[j].1.seq()[li],
                    ),
                lr1_pending(c, *g, *ft, queue@, 0, 0, 0, false),
                forall|i: int|
                    0 <= i < c.entries@.len() ==> (seed_key(
                        items@,
                        (#[trigger] c.entries@[i]).item.rule(),
                        c.entries@[i].item.dot(),
                    ) || c.entries@[i].item.dot() == 0),
                forall|qi: int|
                    0 <= qi < queue@.len() ==> c.has_la(
                        (#[trigger] queue@[qi]).0.rule(),
                        queue@[qi].0.dot(),
                        queue@[qi].1,
                    ),
                forall|c2: LR1Closure|
                    lr1_closed(c2, *g, *ft) && lr1_has_seed_facts(c2, items@)
                        ==> #[trigger] lr1_facts_subset(c, c2),
            decreases g.num_items() * (g.n_symbols + 1) - c.total(), queue@.len(),
        {
            let ghost q_before = queue@;
            let ghost c_start = c;
            proof {
                lemma_in_queue_la_pop(q_before);
            }
            let pair = queue.pop().unwrap();
            let it = pair.0;
            let a = pair.1;
            proof {
                assert(q_before[q_before.len() - 1].0.valid(*g));
                assert forall|i: int, li: int|
                    0 <= i < c.entries@.len() && 0 <= li
                        < c.entries@[i].looks.seq().len() implies {
                    let r = c.entries@[i].item.rule();
                    let d = c.entries@[i].item.dot();
                    let b = #[trigger] c.entries@[i].looks.seq()[li];
                    ||| in_queue_la(queue@, r, d, b)
                    ||| lr1_closed_at(c, *g, *ft, r, d, b)
                    ||| (r == it.rule() && d == it.dot() && b == a)
                } by {
                    let r = c.entries@[i].item.rule();
                    let d = c.entries@[i].item.dot();
                    let b = c.entries@[i].looks.seq()[li];
                    assert(in_queue_la(q_before, r, d, b) || lr1_closed_at(c, *g, *ft, r, d, b));
                };
                // the popped fact is already recorded
                assert(c.has_la(it.rule(), it.dot(), a)) by {
                    assert(q_before[q_before.len() - 1] == pair);
                };
            }
            let symbol_opt = it.get_symbol_under_pointer();
            if let Some(x) = symbol_opt {
                if g.is_nonterminal(x) {
                    proof {
                        assert(g.prod_wf(it.rule()));
                        assert(forall|i2: int|
                            0 <= i2 < it.rhs@.len() ==> (#[trigger] it.rhs@[i2])
                                < g.n_symbols);
                    }
                    let rl = it.rhs.len();
                    assert(it.pointer < rl);
                    let f = first_of_seq(ft, &it.rhs, it.pointer + 1, g);
                    let ghost w = it.rhs@.skip(it.dot() + 1);
                    let mut r2: usize = 0;
                    while r2 < g.prods.len()
                        invariant
                            g.wf(),
                            ft.wf(*g),
                            c.wf(*g),
                            0 <= c.total() <= g.num_items() * (g.n_symbols + 1),
                            r2 <= g.prods@.len(),
                            it.valid(*g),
                            it.dot() < it.rhs@.len(),
                            x == it.rhs@[it.dot()],
                            g.spec_is_nonterminal(x),
                            (a as int) < g.n_symbols + 1,
                            w == it.rhs@.skip(it.dot() + 1),
                            f.wf(*g),
                            forall|b: Sym|
                                #[trigger] f.terms.has(b) <==> seq_first_has(*ft, w, b),
                            f.eps == seq_first_eps(*ft, w),
                            forall|j: int|
                                0 <= j < queue@.len() ==> (#[trigger] queue@[j]).0.valid(*g)
                                    && ((queue@[j].1 as int) < g.n_symbols + 1),
                            forall|j: int, li: int|
                                0 <= j < items@.len() && 0 <= li < items@[j].1.seq().len()
                                    ==> c.has_la(
                                    (#[trigger] items@[j]).0.rule(),
                                    items@[j].0.dot(),
                                    #[trigger] items@[j].1.seq()[li],
                                ),
                            c_start.total() <= c.total(),
                            queue@.len() + c_start.total() == q_before.len() - 1 + c.total(),
                            lr1_pending(c, *g, *ft, queue@, it.rule(), it.dot(), a, true),
                            forall|i: int|
                                0 <= i < c.entries@.len() ==> (seed_key(
                                    items@,
                                    (#[trigger] c.entries@[i]).item.rule(),
                                    c.entries@[i].item.dot(),
                                ) || c.entries@[i].item.dot() == 0),
                            c.has_la(it.rule(), it.dot(), a),
                            forall|qi: int|
                                0 <= qi < queue@.len() ==> c.has_la(
                                    (#[trigger] queue@[qi]).0.rule(),
                                    queue@[qi].0.dot(),
                                    queue@[qi].1,
                                ),
                            forall|c2: LR1Closure|
                                lr1_closed(c2, *g, *ft) && lr1_has_seed_facts(c2, items@)
                                    ==> #[trigger] lr1_facts_subset(c, c2),
                            forall|r3: int|
                                0 <= r3 < r2 && (#[trigger] g.prods@[r3].lhs) == x ==> {
                                    &&& forall|b: Sym|
                                        #[trigger] f.terms.has(b) ==> c.has_la(r3, 0, b)
                                    &&& (f.eps ==> c.has_la(r3, 0, a))
                                },
                        decreases g.prods@.len() - r2,
                    {
                        if g.prods[r2].lhs == x {
                            let nit = Item::at_start(g, r2);
                            let mut m: usize = 0;
                            while m < f.terms.len()
                                invariant
                                    g.wf(),
                                    ft.wf(*g),
                                    c.wf(*g),
                                    0 <= c.total() <= g.num_items() * (g.n_symbols + 1),
                                    r2 < g.prods@.len(),
                                    g.prods@[r2 as int].lhs == x,
                                    nit.valid(*g),
                                    nit.rule() == r2,
                                    nit.dot() == 0,
                                    it.valid(*g),
                                    it.dot() < it.rhs@.len(),
                                    x == it.rhs@[it.dot()],
                                    g.spec_is_nonterminal(x),
                                    (a as int) < g.n_symbols + 1,
                                    w == it.rhs@.skip(it.dot() + 1),
                                    f.wf(*g),
                                    forall|b: Sym|
                                        #[trigger] f.terms.has(b) <==> seq_first_has(*ft, w, b),
                                    f.eps == seq_first_eps(*ft, w),
                                    m <= f.terms.seq().len(),
                                    forall|j: int|
                                        0 <= j < queue@.len() ==> (#[trigger] queue@[
                                        j]).0.valid(*g) && ((queue@[j].1 as int) < g.n_symbols
                                            + 1),
                                    forall|j: int, li: int|
                                        0 <= j < items@.len() && 0 <= li
                                            < items@[j].1.seq().len() ==> c.has_la(
                                            (#[trigger] items@[j]).0.rule(),
                                            items@[j].0.dot(),
                                            #[trigger] items@[j].1.seq()[li],
                                        ),
                                    c_start.total() <= c.total(),
                                    queue@.len() + c_start.total() == q_before.len() - 1
                                        + c.total(),
                                    lr1_pending(c, *g, *ft, queue@, it.rule(), it.dot(), a, true),
                                    forall|i: int|
                                        0 <= i < c.entries@.len() ==> (seed_key(
                                            items@,
                                            (#[trigger] c.entries@[i]).item.rule(),
                                            c.entries@[i].item.dot(),
                                        ) || c.entries@[i].item.dot() == 0),
                                    c.has_la(it.rule(), it.dot(), a),
                                    forall|qi: int|
                                        0 <= qi < queue@.len() ==> c.has_la(
                                            (#[trigger] queue@[qi]).0.rule(),
                                            queue@[qi].0.dot(),
                                            queue@[qi].1,
                                        ),
                                    forall|c2: LR1Closure|
                                        lr1_closed(c2, *g, *ft) && lr1_has_seed_facts(c2, items@)
                                            ==> #[trigger] lr1_facts_subset(c, c2),
                                    forall|r3: int|
                                        0 <= r3 < r2 && (#[trigger] g.prods@[r3].lhs) == x ==> {
                                            &&& forall|b: Sym|
                                                #[trigger] f.terms.has(b) ==> c.has_la(r3, 0, b)
                                            &&& (f.eps ==> c.has_la(r3, 0, a))
                                        },
                                    forall|m2: int|
                                        0 <= m2 < m ==> c.has_la(
                                            r2 as int,
                                            0,
                                            #[trigger] f.terms.seq()[m2],
                                        ),
                                decreases f.terms.seq().len() - m,
                            {
                                let b = f.terms.get(m);
                                proof {
                                    assert(f.terms.seq()[m as int] == b);
                                    assert((b as int) < g.eof + 1);
                                }
                                let ghost c_prev = c;
                                let ghost q_prev = queue@;
                                let added = c.insert_la(&nit, b, g);
                                if added {
                                    let dup = nit.duplicate();
                                    proof {
                                        lemma_in_queue_la_push(q_prev, dup, b);
                                        lemma_lr1_total_bound(c, *g);
                                    }
                                    queue.push((dup, b));
                                    proof {
                                        assert(in_queue_la(queue@, nit.rule(), nit.dot(), b));
                                    }
                                }
                                proof {
                                    lr1_pending_after_insert(
                                        c_prev,
                                        c,
                                        *g,
                                        *ft,
                                        q_prev,
                                        queue@,
                                        nit,
                                        b,
                                        added,
                                        it.rule(),
                                        it.dot(),
                                        a,
                                    );
                                    assert forall|m2: int| 0 <= m2 < m + 1 implies c.has_la(
                                        r2 as int,
                                        0,
                                        #[trigger] f.terms.seq()[m2],
                                    ) by {
                                        if m2 < m {
                                            assert(c_prev.has_la(r2 as int, 0, f.terms.seq()[m2]));
                                        } else {
                                            assert(c.has_la(nit.rule(), nit.dot(), b));
                                        }
                                    };
                                    assert forall|i: int|
                                        0 <= i < c.entries@.len() implies (seed_key(
                                        items@,
                                        (#[trigger] c.entries@[i]).item.rule(),
                                        c.entries@[i].item.dot(),
                                    ) || c.entries@[i].item.dot() == 0) by {
                                        let ri = c.entries@[i].item.rule();
                                        let di = c.entries@[i].item.dot();
                                        assert(c.has_key(ri, di));
                                        if c_prev.has_key(ri, di) {
                                            let k = choose|k: int|
                                                0 <= k < c_prev.entries@.len() && (
                                                #[trigger] c_prev.entries@[k]).item.rule() == ri
                                                    && c_prev.entries@[k].item.dot() == di;
                                        } else {
                                            assert(di == nit.dot());
                                        }
                                    };
                                    assert forall|qi: int|
                                        0 <= qi < queue@.len() implies c.has_la(
                                        (#[trigger] queue@[qi]).0.rule(),
                                        queue@[qi].0.dot(),
                                        queue@[qi].1,
                                    ) by {
                                        if qi < q_prev.len() {
                                            assert(queue@[qi] == q_prev[qi]);
                                            assert(c_prev.has_la(
                                                queue@[qi].0.rule(),
                                                queue@[qi].0.dot(),
                                                queue@[qi].1,
                                            ));
                                        } else {
                                            assert(c.has_la(nit.rule(), nit.dot(), b));
                                        }
                                    };
                                    // a predicted fact lies in every closed
                                    // superset of the seeds: the popped fact
                                    // is there, and closedness adds this one
                                    assert(f.terms.has(b)) by {
                                        assert(f.terms.seq()[m as int] == b);
                                    };
                                    assert(seq_first_has(*ft, it.rhs@.skip(it.dot() + 1), b));
                                    lr1_least_after_predict(
                                        c_prev,
                                        c,
                                        *g,
                                        *ft,
                                        items@,
                                        it,
                                        a,
                                        nit,
                                        b,
                                        true,
                                    );
                                }
                                m += 1;
                            }
                            if f.eps {
                                let ghost c_prev = c;
                                let ghost q_prev = queue@;
                                let added = c.insert_la(&nit, a, g);
                                if added {
                                    let dup = nit.duplicate();
                                    proof {
                                        lemma_in_queue_la_push(q_prev, dup, a);
                                        lemma_lr1_total_bound(c, *g);
                                    }
                                    queue.push((dup, a));
                                    proof {
                                        assert(in_queue_la(queue@, nit.rule(), nit.dot(), a));
                                    }
                                }
                                proof {
                                    lr1_pending_after_insert(
                                        c_prev,
                                        c,
                                        *g,
                                        *ft,
                                        q_prev,
                                        queue@,
                                        nit,
                                        a,
                                        added,
                                        it.rule(),
                                        it.dot(),
                                        a,
                                    );
                                    assert forall|i: int|
                                        0 <= i < c.entries@.len() implies (seed_key(
                                        items@,
                                        (#[trigger] c.entries@[i]).item.rule(),
                                        c.entries@[i].item.dot(),
                                    ) || c.entries@[i].item.dot() == 0) by {
                                        let ri = c.entries@[i].item.rule();
                                        let di = c.entries@[i].item.dot();
                                        assert(c.has_key(ri, di));
                                        if c_prev.has_key(ri, di) {
                                            let k = choose|k: int|
                                                0 <= k < c_prev.entries@.len() && (
                                                #[trigger] c_prev.entries@[k]).item.rule() == ri
                                                    && c_prev.entries@[k].item.dot() == di;
                                        } else {
                                            assert(di == nit.dot());
                                        }
                                    };
                                    assert forall|qi: int|
                                        0 <= qi < queue@.len() implies c.has_la(
                                        (#[trigger] queue@[qi]).0.rule(),
                                        queue@[qi].0.dot(),
                                        queue@[qi].1,
                                    ) by {
                                        if qi < q_prev.len() {
                                            assert(queue@[qi] == q_prev[qi]);
                                            assert(c_prev.has_la(
                                                queue@[qi].0.rule(),
                                                queue@[qi].0.dot(),
                                                queue@[qi].1,
                                            ));
                                        } else {
                                            assert(c.has_la(nit.rule(), nit.dot(), a));
                                        }
                                    };
                                    assert(seq_first_eps(*ft, it.rhs@.skip(it.dot() + 1)));
                                    lr1_least_after_predict(
                                        c_prev,
                                        c,
                                        *g,
                                        *ft,
                                        items@,
                                        it,
                                        a,
                                        nit,
                                        a,
                                        false,
                                    );
                                }
                            }
                            proof {
                                assert forall|r3: int|
                                    0 <= r3 < r2 + 1 && (#[trigger] g.prods@[r3].lhs)
                                        == x implies {
                                    &&& forall|b: Sym|
                                        #[trigger] f.terms.has(b) ==> c.has_la(r3, 0, b)
                                    &&& (f.eps ==> c.has_la(r3, 0, a))
                                } by {
                                    if r3 == r2 as int {
                                        assert forall|b: Sym| #[trigger] f.terms.has(
                                            b,
                                        ) implies c.has_la(r3, 0, b) by {
                                            let m2 = choose|m2: int|
                                                0 <= m2 < f.terms.seq().len() && f.terms.seq()[m2]
                                                    == b;
                                            assert(c.has_la(r2 as int, 0, f.terms.seq()[m2]));
                                        };
                                    }
                                };
                            }
                        }
                        r2 += 1;
                    }
                    proof {
                        assert(lr1_closed_at(c, *g, *ft, it.rule(), it.dot(), a)) by {
                            assert(g.prods@[it.rule()].rhs@[it.dot()] == x);
                            assert(g.prods@[it.rule()].rhs@.skip(it.dot() + 1) =~= w);
                            assert forall|r3: int|
                                0 <= r3 < g.prods@.len() && (#[trigger] g.prods@[r3].lhs)
                                    == x implies {
                                &&& forall|b: Sym|
                                    #[trigger] seq_first_has(*ft, w, b) ==> c.has_la(r3, 0, b)
                                &&& (seq_first_eps(*ft, w) ==> c.has_la(r3, 0, a))
                            } by {
                                assert forall|b: Sym| #[trigger] seq_first_has(
                                    *ft,
                                    w,
                                    b,
                                ) implies c.has_la(r3, 0, b) by {
                                    assert(f.terms.has(b));
                                };
                            };
                        };
                    }
                } else {
                    proof {
                        assert(lr1_closed_at(c, *g, *ft, it.rule(), it.dot(), a)) by {
                            assert(g.prods@[it.rule()].rhs@[it.dot()] == x);
                            assert(!g.spec_is_nonterminal(x));
                        };
                    }
                }
            } else {
                proof {
                    assert(lr1_closed_at(c, *g, *ft, it.rule(), it.dot(), a)) by {
                        assert(it.dot() >= g.prods@[it.rule()].rhs@.len());
                    };
                }
            }
            proof {
                assert forall|i: int, li: int|
                    0 <= i < c.entries@.len() && 0 <= li
                        < c.entries@[i].looks.seq().len() implies {
                    let r = c.entries@[i].item.rule();
                    let d = c.entries@[i].item.dot();
                    let b = #[trigger] c.entries@[i].looks.seq()[li];
                    ||| in_queue_la(queue@, r, d, b)
                    ||| lr1_closed_at(c, *g, *ft, r, d, b)
                } by {
                    let r = c.entries@[i].item.rule();
                    let d = c.entries@[i].item.dot();
                    let b = c.entries@[i].looks.seq()[li];
                    if r == it.rule() && d == it.dot() && b == a {
                        assert(lr1_closed_at(c, *g, *ft, r, d, b));
                    }
                };
            }
        }
        proof {
            assert forall|i: int, li: int|
                0 <= i < c.entries@.len() && 0 <= li
                    < c.entries@[i].looks.seq().len() implies lr1_closed_at(
                c,
                *g,
                *ft,
                c.entries@[i].item.rule(),
                c.entries@[i].item.dot(),
                #[trigger] c.entries@[i].looks.seq()[li],
            ) by {
                assert(!in_queue_la(
                    queue@,
                    c.entries@[i].item.rule(),
                    c.entries@[i].item.dot(),
                    c.entries@[i].looks.seq()[li],
                ));
            };
        }
        c
    }
}

/// After one lookahead fact is recorded (and queued when new), every fact of
/// the closure is again queued, discharged, or the one being discharged.
proof fn lr1_pending_after_insert(
    c_prev: LR1Closure,
    c: LR1Closure,
    g: Grammar,
    ft: FirstTable,
    q_prev: Seq<(Item, Sym)>,
    q: Seq<(Item, Sym)>,
    nit: Item,
    b: Sym,
    added: bool,
    cr: int,
    cd: int,
    ca: Sym,
)
    requires
        lr1_pending(c_prev, g, ft, q_prev, cr, cd, ca, true),
        forall|r: int, d: int, b2: Sym|
            #[trigger] c.has_la(r, d, b2) <==> (c_prev.has_la(r, d, b2) || (r == nit.rule() && d
                == nit.dot() && b2 == b)),
        added ==> (forall|r: int, d: int, b2: Sym|
            in_queue_la(q_prev, r, d, b2) ==> #[trigger] in_queue_la(q, r, d, b2)) && in_queue_la(
            q,
            nit.rule(),
            nit.dot(),
            b,
        ),
        !added ==> q == q_prev && c == c_prev,
    ensures
        lr1_pending(c, g, ft, q, cr, cd, ca, true),
{
    if !added {
        return ;
    }
    assert forall|i: int, li: int|
        0 <= i < c.entries@.len() && 0 <= li < c.entries@[i].looks.seq().len() implies {
        let r = c.entries@[i].item.rule();
        let d = c.entries@[i].item.dot();
        let a = #[trigger] c.entries@[i].looks.seq()[li];
        ||| in_queue_la(q, r, d, a)
        ||| lr1_closed_at(c, g, ft, r, d, a)
        ||| (r == cr && d == cd && a == ca)
    } by {
        let r = c.entries@[i].item.rule();
        let d = c.entries@[i].item.dot();
        let a = c.entries@[i].looks.seq()[li];
        assert(c.entries@[i].looks.has(a));
        assert(c.has_la(r, d, a));
        if r == nit.rule() && d == nit.dot() && a == b {
            assert(in_queue_la(q, r, d, a));
        } else {
            assert(c_prev.has_la(r, d, a));
            let k = choose|k: int|
                0 <= k < c_prev.entries@.len() && (#[trigger] c_prev.entries@[k]).item.rule() == r
                    && c_prev.entries@[k].item.dot() == d && c_prev.entries@[k].looks.has(a);
            let lk = choose|lk: int|
                0 <= lk < c_prev.entries@[k].looks.seq().len() && c_prev.entries@[k].looks.seq()[lk]
                    == a;
            assert(c_prev.entries@[k].looks.seq()[lk] == a);
            if in_queue_la(q_prev, r, d, a) {
                assert(in_queue_la(q, r, d, a));
            } else if lr1_closed_at(c_prev, g, ft, r, d, a) {
                assert(lr1_closed_at(c, g, ft, r, d, a)) by {
                    if 0 <= r < g.prods@.len() && d < g.prods@[r].rhs@.len()
                        && g.spec_is_nonterminal(g.prods@[r].rhs@[d]) {
                        let x = g.prods@[r].rhs@[d];
                        let w = g.prods@[r].rhs@.skip(d + 1);
                        assert forall|r2: int|
                            0 <= r2 < g.prods@.len() && (#[trigger] g.prods@[r2].lhs)
                                == x implies {
                            &&& forall|b2: Sym|
                                #[trigger] seq_first_has(ft, w, b2) ==> c.has_la(r2, 0, b2)
                            &&& (seq_first_eps(ft, w) ==> c.has_la(r2, 0, a))
                        } by {
                            assert forall|b2: Sym| #[trigger] seq_first_has(
                                ft,
                                w,
                                b2,
                            ) implies c.has_la(r2, 0, b2) by {
                                assert(c_prev.has_la(r2, 0, b2));
                            };
                            if seq_first_eps(ft, w) {
                                assert(c_prev.has_la(r2, 0, a));
                            }
                        };
                    }
                };
            }
        }
    };
}


/// Two LR(1) closures carry the same items with the same lookahead sets.
pub open spec fn lr1_same(a: LR1Closure, b: LR1Closure) -> bool {
    &&& a.entries@.len() == b.entries@.len()
    &&& forall|k: int|
        0 <= k < a.entries@.len() ==> (#[trigger] a.entries@[k]).item.rule()
            == b.entries@[k].item.rule() && a.entries@[k].item.dot() == b.entries@[k].item.dot()
            && a.entries@[k].looks.seq() == b.entries@[k].looks.seq()
}

proof fn lemma_lr1_same_has(a: LR1Closure, b: LR1Closure)
    requires
        lr1_same(a, b),
    ensures
        forall|r: int, d: int, la: Sym| #[trigger] a.has_la(r, d, la) <==> b.has_la(r, d, la),
{
    assert forall|r: int, d: int, la: Sym| #[trigger] a.has_la(r, d, la) <==> b.has_la(
        r,
        d,
        la,
    ) by {
        if a.has_la(r, d, la) {
            let k = choose|k: int|
                0 <= k < a.entries@.len() && (#[trigger] a.entries@[k]).item.rule() == r
                    && a.entries@[k].item.dot() == d && a.entries@[k].looks.has(la);
            assert(b.entries@[k].item.rule() == r && b.entries@[k].item.dot() == d
                && b.entries@[k].looks.has(la));
        }
        if b.has_la(r, d, la) {
            let k = choose|k: int|
                0 <= k < b.entries@.len() && (#[trigger] b.entries@[k]).item.rule() == r
                    && b.entries@[k].item.dot() == d && b.entries@[k].looks.has(la);
            assert(a.entries@[k].item.rule() == r && a.entries@[k].item.dot() == d
                && a.entries@[k].looks.has(la));
        }
    };
}

/// The grammar can exhibit a full complement of pairwise-distinct LR(1)
/// states: the only ground on which the LR(1) build may stop with a
/// capacity error.
pub open spec fn lr1_capacity_exhausted(g: Grammar) -> bool {
    exists|ss: Seq<LR1Closure>|
        {
            &&& #[trigger] ss.len() == crate::table::MAX_STATES
            &&& forall|p: int| 0 <= p < ss.len() ==> (#[trigger] ss[p]).wf(g)
            &&& forall|p: int, q: int|
                0 <= p < q < ss.len() ==> !lr1_same(#[trigger] ss[p], #[trigger] ss[q])
        }
}

/// The closure has an item with `sym` under the dot.
pub open spec fn moves_lr1(c: LR1Closure, sym: int) -> bool {
    exists|k: int|
        0 <= k < c.entries@.len() && (#[trigger] c.entries@[k]).item.dot()
            < c.entries@[k].item.rhs@.len() && c.entries@[k].item.rhs@[c.entries@[k].item.dot()]
            == sym as Sym
}

/// Two reducible entries of one state claim the same lookahead:
/// a reduce/reduce conflict.
pub open spec fn lr1_rr_conflict(c: LR1Closure) -> bool {
    exists|i: int, j: int, x: Sym|
        0 <= i < c.entries@.len() && 0 <= j < c.entries@.len() && i != j && c.entries@[
            i].item.dot() == c.entries@[i].item.rhs@.len() && c.entries@[j].item.dot()
            == c.entries@[j].item.rhs@.len() && (#[trigger] c.entries@[i].looks.has(x)) && (
        #[trigger] c.entries@[j].looks.has(x))
}

/// Every fact of `src` with `sym` under the dot lies, shifted with its
/// lookahead, in `c2`: `c2` covers the transition's kernel.
pub open spec fn lr1_kernel_in(c2: LR1Closure, src: LR1Closure, g: Grammar, sym: int) -> bool {
    forall|r: int, d: int, a: Sym|
        #[trigger] src.has_la(r, d, a) && 0 <= r < g.prods@.len() && 0 <= d
            < g.prods@[r].rhs@.len() && g.prods@[r].rhs@[d] == sym as Sym ==> c2.has_la(r, d + 1, a)
}

/// A reducible entry's lookahead is also a symbol the state shifts on:
/// a shift/reduce conflict.
pub open spec fn lr1_sr_conflict(c: LR1Closure) -> bool {
    exists|i: int, x: Sym|
        0 <= i < c.entries@.len() && c.entries@[i].item.dot() == c.entries@[i].item.rhs@.len() && (
        #[trigger] c.entries@[i].looks.has(x)) && moves_lr1(c, x as int)
}

/// The discovered LR(1) automaton behind an accepted table: well-formed,
/// closed, pairwise-distinct states, one table row per state; the initial
/// augmented fact in state 0; transitions stay in range, carry every
/// lookahead across the shifted item, and exist exactly for the symbols the
/// state moves on.
pub open spec fn lr1_automaton_for(
    g: Grammar,
    ftw: FirstTable,
    states: Seq<LR1Closure>,
    trans: Seq<Vec<(Sym, usize)>>,
    t: ParseTable,
    acc: int,
) -> bool {
    &&& 1 <= states.len()
    &&& trans.len() == states.len()
    &&& t.rows@.len() == states.len()
    &&& forall|p: int| 0 <= p < states.len() ==> (#[trigger] states[p]).wf(g)
    &&& forall|p: int| 0 <= p < states.len() ==> lr1_closed(#[trigger] states[p], g, ftw)
    &&& forall|p: int, q: int|
        0 <= p < q < states.len() ==> !lr1_same(#[trigger] states[p], #[trigger] states[q])
    &&& states[0].has_la(0, 0, g.n_symbols)
    &&& forall|c2: LR1Closure|
        lr1_closed(c2, g, ftw) && c2.has_la(0, 0, g.n_symbols) ==> #[trigger] lr1_facts_subset(
            states[0],
            c2,
        )
    &&& forall|p: int, k: int|
        0 <= p < trans.len() && 0 <= k < trans[p]@.len() ==> {
            let sym = (#[trigger] trans[p]@[k]).0;
            let j = trans[p]@[k].1 as int;
            &&& (sym as int) < g.n_symbols
            &&& 0 <= j < states.len()
            &&& forall|r: int, d: int, a: Sym|
                #[trigger] states[p].has_la(r, d, a) && 0 <= r < g.prods@.len() && 0 <= d
                    < g.prods@[r].rhs@.len() && g.prods@[r].rhs@[d] == sym ==> states[j].has_la(
                    r,
                    d + 1,
                    a,
                )
            &&& forall|c2: LR1Closure|
                lr1_closed(c2, g, ftw) && lr1_kernel_in(c2, states[p], g, sym as int)
                    ==> #[trigger] lr1_facts_subset(states[j], c2)
        }
    &&& forall|p: int, sym: int|
        0 <= p < states.len() && 0 <= sym < g.n_symbols ==> (#[trigger] moves_lr1(
            states[p],
            sym,
        ) <==> crate::table::trans_has(trans[p]@, sym))
    &&& forall|j: int| 1 <= j < states.len() ==> #[trigger] crate::table::has_pred(trans, j)
    &&& 0 <= acc < states.len()
    &&& states[acc].has_la(0, 2, g.n_symbols)
    &&& forall|r: int, d: int, a: Sym| #[trigger] states[acc].has_la(r, d, a) ==> r == 0 && d == 2
    &&& t.cell(acc, g.n_symbols as int) == Some(Action::Accept)
    &&& forall|p: int, k: int|
        0 <= p < trans.len() && 0 <= k < trans[p]@.len() ==> t.cell(
            p,
            ((#[trigger] trans[p]@[k]).0) as int,
        ) == Some(Action::Shift(trans[p]@[k].1))
    &&& forall|p: int, k: int, li: int|
        0 <= p < states.len() && 0 <= k < states[p].entries@.len() && states[p].entries@[
            k].item.dot() == states[p].entries@[k].item.rhs@.len() && 0 <= li < states[p].entries@[
            k].looks.seq().len() && !(p == acc
            && ((#[trigger] states[p].entries@[k].looks.seq()[li]) as int) == g.n_symbols) ==> (
        t.cell(p, (states[p].entries@[k].looks.seq()[li]) as int) matches Some(Action::Reduce(it))
            && it.rule() == states[p].entries@[k].item.rule())
    &&& forall|p: int, cc: int|
        0 <= p < states.len() && 0 <= cc <= g.n_symbols && !((#[trigger] t.cell(p, cc)) is None)
            ==> (p == acc && cc == g.n_symbols) || crate::table::trans_has(trans[p]@, cc) || exists|
            k: int,
        |
            0 <= k < states[p].entries@.len() && (#[trigger] states[p].entries@[k]).item.dot()
                == states[p].entries@[k].item.rhs@.len() && states[p].entries@[k].looks.has(
                cc as Sym,
            )
}

/// Reachability: the discovered LR(1) automaton holds no unreachable state.
/// Any set of state ids that contains state 0 and is closed under the
/// automaton's transitions contains every state id.
pub proof fn lemma_lr1_state_reachable(
    g: Grammar,
    ftw: FirstTable,
    states: Seq<LR1Closure>,
    trans: Seq<Vec<(Sym, usize)>>,
    t: ParseTable,
    acc: int,
    rs: Set<int>,
    j: int,
)
    requires
        lr1_automaton_for(g, ftw, states, trans, t, acc),
        rs.contains(0),
        forall|p: int, k: int|
            rs.contains(p) && 0 <= p < trans.len() && 0 <= k < trans[p]@.len() ==> rs.contains(
                ((#[trigger] trans[p]@[k]).1) as int,
            ),
        0 <= j < states.len(),
    ensures
        rs.contains(j),
    decreases j,
{
    if j >= 1 {
        assert(crate::table::has_pred(trans, j));
        let (p, k) = choose|p: int, k: int|
            0 <= p < j && p < trans.len() && 0 <= k < trans[p]@.len() && (((
            #[trigger] trans[p]@[k]).1) as int) == j;
        lemma_lr1_state_reachable(g, ftw, states, trans, t, acc, rs, p);
    }
}

/// Compare two canonical LR(1) closures.
fn lr1_closure_eq(a: &LR1Closure, b: &LR1Closure) -> (r: bool)
    ensures
        r == lr1_same(*a, *b),
{
    if a.entries.len() != b.entries.len() {
        return false;
    }
    let mut k: usize = 0;
    while k < a.entries.len()
        invariant
            a.entries@.len() == b.entries@.len(),
            k <= a.entries@.len(),
            forall|k2: int|
                0 <= k2 < k ==> (#[trigger] a.entries@[k2]).item.rule()
                    == b.entries@[k2].item.rule() && a.entries@[k2].item.dot()
                    == b.entries@[k2].item.dot() && a.entries@[k2].looks.seq()
                    == b.entries@[k2].looks.seq(),
        decreases a.entries@.len() - k,
    {
        if a.entries[k].item.rule_id.0 != b.entries[k].item.rule_id.0 || a.entries[k].item.pointer
            != b.entries[k].item.pointer {
            return false;
        }
        if a.entries[k].looks.len() != b.entries[k].looks.len() {
            return false;
        }
        let mut m: usize = 0;
        while m < a.entries[k].looks.len()
            invariant
                a.entries@.len() == b.entries@.len(),
                k < a.entries@.len(),
                a.entries@[k as int].looks.seq().len() == b.entries@[k as int].looks.seq().len(),
                m <= a.entries@[k as int].looks.seq().len(),
                forall|m2: int|
                    0 <= m2 < m ==> (#[trigger] a.entries@[k as int].looks.seq()[m2])
                        == b.entries@[k as int].looks.seq()[m2],
            decreases a.entries@[k as int].looks.seq().len() - m,
        {
            if a.entries[k].looks.get(m) != b.entries[k].looks.get(m) {
                return false;
            }
            m += 1;
        }
        proof {
            assert(a.entries@[k as int].looks.seq() =~= b.entries@[k as int].looks.seq());
        }
        k += 1;
    }
    true
}

fn lr1_find_state(states: &Vec<LR1Closure>, c: &LR1Closure) -> (r: Option<usize>)
    ensures
        match r {
            Some(j) => (j as int) < states@.len() && lr1_same(states@[j as int], *c),
            None => forall|j: int|
                0 <= j < states@.len() ==> !lr1_same(#[trigger] states@[j], *c),
        },
{
    let mut j: usize = 0;
    while j < states.len()
        invariant
            j <= states@.len(),
            forall|j2: int| 0 <= j2 < j ==> !lr1_same(#[trigger] states@[j2], *c),
        decreases states@.len() - j,
    {
        if lr1_closure_eq(&states[j], c) {
            return Some(j);
        }
        j += 1;
    }
    None
}

/// The entries of `c` with `sym` under the dot, items advanced, lookahead
/// sets carried across unchanged.
fn lr1_shift_group(c: &LR1Closure, sym: Sym, g: &Grammar) -> (grp: Vec<(Item, SymSet)>)
    requires
        g.wf(),
        c.wf(*g),
    ensures
        forall|j: int|
            0 <= j < grp@.len() ==> (#[trigger] grp@[j]).0.valid(*g) && grp@[j].1.wf()
                && grp@[j].1.below(g.n_symbols + 1),
        grp@.len() > 0 <==> moves_lr1(*c, sym as int),
        forall|r: int, d: int, a: Sym|
            #[trigger] c.has_la(r, d, a) && 0 <= r < g.prods@.len() && 0 <= d
                < g.prods@[r].rhs@.len() && g.prods@[r].rhs@[d] == sym ==> exists|j: int, li: int|
                0 <= j < grp@.len() && grp@[j].0.rule() == r && grp@[j].0.dot() == d + 1 && 0 <= li
                    < grp@[j].1.seq().len() && (#[trigger] grp@[j].1.seq()[li]) == a,
        forall|j: int|
            0 <= j < grp@.len() ==> {
                let gi = (#[trigger] grp@[j]).0;
                &&& gi.dot() > 0
                &&& 0 <= gi.rule() < g.prods@.len()
                &&& gi.dot() - 1 < g.prods@[gi.rule()].rhs@.len()
                &&& g.prods@[gi.rule()].rhs@[gi.dot() - 1] == sym
            },
        forall|j: int, li: int|
            0 <= j < grp@.len() && 0 <= li < grp@[j].1.seq().len() ==> c.has_la(
                (#[trigger] grp@[j]).0.rule(),
                grp@[j].0.dot() - 1,
                #[trigger] grp@[j].1.seq()[li],
            ),
{
    let mut grp: Vec<(Item, SymSet)> = Vec::new();
    let mut idx: usize = 0;
    while idx < c.entries.len()
        invariant
            g.wf(),
            c.wf(*g),
            idx <= c.entries@.len(),
            forall|j: int|
                0 <= j < grp@.len() ==> (#[trigger] grp@[j]).0.valid(*g) && grp@[j].1.wf()
                    && grp@[j].1.below(g.n_symbols + 1),
            grp@.len() > 0 ==> moves_lr1(*c, sym as int),
            forall|t: int|
                0 <= t < idx && (#[trigger] c.entries@[t]).item.dot()
                    < c.entries@[t].item.rhs@.len() && c.entries@[t].item.rhs@[c.entries@[
                    t].item.dot()] == sym ==> exists|j: int|
                    0 <= j < grp@.len() && (#[trigger] grp@[j]).0.rule()
                        == c.entries@[t].item.rule() && grp@[j].0.dot() == c.entries@[t].item.dot()
                        + 1 && grp@[j].1.seq() == c.entries@[t].looks.seq(),
            forall|j: int|
                0 <= j < grp@.len() ==> {
                    let gi = (#[trigger] grp@[j]).0;
                    &&& gi.dot() > 0
                    &&& 0 <= gi.rule() < g.prods@.len()
                    &&& gi.dot() - 1 < g.prods@[gi.rule()].rhs@.len()
                    &&& g.prods@[gi.rule()].rhs@[gi.dot() - 1] == sym
                },
            forall|j: int, li: int|
                0 <= j < grp@.len() && 0 <= li < grp@[j].1.seq().len() ==> c.has_la(
                    (#[trigger] grp@[j]).0.rule(),
                    grp@[j].0.dot() - 1,
                    #[trigger] grp@[j].1.seq()[li],
                ),
        decreases c.entries@.len() - idx,
    {
        let e = &c.entries[idx];
        if e.item.pointer < e.item.rhs.len() && e.item.rhs[e.item.pointer] == sym {
            let mut nit = e.item.duplicate();
            proof {
                assert(c.entries@[idx as int].item.valid(*g));
                assert(moves_lr1(*c, sym as int)) by {
                    assert(c.entries@[idx as int].item.dot() < c.entries@[
                        idx as int].item.rhs@.len());
                };
            }
            nit.inc_pointer();
            let looks = e.looks.duplicate();
            let ghost grp_prev = grp@;
            grp.push((nit, looks));
            proof {
                assert(grp@[grp_prev.len() as int] == (nit, looks));
                assert(forall|j: int| 0 <= j < grp_prev.len() ==> grp@[j] == grp_prev[j]);
                assert forall|t: int|
                    0 <= t < idx + 1 && (#[trigger] c.entries@[t]).item.dot()
                        < c.entries@[t].item.rhs@.len() && c.entries@[t].item.rhs@[c.entries@[
                        t].item.dot()] == sym implies exists|j: int|
                    0 <= j < grp@.len() && (#[trigger] grp@[j]).0.rule()
                        == c.entries@[t].item.rule() && grp@[j].0.dot() == c.entries@[t].item.dot()
                        + 1 && grp@[j].1.seq() == c.entries@[t].looks.seq() by {
                    if t < idx {
                        let j = choose|j: int|
                            0 <= j < grp_prev.len() && (#[trigger] grp_prev[j]).0.rule()
                                == c.entries@[t].item.rule() && grp_prev[j].0.dot() == c.entries@[
                                t].item.dot() + 1 && grp_prev[j].1.seq()
                                == c.entries@[t].looks.seq();
                        assert(grp@[j] == grp_prev[j]);
                    } else {
                        assert(grp@[grp_prev.len() as int].0.rule() == c.entries@[t].item.rule());
                    }
                };
                assert forall|j: int| 0 <= j < grp@.len() implies {
                    let gi = (#[trigger] grp@[j]).0;
                    &&& gi.dot() > 0
                    &&& 0 <= gi.rule() < g.prods@.len()
                    &&& gi.dot() - 1 < g.prods@[gi.rule()].rhs@.len()
                    &&& g.prods@[gi.rule()].rhs@[gi.dot() - 1] == sym
                } by {
                    if j < grp_prev.len() {
                        assert(grp@[j] == grp_prev[j]);
                    } else {
                        assert(grp@[j] == (nit, looks));
                        assert(c.entries@[idx as int].item.valid(*g));
                        assert(nit.rule() == c.entries@[idx as int].item.rule());
                        assert(nit.dot() == c.entries@[idx as int].item.dot() + 1);
                        assert(nit.rhs@ == c.entries@[idx as int].item.rhs@);
                    }
                };
                assert forall|j: int, li: int|
                    0 <= j < grp@.len() && 0 <= li < grp@[j].1.seq().len() implies c.has_la(
                    (#[trigger] grp@[j]).0.rule(),
                    grp@[j].0.dot() - 1,
                    #[trigger] grp@[j].1.seq()[li],
                ) by {
                    if j < grp_prev.len() {
                        assert(grp@[j] == grp_prev[j]);
                        assert(grp_prev[j].1.seq()[li] == grp@[j].1.seq()[li]);
                    } else {
                        assert(grp@[j] == (nit, looks));
                        assert(c.entries@[idx as int].item.valid(*g));
                        assert(nit.rule() == c.entries@[idx as int].item.rule());
                        assert(nit.dot() == c.entries@[idx as int].item.dot() + 1);
                        assert(looks.seq() == c.entries@[idx as int].looks.seq());
                        assert(c.entries@[idx as int].looks.has(looks.seq()[li]));
                        assert(c.has_la(nit.rule(), nit.dot() - 1, looks.seq()[li]));
                    }
                };
            }
        }
        idx += 1;
    }
    proof {
        if moves_lr1(*c, sym as int) {
            let k = choose|k: int|
                0 <= k < c.entries@.len() && (#[trigger] c.entries@[k]).item.dot() < c.entries@[
                    k].item.rhs@.len() && c.entries@[k].item.rhs@[c.entries@[k].item.dot()]
                    == sym as Sym;
            assert(exists|j: int|
                0 <= j < grp@.len() && (#[trigger] grp@[j]).0.rule() == c.entries@[k].item.rule()
                    && grp@[j].0.dot() == c.entries@[k].item.dot() + 1 && grp@[j].1.seq()
                    == c.entries@[k].looks.seq());
        }
        assert forall|r: int, d: int, a: Sym|
            #[trigger] c.has_la(r, d, a) && 0 <= r < g.prods@.len() && 0 <= d
                < g.prods@[r].rhs@.len() && g.prods@[r].rhs@[d] == sym implies exists|
            j: int,
            li: int,
        |
            0 <= j < grp@.len() && grp@[j].0.rule() == r && grp@[j].0.dot() == d + 1 && 0 <= li
                < grp@[j].1.seq().len() && (#[trigger] grp@[j].1.seq()[li]) == a by {
            let t = choose|t: int|
                0 <= t < c.entries@.len() && (#[trigger] c.entries@[t]).item.rule() == r
                    && c.entries@[t].item.dot() == d && c.entries@[t].looks.has(a);
            assert(c.entries@[t].item.valid(*g));
            assert(c.entries@[t].item.rhs@[d] == sym);
            let j = choose|j: int|
                0 <= j < grp@.len() && (#[trigger] grp@[j]).0.rule() == c.entries@[t].item.rule()
                    && grp@[j].0.dot() == c.entries@[t].item.dot() + 1 && grp@[j].1.seq()
                    == c.entries@[t].looks.seq();
            let li = choose|li: int|
                0 <= li < c.entries@[t].looks.seq().len() && c.entries@[t].looks.seq()[li] == a;
            assert(grp@[j].1.seq()[li] == a);
        };
    }
    grp
}

/// Build the LR(1) parsing table: states are LR(1) closures discovered from
/// the closure of `[S~ -> ·S ⊥, $]`; reducible items reduce on each of their
/// lookaheads, shifts carry lookaheads unchanged, and a cell receiving two
/// actions aborts the build with the conflict kind. `Accept` finally
/// overwrites the exhausted-input cell of the state holding the augmented
/// item with the dot at the end.
pub fn compute_lr1_parsing_table(g: &Grammar) -> (res: Result<ParseTable, BuildError>)
    requires
        g.wf(),
    ensures
        match res {
            Ok(t) => {
                &&& t.wf(*g)
                &&& exists|s: int|
                    0 <= s < t.rows@.len() && #[trigger] t.cell(s, t.n_symbols as int) == Some(
                        Action::Accept,
                    )
                &&& exists|
                    ftw: FirstTable,
                    states: Seq<LR1Closure>,
                    trans: Seq<Vec<(Sym, usize)>>,
                    acc: int,
                |
                    {
                        &&& ftw.wf(*g)
                        &&& forall|r: int|
                            0 <= r < g.prods@.len() ==> #[trigger] prod_first_entailed(*g, ftw, r)
                        &&& #[trigger] lr1_automaton_for(*g, ftw, states, trans, t, acc)
                    }
            },
            Err(e) => {
                &&& e == BuildError::ShiftReduceConflict || e == BuildError::ReduceReduceConflict
                    || e == BuildError::TooManyStates
                &&& (e == BuildError::ReduceReduceConflict ==> exists|
                    ftw: FirstTable,
                    c: LR1Closure,
                |
                    #[trigger] ftw.wf(*g) && #[trigger] c.wf(*g) && lr1_closed(c, *g, ftw)
                        && lr1_rr_conflict(c))
                &&& (e == BuildError::ShiftReduceConflict ==> exists|
                    ftw: FirstTable,
                    c: LR1Closure,
                |
                    #[trigger] ftw.wf(*g) && #[trigger] c.wf(*g) && lr1_closed(c, *g, ftw)
                        && lr1_sr_conflict(c))
                &&& (e == BuildError::TooManyStates ==> lr1_capacity_exhausted(*g))
            },
        },
{
    let ft = compute_first_sets(g);
    let width = g.n_symbols + 1;
    let la_end = g.n_symbols;
    let mut seeds: Vec<(Item, SymSet)> = Vec::new();
    let it0 = Item::at_start(g, 0);
    let ghost it0g = it0;
    let mut looks0 = SymSet::new();
    let _ = looks0.insert(la_end);
    let ghost looks0g = looks0;
    seeds.push((it0, looks0));
    let ghost seeds_view = seeds@;
    proof {
        assert(seeds_view[0] == (it0g, looks0g));
        assert(seeds_view[0].0.valid(*g));
        assert(looks0g.seq().len() == 1 && looks0g.seq()[0] == la_end);
    }
    let c0 = LR1Closure::from(seeds, g, &ft);
    let mut states: Vec<LR1Closure> = Vec::new();
    let mut transitions: Vec<Vec<(Sym, usize)>> = Vec::new();
    let mut rows: Vec<Vec<Option<Action>>> = Vec::new();
    states.push(c0);
    proof {
        assert(c0.has_la(seeds_view[0].0.rule(), seeds_view[0].0.dot(), seeds_view[0].1.seq()[0]));
        assert(states@[0].has_la(0, 0, la_end));
        assert forall|c2: LR1Closure|
            lr1_closed(c2, *g, ft) && c2.has_la(0, 0, la_end) implies #[trigger] lr1_facts_subset(
            states@[0],
            c2,
        ) by {
            assert(lr1_has_seed_facts(c2, seeds_view)) by {
                assert forall|j: int, li: int|
                    0 <= j < seeds_view.len() && 0 <= li
                        < seeds_view[j].1.seq().len() implies c2.has_la(
                    (#[trigger] seeds_view[j]).0.rule(),
                    seeds_view[j].0.dot(),
                    #[trigger] seeds_view[j].1.seq()[li],
                ) by {
                    assert(seeds_view[j] == (it0g, looks0g));
                    assert(seeds_view[j].1.seq()[li] == la_end);
                };
            };
            assert(lr1_facts_subset(c0, c2));
        };
    }
    let mut i: usize = 0;
    while i < states.len()
        invariant
            g.wf(),
            ft.wf(*g),
            width == g.n_symbols + 1,
            la_end == g.n_symbols,
            1 <= states@.len() <= crate::table::MAX_STATES,
            i <= states@.len(),
            transitions@.len() == i,
            rows@.len() == i,
            states@[0].has_la(0, 0, la_end),
            forall|p: int| 0 <= p < states@.len() ==> (#[trigger] states@[p]).wf(*g),
            forall|p: int|
                0 <= p < states@.len() ==> lr1_closed(#[trigger] states@[p], *g, ft),
            forall|p: int, q: int|
                0 <= p < q < states@.len() ==> !lr1_same(
                    #[trigger] states@[p],
                    #[trigger] states@[q],
                ),
            forall|c2: LR1Closure|
                lr1_closed(c2, *g, ft) && c2.has_la(0, 0, la_end) ==> #[trigger] lr1_facts_subset(
                    states@[0],
                    c2,
                ),
            forall|p: int| 0 <= p < i ==> (#[trigger] rows@[p])@.len() == width,
            forall|p: int, cc: int|
                0 <= p < i && 0 <= cc < width ==> (match #[trigger] rows@[p]@[cc] {
                    Some(Action::Shift(j)) => (j as int) < states@.len(),
                    Some(Action::Reduce(it)) => it.valid(*g) && it.dot() == it.rhs@.len(),
                    Some(Action::Accept) => true,
                    None => true,
                }),
            forall|p: int, k: int|
                0 <= p < i && 0 <= k < transitions@[p]@.len() ==> {
                    let sym = (#[trigger] transitions@[p]@[k]).0;
                    let j = transitions@[p]@[k].1 as int;
                    &&& (sym as int) < g.n_symbols
                    &&& 0 <= j < states@.len()
                    &&& forall|r: int, d: int, a: Sym|
                        #[trigger] states@[p].has_la(r, d, a) && 0 <= r < g.prods@.len() && 0 <= d
                            < g.prods@[r].rhs@.len() && g.prods@[r].rhs@[d] == sym
                            ==> states@[j].has_la(r, d + 1, a)
                    &&& forall|c2: LR1Closure|
                        lr1_closed(c2, *g, ft) && lr1_kernel_in(c2, states@[p], *g, sym as int)
                            ==> #[trigger] lr1_facts_subset(states@[j], c2)
                },
            forall|p: int, sym: int|
                0 <= p < i && 0 <= sym < g.n_symbols ==> (#[trigger] moves_lr1(states@[p], sym)
                    <==> crate::table::trans_has(transitions@[p]@, sym)),
            forall|p: int, k: int|
                0 <= p < i && 0 <= k < transitions@[p]@.len() ==> rows@[p]@[((
                #[trigger] transitions@[p]@[k]).0) as int] == Some(Action::Shift(
                    transitions@[p]@[k].1,
                )),
            forall|p: int, k: int, li: int|
                0 <= p < i && 0 <= k < states@[p].entries@.len() && states@[p].entries@[
                    k].item.dot() == states@[p].entries@[k].item.rhs@.len() && 0 <= li < states@[
                    p].entries@[k].looks.seq().len() ==> (rows@[p]@[((
                #[trigger] states@[p].entries@[k].looks.seq()[li])) as int] matches Some(
                    Action::Reduce(it),
                ) && it.rule() == states@[p].entries@[k].item.rule()),
            forall|p: int, cc: int|
                0 <= p < i && 0 <= cc < width && !((#[trigger] rows@[p]@[cc]) is None)
                    ==> crate::table::trans_has(transitions@[p]@, cc) || exists|k: int|
                    0 <= k < states@[p].entries@.len() && (#[trigger] states@[p].entries@[
                        k]).item.dot() == states@[p].entries@[k].item.rhs@.len() && states@[
                        p].entries@[k].looks.has(cc as Sym),
            forall|j2: int|
                1 <= j2 < states@.len() ==> #[trigger] crate::table::has_pred(transitions@, j2),
        decreases crate::table::MAX_STATES - states@.len(), states@.len() - i,
    {
        let ghost len_at_entry = states@.len();
        let mut row = empty_row(width);
        // reduces: each reducible item on each of its lookaheads
        let st = &states[i];
        let mut k: usize = 0;
        while k < st.entries.len()
            invariant
                g.wf(),
                ft.wf(*g),
                width == g.n_symbols + 1,
                i < states@.len(),
                *st == states@[i as int],
                st.wf(*g),
                lr1_closed(*st, *g, ft),
                k <= st.entries@.len(),
                row@.len() == width,
                forall|cc: int|
                    0 <= cc < width ==> (match #[trigger] row@[cc] {
                        Some(Action::Shift(j)) => (j as int) < states@.len(),
                        Some(Action::Reduce(it)) => it.valid(*g) && it.dot() == it.rhs@.len(),
                        Some(Action::Accept) => true,
                        None => true,
                    }),
                forall|cc: int|
                    0 <= cc < width && !((#[trigger] row@[cc]) is None) ==> exists|k2: int|
                        0 <= k2 < k && (#[trigger] st.entries@[k2]).item.dot() == st.entries@[
                            k2].item.rhs@.len() && st.entries@[k2].looks.has(cc as Sym),
                forall|k2: int, li2: int|
                    0 <= k2 < k && st.entries@[k2].item.dot() == st.entries@[k2].item.rhs@.len()
                        && 0 <= li2 < st.entries@[k2].looks.seq().len() ==> (row@[((
                    #[trigger] st.entries@[k2].looks.seq()[li2])) as int] matches Some(
                        Action::Reduce(it),
                    ) && it.rule() == st.entries@[k2].item.rule()),
            decreases st.entries@.len() - k,
        {
            let e = &st.entries[k];
            if e.item.pointer == e.item.rhs.len() {
                proof {
                    assert(st.entries@[k as int].item.valid(*g));
                    assert(st.entries@[k as int].looks.below(g.n_symbols + 1));
                }
                let mut li: usize = 0;
                while li < e.looks.len()
                    invariant
                        g.wf(),
                        ft.wf(*g),
                        width == g.n_symbols + 1,
                        i < states@.len(),
                        *st == states@[i as int],
                        st.wf(*g),
                        lr1_closed(*st, *g, ft),
                        k < st.entries@.len(),
                        *e == states@[i as int].entries@[k as int],
                        e.item.valid(*g),
                        e.item.dot() == e.item.rhs@.len(),
                        e.looks.wf(),
                        e.looks.below(g.n_symbols + 1),
                        li <= e.looks.seq().len(),
                        row@.len() == width,
                        forall|cc: int|
                            0 <= cc < width ==> (match #[trigger] row@[cc] {
                                Some(Action::Shift(j)) => (j as int) < states@.len(),
                                Some(Action::Reduce(it)) => it.valid(*g) && it.dot()
                                    == it.rhs@.len(),
                                Some(Action::Accept) => true,
                                None => true,
                            }),
                        forall|cc: int|
                            0 <= cc < width && !((#[trigger] row@[cc]) is None) ==> (exists|
                                k2: int,
                            |
                                0 <= k2 < k && (#[trigger] st.entries@[k2]).item.dot()
                                    == st.entries@[k2].item.rhs@.len() && st.entries@[
                                    k2].looks.has(cc as Sym)) || (exists|li2: int|
                                0 <= li2 < li && (#[trigger] e.looks.seq()[li2]) == cc as Sym),
                        forall|k2: int, li2: int|
                            0 <= k2 < k && st.entries@[k2].item.dot() == st.entries@[
                                k2].item.rhs@.len() && 0 <= li2 < st.entries@[
                                k2].looks.seq().len() ==> (row@[((
                            #[trigger] st.entries@[k2].looks.seq()[li2])) as int] matches Some(
                                Action::Reduce(it),
                            ) && it.rule() == st.entries@[k2].item.rule()),
                        forall|li2: int|
                            0 <= li2 < li ==> (row@[((#[trigger] e.looks.seq()[li2])) as int]
                                matches Some(Action::Reduce(it)) && it.rule() == e.item.rule()),
                    decreases e.looks.seq().len() - li,
                {
                    let la = e.looks.get(li);
                    proof {
                        assert(e.looks.seq()[li as int] == la);
                        assert((la as int) < g.n_symbols + 1);
                    }
                    let dup = e.item.duplicate();
                    proof {
                        assert(dup.valid(*g));
                        assert(dup.dot() == dup.rhs@.len());
                    }
                    let ghost row_prev = row@;
                    let occupied = set_cell(&mut row, la, Action::Reduce(dup));
                    if occupied {
                        proof {
                            let ki = k as int;
                            let ii = i as int;
                            let lii = li as int;
                            // the occupant is an earlier entry's reduce: an
                            // earlier lookahead of this entry is strictly
                            // smaller than the current one
                            assert(exists|k2: int|
                                0 <= k2 < ki && (#[trigger] st.entries@[k2]).item.dot()
                                    == st.entries@[k2].item.rhs@.len() && st.entries@[
                                    k2].looks.has(la)) by {
                                if exists|li2: int|
                                    0 <= li2 < lii && (#[trigger] e.looks.seq()[li2]) == la {
                                    let li2 = choose|li2: int|
                                        0 <= li2 < lii && (#[trigger] e.looks.seq()[li2]) == la;
                                    assert(e.looks.seq()[li2] < e.looks.seq()[lii]);
                                    assert(false);
                                }
                            };
                            let k2 = choose|k2: int|
                                0 <= k2 < ki && (#[trigger] st.entries@[k2]).item.dot()
                                    == st.entries@[k2].item.rhs@.len() && st.entries@[
                                    k2].looks.has(la);
                            assert(st.entries@[ki].looks.has(la)) by {
                                assert(e.looks.seq()[lii] == la);
                            };
                            assert(lr1_rr_conflict(states@[ii])) by {
                                assert(states@[ii].entries@[k2].looks.has(la) && states@[
                                    ii].entries@[ki].looks.has(la));
                            };
                            assert(ft.wf(*g) && states@[ii].wf(*g) && lr1_closed(
                                states@[ii],
                                *g,
                                ft,
                            ));
                        }
                        return Err(BuildError::ReduceReduceConflict);
                    }
                    proof {
                        let lii = li as int;
                        assert forall|k2: int, li2: int|
                            0 <= k2 < k && st.entries@[k2].item.dot() == st.entries@[
                                k2].item.rhs@.len() && 0 <= li2 < st.entries@[
                                k2].looks.seq().len() implies (row@[((
                        #[trigger] st.entries@[k2].looks.seq()[li2])) as int] matches Some(
                            Action::Reduce(it),
                        ) && it.rule() == st.entries@[k2].item.rule()) by {
                            let cc = (st.entries@[k2].looks.seq()[li2]) as int;
                            assert(st.entries@[k2].looks.has(st.entries@[k2].looks.seq()[li2]));
                            if cc == la as int {
                                assert(!(row_prev[cc] is None));
                                assert(false);
                            } else {
                                assert(row@[cc] == row_prev[cc]);
                            }
                        };
                        assert forall|li2: int|
                            0 <= li2 < lii + 1 implies (row@[((#[trigger] e.looks.seq()[li2]))
                                as int] matches Some(Action::Reduce(it)) && it.rule()
                                == e.item.rule()) by {
                            let cc = (e.looks.seq()[li2]) as int;
                            if cc == la as int {
                                assert(row@[cc] == Some(Action::Reduce(dup)));
                                assert(dup.rule() == e.item.rule());
                            } else {
                                assert(li2 < lii);
                                assert(row@[cc] == row_prev[cc]);
                            }
                        };
                        assert forall|cc: int|
                            0 <= cc < width && !((#[trigger] row@[cc]) is None) implies (exists|
                            k2: int,
                        |
                            0 <= k2 < k && (#[trigger] st.entries@[k2]).item.dot()
                                == st.entries@[k2].item.rhs@.len() && st.entries@[k2].looks.has(
                                cc as Sym,
                            )) || (exists|li2: int|
                            0 <= li2 < lii + 1 && (#[trigger] e.looks.seq()[li2])
                                == cc as Sym) by {
                            if cc == la as int {
                                assert(e.looks.seq()[lii] == cc as Sym);
                            } else {
                                if exists|li2: int|
                                    0 <= li2 < lii && (#[trigger] e.looks.seq()[li2])
                                        == cc as Sym {
                                    let li2 = choose|li2: int|
                                        0 <= li2 < lii && (#[trigger] e.looks.seq()[li2])
                                            == cc as Sym;
                                    assert(0 <= li2 < lii + 1 && e.looks.seq()[li2] == cc as Sym);
                                }
                            }
                        };
                    }
                    li += 1;
                }
                proof {
                    let ki = k as int;
                    assert forall|cc: int|
                        0 <= cc < width && !((#[trigger] row@[cc]) is None) implies exists|
                        k2: int,
                    |
                        0 <= k2 < ki + 1 && (#[trigger] st.entries@[k2]).item.dot()
                            == st.entries@[k2].item.rhs@.len() && st.entries@[k2].looks.has(
                            cc as Sym,
                        ) by {
                        if exists|li2: int|
                            0 <= li2 < e.looks.seq().len() && (#[trigger] e.looks.seq()[li2])
                                == cc as Sym {
                            let li2 = choose|li2: int|
                                0 <= li2 < e.looks.seq().len() && (#[trigger] e.looks.seq()[li2])
                                    == cc as Sym;
                            assert(st.entries@[ki].looks.has(cc as Sym));
                            assert(0 <= ki < ki + 1);
                        } else {
                            let k2 = choose|k2: int|
                                0 <= k2 < ki && (#[trigger] st.entries@[k2]).item.dot()
                                    == st.entries@[k2].item.rhs@.len() && st.entries@[
                                    k2].looks.has(cc as Sym);
                            assert(0 <= k2 < ki + 1);
                        }
                    };
                    assert forall|li2: int|
                        0 <= li2 < st.entries@[ki].looks.seq().len() implies (row@[((
                    #[trigger] st.entries@[ki].looks.seq()[li2])) as int] matches Some(
                        Action::Reduce(it),
                    ) && it.rule() == st.entries@[ki].item.rule()) by {
                        assert(st.entries@[ki] == *e);
                        assert(e.looks.seq()[li2] == st.entries@[ki].looks.seq()[li2]);
                    };
                }
            }
            k += 1;
        }
        // shifts, grouped by the symbol under the dot, in symbol order
        let mut trow: Vec<(Sym, usize)> = Vec::new();
        let mut sym: Sym = 0;
        while sym < g.n_symbols
            invariant
                g.wf(),
                ft.wf(*g),
                width == g.n_symbols + 1,
                la_end == g.n_symbols,
                1 <= states@.len() <= crate::table::MAX_STATES,
                len_at_entry <= states@.len(),
                i < states@.len(),
                transitions@.len() == i,
                rows@.len() == i,
                sym <= g.n_symbols,
                states@[0].has_la(0, 0, la_end),
                forall|p: int| 0 <= p < states@.len() ==> (#[trigger] states@[p]).wf(*g),
                forall|p: int|
                    0 <= p < states@.len() ==> lr1_closed(#[trigger] states@[p], *g, ft),
                forall|p: int, q: int|
                    0 <= p < q < states@.len() ==> !lr1_same(
                        #[trigger] states@[p],
                        #[trigger] states@[q],
                    ),
                forall|c2: LR1Closure|
                    lr1_closed(c2, *g, ft) && c2.has_la(0, 0, la_end)
                        ==> #[trigger] lr1_facts_subset(states@[0], c2),
                forall|p: int| 0 <= p < i ==> (#[trigger] rows@[p])@.len() == width,
                forall|p: int, cc: int|
                    0 <= p < i && 0 <= cc < width ==> (match #[trigger] rows@[p]@[cc] {
                        Some(Action::Shift(j)) => (j as int) < states@.len(),
                        Some(Action::Reduce(it)) => it.valid(*g) && it.dot() == it.rhs@.len(),
                        Some(Action::Accept) => true,
                        None => true,
                    }),
                forall|p: int, k2: int|
                    0 <= p < i && 0 <= k2 < transitions@[p]@.len() ==> {
                        let s3 = (#[trigger] transitions@[p]@[k2]).0;
                        let j = transitions@[p]@[k2].1 as int;
                        &&& (s3 as int) < g.n_symbols
                        &&& 0 <= j < states@.len()
                        &&& forall|r: int, d: int, a: Sym|
                            #[trigger] states@[p].has_la(r, d, a) && 0 <= r < g.prods@.len() && 0
                                <= d < g.prods@[r].rhs@.len() && g.prods@[r].rhs@[d] == s3
                                ==> states@[j].has_la(r, d + 1, a)
                        &&& forall|c2: LR1Closure|
                            lr1_closed(c2, *g, ft) && lr1_kernel_in(c2, states@[p], *g, s3 as int)
                                ==> #[trigger] lr1_facts_subset(states@[j], c2)
                    },
                forall|p: int, sym2: int|
                    0 <= p < i && 0 <= sym2 < g.n_symbols ==> (#[trigger] moves_lr1(
                        states@[p],
                        sym2,
                    ) <==> crate::table::trans_has(transitions@[p]@, sym2)),
                row@.len() == width,
                forall|cc: int|
                    0 <= cc < width ==> (match #[trigger] row@[cc] {
                        Some(Action::Shift(j)) => (j as int) < states@.len(),
                        Some(Action::Reduce(it)) => it.valid(*g) && it.dot() == it.rhs@.len(),
                        Some(Action::Accept) => true,
                        None => true,
                    }),
                forall|cc: int|
                    0 <= cc < width && !((#[trigger] row@[cc]) is None) ==> (exists|k2: int|
                        0 <= k2 < states@[i as int].entries@.len() && (#[trigger] states@[
                            i as int].entries@[k2]).item.dot() == states@[i as int].entries@[
                            k2].item.rhs@.len() && states@[i as int].entries@[k2].looks.has(
                            cc as Sym,
                        )) || (exists|k2: int|
                        0 <= k2 < trow@.len() && ((#[trigger] trow@[k2]).0 as int) == cc),
                forall|k2: int|
                    0 <= k2 < trow@.len() ==> {
                        let s2 = (#[trigger] trow@[k2]).0;
                        let j = trow@[k2].1 as int;
                        &&& (s2 as int) < sym
                        &&& 0 <= j < states@.len()
                        &&& forall|r: int, d: int, a: Sym|
                            #[trigger] states@[i as int].has_la(r, d, a) && 0 <= r
                                < g.prods@.len() && 0 <= d < g.prods@[r].rhs@.len() && g.prods@[
                                r].rhs@[d] == s2 ==> states@[j].has_la(r, d + 1, a)
                        &&& forall|c2: LR1Closure|
                            lr1_closed(c2, *g, ft) && lr1_kernel_in(
                                c2,
                                states@[i as int],
                                *g,
                                s2 as int,
                            ) ==> #[trigger] lr1_facts_subset(states@[j], c2)
                    },
                forall|s2: int|
                    0 <= s2 < sym ==> (#[trigger] moves_lr1(states@[i as int], s2)
                        <==> crate::table::trans_has(trow@, s2)),
                forall|k2: int, li2: int|
                    0 <= k2 < states@[i as int].entries@.len() && states@[i as int].entries@[
                        k2].item.dot() == states@[i as int].entries@[k2].item.rhs@.len() && 0 <= li2
                        < states@[i as int].entries@[k2].looks.seq().len() ==> (row@[((
                    #[trigger] states@[i as int].entries@[k2].looks.seq()[li2])) as int]
                        matches Some(Action::Reduce(it)) && it.rule() == states@[
                        i as int].entries@[k2].item.rule()),
                forall|k2: int|
                    0 <= k2 < trow@.len() ==> row@[((#[trigger] trow@[k2]).0) as int] == Some(
                        Action::Shift(trow@[k2].1),
                    ),
                forall|p: int, k2: int, li2: int|
                    0 <= p < i && 0 <= k2 < states@[p].entries@.len() && states@[p].entries@[
                        k2].item.dot() == states@[p].entries@[k2].item.rhs@.len() && 0 <= li2
                        < states@[p].entries@[k2].looks.seq().len() ==> (rows@[p]@[((
                    #[trigger] states@[p].entries@[k2].looks.seq()[li2])) as int] matches Some(
                        Action::Reduce(it),
                    ) && it.rule() == states@[p].entries@[k2].item.rule()),
                forall|p: int, cc: int|
                    0 <= p < i && 0 <= cc < width && !((#[trigger] rows@[p]@[cc]) is None)
                        ==> crate::table::trans_has(transitions@[p]@, cc) || exists|k2: int|
                        0 <= k2 < states@[p].entries@.len() && (#[trigger] states@[p].entries@[
                            k2]).item.dot() == states@[p].entries@[k2].item.rhs@.len() && states@[
                            p].entries@[k2].looks.has(cc as Sym),
                i < len_at_entry,
                forall|j2: int|
                    1 <= j2 < len_at_entry ==> #[trigger] crate::table::has_pred(transitions@, j2),
                forall|j2: int|
                    len_at_entry <= j2 < states@.len() ==> #[trigger] crate::table::row_targets(
                        trow@,
                        j2,
                    ),
            decreases g.n_symbols - sym,
        {
            let grp = lr1_shift_group(&states[i], sym, g);
            if grp.len() > 0 {
                let ghost grp_view = grp@;
                let next = LR1Closure::from(grp, g, &ft);
                let j_opt = lr1_find_state(&states, &next);
                let ghost states_prev = states@;
                let j: usize = match j_opt {
                    Some(j) => {
                        proof {
                            lemma_lr1_same_has(states@[j as int], next);
                        }
                        j
                    },
                    None => {
                        if states.len() >= crate::table::MAX_STATES {
                            proof {
                                assert(states@.len() == crate::table::MAX_STATES);
                                assert(lr1_capacity_exhausted(*g));
                            }
                            return Err(BuildError::TooManyStates);
                        }
                        let j = states.len();
                        states.push(next);
                        proof {
                            assert(forall|p: int|
                                0 <= p < states_prev.len() ==> states@[p] == states_prev[p]);
                            assert(states@[j as int] == next);
                            assert forall|p: int, q: int|
                                0 <= p < q < states@.len() implies !lr1_same(
                                #[trigger] states@[p],
                                #[trigger] states@[q],
                            ) by {
                                if q == j as int {
                                    assert(!lr1_same(states_prev[p], next));
                                    assert(states@[p] == states_prev[p]);
                                    if lr1_same(states@[p], states@[q]) {
                                        assert(false);
                                    }
                                }
                            };
                        }
                        j
                    },
                };
                proof {
                    assert forall|r: int, d: int, a: Sym|
                        #[trigger] states@[i as int].has_la(r, d, a) && 0 <= r < g.prods@.len()
                            && 0 <= d < g.prods@[r].rhs@.len() && g.prods@[r].rhs@[d]
                            == sym implies states@[j as int].has_la(r, d + 1, a) by {
                        let (jj, li) = choose|jj: int, li: int|
                            0 <= jj < grp_view.len() && grp_view[jj].0.rule() == r && grp_view[
                                jj].0.dot() == d + 1 && 0 <= li < grp_view[jj].1.seq().len() && (
                            #[trigger] grp_view[jj].1.seq()[li]) == a;
                        assert(next.has_la(
                            grp_view[jj].0.rule(),
                            grp_view[jj].0.dot(),
                            grp_view[jj].1.seq()[li],
                        ));
                    };
                    assert forall|c2: LR1Closure|
                        lr1_closed(c2, *g, ft) && lr1_kernel_in(
                        c2,
                        states@[i as int],
                        *g,
                        sym as int,
                    ) implies #[trigger] lr1_facts_subset(states@[j as int], c2) by {
                        assert(lr1_has_seed_facts(c2, grp_view)) by {
                            assert forall|jj: int, li: int|
                                0 <= jj < grp_view.len() && 0 <= li < grp_view[
                                jj].1.seq().len() implies c2.has_la(
                                (#[trigger] grp_view[jj]).0.rule(),
                                grp_view[jj].0.dot(),
                                #[trigger] grp_view[jj].1.seq()[li],
                            ) by {
                                let gi = grp_view[jj].0;
                                let a = grp_view[jj].1.seq()[li];
                                assert(states@[i as int].has_la(gi.rule(), gi.dot() - 1, a));
                                assert(c2.has_la(gi.rule(), (gi.dot() - 1) + 1, a));
                            };
                        };
                        assert(lr1_facts_subset(next, c2));
                        assert forall|r: int, d: int, a: Sym| #[trigger] states@[j as int].has_la(
                            r,
                            d,
                            a,
                        ) implies c2.has_la(r, d, a) by {
                            assert(next.has_la(r, d, a));
                        };
                    };
                }
                let ghost row_prev = row@;
                let occupied = set_cell(&mut row, sym, Action::Shift(j));
                if occupied {
                    proof {
                        let ii = i as int;
                        // the occupant cannot be an earlier shift: those sit
                        // on strictly smaller symbols; it is a reduce whose
                        // lookahead this state also moves on
                        assert(exists|k2: int|
                            0 <= k2 < states@[ii].entries@.len() && (#[trigger] states@[
                                ii].entries@[k2]).item.dot() == states@[ii].entries@[
                                k2].item.rhs@.len() && states@[ii].entries@[k2].looks.has(
                                sym,
                            )) by {
                            if exists|k2: int|
                                0 <= k2 < trow@.len() && ((#[trigger] trow@[k2]).0 as int)
                                    == sym as int {
                                let k2 = choose|k2: int|
                                    0 <= k2 < trow@.len() && ((#[trigger] trow@[k2]).0 as int)
                                        == sym as int;
                                assert((trow@[k2].0 as int) < sym as int);
                                assert(false);
                            }
                        };
                        assert(moves_lr1(states@[ii], sym as int));
                        assert(lr1_sr_conflict(states@[ii]));
                        assert(ft.wf(*g) && states@[ii].wf(*g) && lr1_closed(
                            states@[ii],
                            *g,
                            ft,
                        ));
                    }
                    return Err(BuildError::ShiftReduceConflict);
                }
                let ghost trow_prev = trow@;
                trow.push((sym, j));
                proof {
                    assert(trow@[trow_prev.len() as int] == (sym, j));
                    assert(forall|k2: int| 0 <= k2 < trow_prev.len() ==> trow@[k2] == trow_prev[k2]);
                    assert forall|jx: int|
                        len_at_entry <= jx < states@.len() implies #[trigger] crate::table::row_targets(
                        trow@,
                        jx,
                    ) by {
                        if jx < states_prev.len() {
                            assert(crate::table::row_targets(trow_prev, jx));
                            let k2 = choose|k2: int|
                                0 <= k2 < trow_prev.len() && (((#[trigger] trow_prev[k2]).1) as int)
                                    == jx;
                            assert(trow@[k2] == trow_prev[k2]);
                            assert(((trow@[k2].1) as int) == jx);
                        } else {
                            assert(jx == j as int);
                            assert(((trow@[trow_prev.len() as int].1) as int) == jx);
                        }
                    };
                    assert forall|k2: int, li2: int|
                        0 <= k2 < states@[i as int].entries@.len() && states@[i as int].entries@[
                            k2].item.dot() == states@[i as int].entries@[k2].item.rhs@.len() && 0
                            <= li2 < states@[i as int].entries@[
                            k2].looks.seq().len() implies (row@[((
                    #[trigger] states@[i as int].entries@[k2].looks.seq()[li2])) as int]
                        matches Some(Action::Reduce(it)) && it.rule() == states@[
                        i as int].entries@[k2].item.rule()) by {
                        let cc = (states@[i as int].entries@[k2].looks.seq()[li2]) as int;
                        if cc == sym as int {
                            assert(!(row_prev[cc] is None));
                            assert(false);
                        } else {
                            assert(row@[cc] == row_prev[cc]);
                        }
                    };
                    assert forall|k2: int|
                        0 <= k2 < trow@.len() implies row@[((#[trigger] trow@[k2]).0) as int]
                        == Some(Action::Shift(trow@[k2].1)) by {
                        if k2 < trow_prev.len() {
                            assert(trow@[k2] == trow_prev[k2]);
                            assert((trow_prev[k2].0 as int) < sym as int);
                            assert(row@[trow_prev[k2].0 as int] == row_prev[trow_prev[k2].0 as int]);
                        } else {
                            assert(trow@[k2] == (sym, j));
                            assert(row@[sym as int] == Some(Action::Shift(j)));
                        }
                    };
                    assert forall|cc: int|
                        0 <= cc < width && !((#[trigger] row@[cc]) is None) implies (exists|
                        k2: int,
                    |
                        0 <= k2 < states@[i as int].entries@.len() && (#[trigger] states@[
                            i as int].entries@[k2]).item.dot() == states@[i as int].entries@[
                            k2].item.rhs@.len() && states@[i as int].entries@[k2].looks.has(
                            cc as Sym,
                        )) || (exists|k2: int|
                        0 <= k2 < trow@.len() && ((#[trigger] trow@[k2]).0 as int) == cc) by {
                        if cc == sym as int {
                            assert((trow@[trow_prev.len() as int].0 as int) == cc);
                        } else {
                            if exists|k2: int|
                                0 <= k2 < trow_prev.len() && ((#[trigger] trow_prev[k2]).0 as int)
                                    == cc {
                                let k2 = choose|k2: int|
                                    0 <= k2 < trow_prev.len() && ((#[trigger] trow_prev[k2]).0
                                        as int) == cc;
                                assert((trow@[k2].0 as int) == cc);
                            }
                        }
                    };
                    assert forall|s2: int|
                        0 <= s2 < sym + 1 implies (#[trigger] moves_lr1(states@[i as int], s2)
                        <==> crate::table::trans_has(trow@, s2)) by {
                        if s2 < sym as int {
                            if crate::table::trans_has(trow_prev, s2) {
                                let k2 = choose|k2: int|
                                    0 <= k2 < trow_prev.len() && (#[trigger] trow_prev[k2]).0
                                        == s2 as Sym;
                                assert(trow@[k2].0 == s2 as Sym);
                            }
                            if crate::table::trans_has(trow@, s2) {
                                let k2 = choose|k2: int|
                                    0 <= k2 < trow@.len() && (#[trigger] trow@[k2]).0 == s2 as Sym;
                                assert(k2 < trow_prev.len());
                                assert(trow_prev[k2].0 == s2 as Sym);
                            }
                        } else {
                            assert(trow@[trow_prev.len() as int].0 == sym);
                            assert(crate::table::trans_has(trow@, s2));
                            assert(moves_lr1(states@[i as int], s2));
                        }
                    };
                }
            } else {
                proof {
                    assert forall|s2: int|
                        0 <= s2 < sym + 1 implies (#[trigger] moves_lr1(states@[i as int], s2)
                        <==> crate::table::trans_has(trow@, s2)) by {
                        if s2 == sym as int {
                            assert(!moves_lr1(states@[i as int], s2));
                            if crate::table::trans_has(trow@, s2) {
                                let k2 = choose|k2: int|
                                    0 <= k2 < trow@.len() && (#[trigger] trow@[k2]).0 == s2 as Sym;
                                assert(false);
                            }
                        }
                    };
                }
            }
            sym += 1;
        }
        let ghost trans_prev = transitions@;
        let ghost rows_prev = rows@;
        let ghost row_view = row@;
        let ghost trow_view = trow@;
        transitions.push(trow);
        rows.push(row);
        proof {
            assert(forall|p: int| 0 <= p < trans_prev.len() ==> transitions@[p] == trans_prev[p]);
            assert(forall|p: int| 0 <= p < rows_prev.len() ==> rows@[p] == rows_prev[p]);
            assert(transitions@[i as int]@ == trow_view && rows@[i as int]@ == row_view);
            assert forall|jx: int|
                1 <= jx < states@.len() implies #[trigger] crate::table::has_pred(
                transitions@,
                jx,
            ) by {
                if jx < len_at_entry {
                    assert(crate::table::has_pred(trans_prev, jx));
                    let (p, k2) = choose|p: int, k2: int|
                        0 <= p < jx && p < trans_prev.len() && 0 <= k2 < trans_prev[p]@.len() && (((
                        #[trigger] trans_prev[p]@[k2]).1) as int) == jx;
                    assert(transitions@[p] == trans_prev[p]);
                    assert((((transitions@[p]@[k2]).1) as int) == jx);
                } else {
                    assert(crate::table::row_targets(trow_view, jx));
                    let k2 = choose|k2: int|
                        0 <= k2 < trow_view.len() && (((#[trigger] trow_view[k2]).1) as int) == jx;
                    assert((((transitions@[i as int]@[k2]).1) as int) == jx);
                    assert(0 <= (i as int) < jx);
                }
            };
            assert forall|p: int, k2: int|
                0 <= p < i + 1 && 0 <= k2 < transitions@[p]@.len() implies rows@[p]@[((
            #[trigger] transitions@[p]@[k2]).0) as int] == Some(Action::Shift(
                transitions@[p]@[k2].1,
            )) by {
                if p < i as int {
                    assert(transitions@[p] == trans_prev[p] && rows@[p] == rows_prev[p]);
                }
            };
            assert forall|p: int, k2: int, li2: int|
                0 <= p < i + 1 && 0 <= k2 < states@[p].entries@.len() && states@[p].entries@[
                    k2].item.dot() == states@[p].entries@[k2].item.rhs@.len() && 0 <= li2
                    < states@[p].entries@[k2].looks.seq().len() implies (rows@[p]@[((
            #[trigger] states@[p].entries@[k2].looks.seq()[li2])) as int] matches Some(
                Action::Reduce(it),
            ) && it.rule() == states@[p].entries@[k2].item.rule()) by {
                if p < i as int {
                    assert(rows@[p] == rows_prev[p]);
                }
            };
            assert forall|p: int, cc: int|
                0 <= p < i + 1 && 0 <= cc < width && !((#[trigger] rows@[p]@[cc])
                    is None) implies crate::table::trans_has(transitions@[p]@, cc) || exists|
                k2: int,
            |
                0 <= k2 < states@[p].entries@.len() && (#[trigger] states@[p].entries@[
                    k2]).item.dot() == states@[p].entries@[k2].item.rhs@.len() && states@[
                    p].entries@[k2].looks.has(cc as Sym) by {
                if p < i as int {
                    assert(transitions@[p] == trans_prev[p] && rows@[p] == rows_prev[p]);
                } else {
                    assert(rows@[p]@[cc] == row_view[cc]);
                    if exists|k2: int|
                        0 <= k2 < trow_view.len() && ((#[trigger] trow_view[k2]).0 as int) == cc {
                        let k2 = choose|k2: int|
                            0 <= k2 < trow_view.len() && ((#[trigger] trow_view[k2]).0 as int)
                                == cc;
                        assert((transitions@[p]@[k2].0 as int) == cc);
                        assert(crate::table::trans_has(transitions@[p]@, cc));
                    }
                }
            };
        }
        i += 1;
    }
    // locate the accept state: follow `S` then `⊥` from state 0
    proof {
        assert(g.prods@[0].rhs@ == seq![g.start, g.eof]);
        assert(moves_lr1(states@[0], g.start as int)) by {
            let k = choose|k: int|
                0 <= k < states@[0].entries@.len() && (#[trigger] states@[0].entries@[
                    k]).item.rule() == 0 && states@[0].entries@[k].item.dot() == 0 && states@[
                    0].entries@[k].looks.has(la_end);
            assert(states@[0].entries@[k].item.valid(*g));
            assert(states@[0].entries@[k].item.rhs@[0] == g.start);
        };
    }
    let s1_opt = crate::table::lookup_transition(&transitions[0], g.start);
    let s1: usize = match s1_opt {
        Some(s1) => s1,
        None => {
            proof {
                assert(false);
            }
            return Err(BuildError::TooManyStates);
        },
    };
    proof {
        let k = choose|k: int|
            0 <= k < transitions@[0]@.len() && (#[trigger] transitions@[0]@[k]) == (g.start, s1);
        assert(states@[s1 as int].has_la(0, 1, la_end));
        assert(moves_lr1(states@[s1 as int], g.eof as int)) by {
            let k2 = choose|k2: int|
                0 <= k2 < states@[s1 as int].entries@.len()
                    && (#[trigger] states@[s1 as int].entries@[k2]).item.rule() == 0
                    && states@[s1 as int].entries@[k2].item.dot() == 1
                    && states@[s1 as int].entries@[k2].looks.has(la_end);
            assert(states@[s1 as int].entries@[k2].item.valid(*g));
            assert(states@[s1 as int].entries@[k2].item.rhs@[1] == g.eof);
        };
    }
    let s2_opt = crate::table::lookup_transition(&transitions[s1], g.eof);
    let s2: usize = match s2_opt {
        Some(s2) => s2,
        None => {
            proof {
                assert(false);
            }
            return Err(BuildError::TooManyStates);
        },
    };
    proof {
        let k = choose|k: int|
            0 <= k < transitions@[s1 as int]@.len() && (#[trigger] transitions@[s1 as int]@[k]) == (
            g.eof,
            s2,
        );
        assert(states@[s2 as int].has_la(0, 2, la_end));
    }
    // The accept state holds only the completed augmented item: the `⊥`-edge's
    // target is contained in every closed mapping covering its kernel, and the
    // singleton over all lookaheads is such a mapping, since user productions
    // never mention `⊥`.
    let mut all_la = SymSet::new();
    let mut la_s: Sym = 0;
    while la_s <= g.n_symbols
        invariant
            g.wf(),
            all_la.wf(),
            la_s <= g.n_symbols + 1,
            forall|x: usize| all_la.has(x) <==> (x as int) < la_s,
        decreases g.n_symbols + 1 - la_s,
    {
        let _ = all_la.insert(la_s);
        la_s += 1;
    }
    let mut acc_item = Item::at_start(g, 0);
    proof {
        assert(acc_item.rhs@.len() == 2);
    }
    acc_item.inc_pointer();
    acc_item.inc_pointer();
    let mut acc_entries: Vec<LR1Entry> = Vec::new();
    acc_entries.push(LR1Entry { item: acc_item, looks: all_la });
    let single = LR1Closure { entries: acc_entries };
    proof {
        assert(single.entries@.len() == 1);
        assert(single.entries@[0].item.rule() == 0 && single.entries@[0].item.dot() == 2);
        assert(lr1_closed(single, *g, ft)) by {
            assert forall|ii: int, li: int|
                0 <= ii < single.entries@.len() && 0 <= li < single.entries@[
                    ii].looks.seq().len() implies lr1_closed_at(
                single,
                *g,
                ft,
                single.entries@[ii].item.rule(),
                single.entries@[ii].item.dot(),
                #[trigger] single.entries@[ii].looks.seq()[li],
            ) by {
                assert(g.prods@[0].rhs@.len() == 2);
            };
        };
        assert(lr1_kernel_in(single, states@[s1 as int], *g, g.eof as int)) by {
            assert forall|r: int, d: int, a: Sym|
                #[trigger] states@[s1 as int].has_la(r, d, a) && 0 <= r < g.prods@.len() && 0 <= d
                    < g.prods@[r].rhs@.len() && g.prods@[r].rhs@[d] == g.eof implies single.has_la(
                r,
                d + 1,
                a,
            ) by {
                if r >= 1 {
                    assert(g.prods@[r].rhs@[d] != g.eof);
                }
                assert(r == 0);
                assert(g.prods@[0].rhs@ == seq![g.start, g.eof]);
                if d == 0 {
                    assert(g.prods@[0].rhs@[0] == g.start);
                    assert(false);
                }
                assert(d == 1);
                let ei = choose|ei: int|
                    0 <= ei < states@[s1 as int].entries@.len() && (#[trigger] states@[
                        s1 as int].entries@[ei]).item.rule() == r && states@[s1 as int].entries@[
                        ei].item.dot() == d && states@[s1 as int].entries@[ei].looks.has(a);
                assert(states@[s1 as int].entries@[ei].looks.below(g.n_symbols + 1));
                let ci = choose|ci: int|
                    0 <= ci < states@[s1 as int].entries@[ei].looks.v@.len() && states@[
                        s1 as int].entries@[ei].looks.v@[ci] == a;
                assert((a as int) < g.n_symbols + 1);
                assert(single.entries@[0].looks.has(a));
                assert(single.has_la(0, 2, a));
            };
        };
        let k = choose|k: int|
            0 <= k < transitions@[s1 as int]@.len() && (#[trigger] transitions@[s1 as int]@[k]) == (
            g.eof,
            s2,
        );
        assert(lr1_facts_subset(states@[s2 as int], single));
        assert forall|r: int, d: int, a: Sym| #[trigger] states@[s2 as int].has_la(
            r,
            d,
            a,
        ) implies r == 0 && d == 2 by {
            assert(single.has_la(r, d, a));
            let jx = choose|jx: int|
                0 <= jx < single.entries@.len() && (#[trigger] single.entries@[jx]).item.rule()
                    == r && single.entries@[jx].item.dot() == d && single.entries@[jx].looks.has(a);
            assert(jx == 0);
        };
    }
    // overwrite the exhausted-input cell of the accept state with `Accept`;
    // the augmented item's own reduction there is never used
    let ghost rows_orig = rows@;
    let mut arow = rows.remove(s2);
    let ghost arow_prev = arow@;
    let _ = arow.remove(g.n_symbols);
    arow.insert(g.n_symbols, Some(Action::Accept));
    proof {
        assert(arow@ =~= arow_prev.update(g.n_symbols as int, Some(Action::Accept)));
    }
    let ghost rows_before = rows@;
    rows.insert(s2, arow);
    proof {
        assert(forall|p: int|
            0 <= p < rows@.len() && p != s2 ==> #[trigger] rows@[p] == (if p < s2 {
                rows_before[p]
            } else {
                rows_before[p - 1]
            }));
    }
    let t = ParseTable { n_symbols: g.n_symbols, eof: g.eof, start: g.start, rows };
    proof {
        assert forall|s: int, cc: int|
            0 <= s < t.rows@.len() && 0 <= cc <= t.n_symbols implies (match #[trigger] t.cell(
            s,
            cc,
        ) {
            Some(Action::Shift(j)) => (j as int) < t.rows@.len(),
            Some(Action::Reduce(it)) => it.valid(*g) && it.dot() == it.rhs@.len(),
            Some(Action::Accept) => true,
            None => true,
        }) by {
            if s != s2 as int {
                assert(t.rows@[s] == (if s < s2 as int {
                    rows_before[s]
                } else {
                    rows_before[s - 1]
                }));
            }
        };
        assert(t.cell(s2 as int, t.n_symbols as int) == Some(Action::Accept));
        assert(t.rows@.len() == states@.len());
        assert(arow_prev == rows_orig[s2 as int]@);
        assert forall|p: int| 0 <= p < t.rows@.len() && p != s2 as int implies #[trigger] t.rows@[p]
            == rows_orig[p] by {
            assert(t.rows@[p] == (if p < s2 as int {
                rows_before[p]
            } else {
                rows_before[p - 1]
            }));
        };
        assert forall|p: int, k2: int|
            0 <= p < transitions@.len() && 0 <= k2 < transitions@[p]@.len() implies t.cell(
            p,
            ((#[trigger] transitions@[p]@[k2]).0) as int,
        ) == Some(Action::Shift(transitions@[p]@[k2].1)) by {
            let cc = (transitions@[p]@[k2].0) as int;
            assert(0 <= cc < g.n_symbols);
            assert(rows_orig[p]@[cc] == Some(Action::Shift(transitions@[p]@[k2].1)));
            if p == s2 as int {
                assert(t.rows@[p]@[cc] == arow_prev[cc]);
            } else {
                assert(t.rows@[p] == rows_orig[p]);
            }
        };
        assert forall|p: int, k2: int, li2: int|
            0 <= p < states@.len() && 0 <= k2 < states@[p].entries@.len() && states@[p].entries@[
                k2].item.dot() == states@[p].entries@[k2].item.rhs@.len() && 0 <= li2 < states@[
                p].entries@[k2].looks.seq().len() && !(p == s2 as int && ((states@[p].entries@[
                k2].looks.seq()[li2]) as int) == g.n_symbols) implies (t.cell(
            p,
            ((#[trigger] states@[p].entries@[k2].looks.seq()[li2])) as int,
        ) matches Some(Action::Reduce(it)) && it.rule() == states@[p].entries@[
            k2].item.rule()) by {
            let cc = (states@[p].entries@[k2].looks.seq()[li2]) as int;
            assert(states@[p].entries@[k2].looks.has(states@[p].entries@[k2].looks.seq()[li2]));
            assert(0 <= cc < width);
            if p == s2 as int {
                assert(cc != g.n_symbols);
                assert(t.rows@[p]@[cc] == arow_prev[cc]);
            } else {
                assert(t.rows@[p] == rows_orig[p]);
            }
        };
        assert forall|p: int, cc: int|
            0 <= p < states@.len() && 0 <= cc <= g.n_symbols && !((#[trigger] t.cell(p, cc))
                is None) implies (p == s2 as int && cc == g.n_symbols) || crate::table::trans_has(
            transitions@[p]@,
            cc,
        ) || exists|k2: int|
            0 <= k2 < states@[p].entries@.len() && (#[trigger] states@[p].entries@[k2]).item.dot()
                == states@[p].entries@[k2].item.rhs@.len() && states@[p].entries@[k2].looks.has(
                cc as Sym,
            ) by {
            if p == s2 as int {
                if cc != g.n_symbols {
                    assert(t.rows@[p]@[cc] == arow_prev[cc]);
                    assert(!(rows_orig[p]@[cc] is None));
                }
            } else {
                assert(t.rows@[p] == rows_orig[p]);
            }
        };
        assert(lr1_automaton_for(*g, ft, states@, transitions@, t, s2 as int));
    }
    Ok(t)
}

/// A newly predicted fact lies in every closed superset of the seeds: the
/// predicting fact is there already, and closedness demands the prediction.
proof fn lr1_least_after_predict(
    c_prev: LR1Closure,
    c: LR1Closure,
    g: Grammar,
    ft: FirstTable,
    seeds: Seq<(Item, SymSet)>,
    it: Item,
    a: Sym,
    nit: Item,
    b: Sym,
    from_terms: bool,
)
    requires
        g.wf(),
        ft.wf(g),
        it.valid(g),
        it.dot() < it.rhs@.len(),
        g.spec_is_nonterminal(it.rhs@[it.dot()]),
        nit.valid(g),
        nit.dot() == 0,
        g.prods@[nit.rule()].lhs == it.rhs@[it.dot()],
        from_terms ==> seq_first_has(ft, it.rhs@.skip(it.dot() + 1), b),
        !from_terms ==> b == a && seq_first_eps(ft, it.rhs@.skip(it.dot() + 1)),
        c_prev.has_la(it.rule(), it.dot(), a),
        forall|r3: int, d3: int, x3: Sym|
            #[trigger] c.has_la(r3, d3, x3) <==> (c_prev.has_la(r3, d3, x3) || (r3 == nit.rule()
                && d3 == nit.dot() && x3 == b)),
        forall|c2: LR1Closure|
            lr1_closed(c2, g, ft) && lr1_has_seed_facts(c2, seeds) ==> #[trigger] lr1_facts_subset(
                c_prev,
                c2,
            ),
    ensures
        forall|c2: LR1Closure|
            lr1_closed(c2, g, ft) && lr1_has_seed_facts(c2, seeds) ==> #[trigger] lr1_facts_subset(
                c,
                c2,
            ),
{
    assert forall|c2: LR1Closure|
        lr1_closed(c2, g, ft) && lr1_has_seed_facts(c2, seeds) implies #[trigger] lr1_facts_subset(
        c,
        c2,
    ) by {
        assert(lr1_facts_subset(c_prev, c2));
        assert forall|r3: int, d3: int, x3: Sym| #[trigger] c.has_la(r3, d3, x3) implies c2.has_la(
            r3,
            d3,
            x3,
        ) by {
            if !c_prev.has_la(r3, d3, x3) {
                assert(r3 == nit.rule() && d3 == 0 && x3 == b);
                assert(c2.has_la(it.rule(), it.dot(), a));
                let i2 = choose|i2: int|
                    0 <= i2 < c2.entries@.len() && (#[trigger] c2.entries@[i2]).item.rule()
                        == it.rule() && c2.entries@[i2].item.dot() == it.dot()
                        && c2.entries@[i2].looks.has(a);
                let li2 = choose|li2: int|
                    0 <= li2 < c2.entries@[i2].looks.seq().len() && c2.entries@[i2].looks.seq()[
                        li2] == a;
                assert(c2.entries@[i2].looks.seq()[li2] == a);
                assert(lr1_closed_at(c2, g, ft, it.rule(), it.dot(), a));
                assert(g.prods@[it.rule()].rhs@[it.dot()] == it.rhs@[it.dot()]);
                assert(g.prods@[it.rule()].rhs@.skip(it.dot() + 1) =~= it.rhs@.skip(
                    it.dot() + 1,
                ));
                assert(c2.has_la(nit.rule(), 0, b));
            }
        };
    };
}

} // verus!
