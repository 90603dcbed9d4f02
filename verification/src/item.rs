//! LR items and closures.
//!
//! An item is a production with a dot position. Closures are kept as vectors
//! strictly sorted by the key `(rule id, dot)`, so every closure has one
//! canonical form and state numbering is deterministic.

use vstd::prelude::*;
use crate::Sym;
use crate::grammar::{Grammar, num_items_of};
use crate::symset::lemma_inc_seq_len_bound;

verus! {

/// A production with a dot position.
/// `rule_id` is the production's id paired with its user label, as the
/// grammar assigned them; `lhs` and `rhs` repeat the production's shape so
/// that an item is self-contained.
#[derive(Debug, PartialEq)]
pub struct Item {
    pub rule_id: (usize, String),
    pub lhs: Sym,
    pub rhs: Vec<Sym>,
    pub pointer: usize,
}

impl Item {
    /// The production id.
    pub open spec fn rule(&self) -> int {
        self.rule_id.0 as int
    }

    /// The dot position.
    pub open spec fn dot(&self) -> int {
        self.pointer as int
    }

    /// The item agrees with the grammar's production of its id, and its dot
    /// lies within the right-hand side.
    pub open spec fn valid(&self, g: Grammar) -> bool {
        &&& 0 <= self.rule() < g.prods@.len()
        &&& self.rule_id.1@ == g.prods@[self.rule()].name@
        &&& self.lhs == g.prods@[self.rule()].lhs
        &&& self.rhs@ == g.prods@[self.rule()].rhs@
        &&& self.pointer <= self.rhs@.len()
    }

    pub fn from(rule_id: (usize, String), lhs: Sym, rhs: Vec<Sym>, pointer: usize) -> (it: Item)
        ensures
            it.rule_id.0 == rule_id.0,
            it.rule_id.1 == rule_id.1,
            it.lhs == lhs,
            it.rhs == rhs,
            it.pointer == pointer,
    {
        Item { rule_id, lhs, rhs, pointer }
    }

    pub fn get_rule_name(&self) -> (r: &String)
        ensures
            r == &self.rule_id.1,
    {
        &self.rule_id.1
    }

    pub fn get_lhs(&self) -> (r: Sym)
        ensures
            r == self.lhs,
    {
        self.lhs
    }

    pub fn get_rhs(&self) -> (r: &Vec<Sym>)
        ensures
            r == &self.rhs,
    {
        &self.rhs
    }

    /// The symbol under the dot, if the item is not reducible.
    pub fn get_symbol_under_pointer(&self) -> (r: Option<Sym>)
        ensures
            match r {
                Some(s) => self.dot() < self.rhs@.len() && s == self.rhs@[self.dot()],
                None => self.dot() >= self.rhs@.len(),
            },
    {
        if self.pointer < self.rhs.len() {
            Some(self.rhs[self.pointer])
        } else {
            None
        }
    }

    /// Advance the dot over the symbol under it.
    pub fn inc_pointer(&mut self)
        requires
            old(self).dot() < old(self).rhs@.len(),
        ensures
            final(self).rule_id == old(self).rule_id,
            final(self).lhs == old(self).lhs,
            final(self).rhs == old(self).rhs,
            final(self).pointer == old(self).pointer + 1,
    {
        let n = self.rhs.len();
        assert(self.pointer < n);
        self.pointer += 1;
    }

    /// The right-hand side strictly after the symbol under the dot.
    pub fn get_rhs_after_pointer(&self) -> (r: Vec<Sym>)
        requires
            self.dot() < self.rhs@.len(),
        ensures
            r@ == self.rhs@.skip(self.dot() + 1),
    {
        let n = self.rhs.len();
        assert(self.pointer < n);
        let mut r: Vec<Sym> = Vec::new();
        let mut i: usize = self.pointer + 1;
        while i < self.rhs.len()
            invariant
                self.pointer + 1 <= i <= self.rhs@.len(),
                r@ == self.rhs@.subrange(self.dot() + 1, i as int),
            decreases self.rhs@.len() - i,
        {
            r.push(self.rhs[i]);
            proof {
                assert(r@ =~= self.rhs@.subrange(self.dot() + 1, i + 1));
            }
            i += 1;
        }
        proof {
            assert(r@ =~= self.rhs@.skip(self.dot() + 1));
        }
        r
    }

    /// The dot is at the end: the item calls for a reduction.
    pub fn is_reducible(&self) -> (r: bool)
        ensures
            r == (self.dot() == self.rhs@.len()),
    {
        self.pointer == self.rhs.len()
    }

    /// Advance the dot, returning the symbol that was under it.
    pub fn shift(&mut self) -> (r: Option<Sym>)
        ensures
            final(self).rule_id == old(self).rule_id,
            final(self).lhs == old(self).lhs,
            final(self).rhs == old(self).rhs,
            match r {
                Some(s) => {
                    &&& old(self).dot() < old(self).rhs@.len()
                    &&& s == old(self).rhs@[old(self).dot()]
                    &&& final(self).pointer == old(self).pointer + 1
                },
                None => {
                    &&& old(self).dot() >= old(self).rhs@.len()
                    &&& final(self).pointer == old(self).pointer
                },
            },
    {
        if self.pointer < self.rhs.len() {
            let s = self.rhs[self.pointer];
            self.pointer += 1;
            Some(s)
        } else {
            None
        }
    }

    /// An exact copy.
    pub fn duplicate(&self) -> (r: Item)
        ensures
            r.rule_id.0 == self.rule_id.0,
            r.rule_id.1@ == self.rule_id.1@,
            r.lhs == self.lhs,
            r.rhs@ == self.rhs@,
            r.pointer == self.pointer,
            forall|g: Grammar| self.valid(g) ==> r.valid(g),
    {
        Item {
            rule_id: (self.rule_id.0, clone_string(&self.rule_id.1)),
            lhs: self.lhs,
            rhs: copy_syms(&self.rhs),
            pointer: self.pointer,
        }
    }

    /// The item for production `r` with the dot at the left end.
    pub fn at_start(g: &Grammar, r: usize) -> (it: Item)
        requires
            g.wf(),
            r < g.prods@.len(),
        ensures
            it.valid(*g),
            it.rule() == r,
            it.dot() == 0,
    {
        Item {
            rule_id: (r, clone_string(&g.prods[r].name)),
            lhs: g.prods[r].lhs,
            rhs: copy_syms(&g.prods[r].rhs),
            pointer: 0,
        }
    }
}

/// The strict ordering key on items: by rule id, then by dot.
pub open spec fn key_lt(a: Item, b: Item) -> bool {
    a.rule() < b.rule() || (a.rule() == b.rule() && a.dot() < b.dot())
}

fn clone_string(s: &String) -> (r: String)
    ensures
        r@ == s@,
{
    s.clone()
}

fn copy_syms(v: &Vec<Sym>) -> (r: Vec<Sym>)
    ensures
        r@ == v@,
{
    let mut r: Vec<Sym> = Vec::new();
    let mut i: usize = 0;
    while i < v.len()
        invariant
            i <= v@.len(),
            r@ == v@.subrange(0, i as int),
        decreases v@.len() - i,
    {
        r.push(v[i]);
        proof {
            assert(r@ =~= v@.subrange(0, i + 1));
        }
        i += 1;
    }
    proof {
        assert(r@ =~= v@);
    }
    r
}

/// Items contributed by the productions before rule `r`.
pub open spec fn items_before(g: Grammar, r: int) -> int {
    num_items_of(g.prods@.take(r))
}

/// The flat index of the item `(r, d)` in the grammar's item universe.
pub open spec fn flat_key(g: Grammar, r: int, d: int) -> int {
    items_before(g, r) + d
}

proof fn lemma_items_before_step(g: Grammar, r: int)
    requires
        0 <= r < g.prods@.len(),
    ensures
        items_before(g, r + 1) == items_before(g, r) + g.prods@[r].rhs@.len() + 1,
{
    assert(g.prods@.take(r + 1).drop_last() =~= g.prods@.take(r));
    assert(g.prods@.take(r + 1).last() == g.prods@[r]);
}

proof fn lemma_items_before_mono(g: Grammar, a: int, b: int)
    requires
        0 <= a <= b <= g.prods@.len(),
    ensures
        items_before(g, a) <= items_before(g, b),
    decreases b - a,
{
    if a < b {
        lemma_items_before_mono(g, a + 1, b);
        lemma_items_before_step(g, a);
    }
}

/// Flat keys respect the `(rule, dot)` lexicographic order.
pub proof fn lemma_flat_key_lt(g: Grammar, r: int, d: int, r2: int, d2: int)
    requires
        0 <= r < g.prods@.len(),
        0 <= d <= g.prods@[r].rhs@.len(),
        0 <= r2 < g.prods@.len(),
        0 <= d2 <= g.prods@[r2].rhs@.len(),
        r < r2 || (r == r2 && d < d2),
    ensures
        flat_key(g, r, d) < flat_key(g, r2, d2),
{
    if r < r2 {
        lemma_items_before_step(g, r);
        lemma_items_before_mono(g, r + 1, r2);
    }
}

/// Flat keys lie in `[0, num_items)`.
pub proof fn lemma_flat_key_bounds(g: Grammar, r: int, d: int)
    requires
        0 <= r < g.prods@.len(),
        0 <= d <= g.prods@[r].rhs@.len(),
    ensures
        0 <= flat_key(g, r, d) < g.num_items(),
{
    lemma_items_before_mono(g, 0, r);
    lemma_items_before_step(g, r);
    lemma_items_before_mono(g, r + 1, g.prods@.len() as int);
    assert(g.prods@.take(g.prods@.len() as int) =~= g.prods@);
    assert(g.prods@.take(0) =~= Seq::<crate::grammar::Production>::empty());
}

/// The items are strictly ordered by key: canonical form.
pub open spec fn closure_sorted(items: Seq<Item>) -> bool {
    forall|i: int, j: int| 0 <= i < j < items.len() ==> key_lt(items[i], items[j])
}

/// Every item agrees with the grammar.
pub open spec fn closure_valid(items: Seq<Item>, g: Grammar) -> bool {
    forall|i: int| 0 <= i < items.len() ==> (#[trigger] items[i]).valid(g)
}

/// Some item of the sequence carries the key `(r, d)`.
pub open spec fn seq_has_key(q: Seq<Item>, r: int, d: int) -> bool {
    exists|j: int| 0 <= j < q.len() && (#[trigger] q[j]).rule() == r && q[j].dot() == d
}

proof fn lemma_seq_has_key_push(q: Seq<Item>, it: Item)
    ensures
        forall|r: int, d: int| seq_has_key(q, r, d) ==> #[trigger] seq_has_key(q.push(it), r, d),
        seq_has_key(q.push(it), it.rule(), it.dot()),
{
    assert forall|r: int, d: int| seq_has_key(q, r, d) implies #[trigger] seq_has_key(
        q.push(it),
        r,
        d,
    ) by {
        let j = choose|j: int| 0 <= j < q.len() && (#[trigger] q[j]).rule() == r && q[j].dot() == d;
        assert(q.push(it)[j] == q[j]);
    };
    assert(q.push(it)[q.len() as int] == it);
}

proof fn lemma_seq_has_key_pop(q: Seq<Item>)
    requires
        q.len() > 0,
    ensures
        forall|r: int, d: int|
            #[trigger] seq_has_key(q, r, d) ==> seq_has_key(q.drop_last(), r, d) || (r == q.last().rule()
                && d == q.last().dot()),
{
    assert forall|r: int, d: int| #[trigger] seq_has_key(q, r, d) implies seq_has_key(
        q.drop_last(),
        r,
        d,
    ) || (r == q.last().rule() && d == q.last().dot()) by {
        let j = choose|j: int| 0 <= j < q.len() && (#[trigger] q[j]).rule() == r && q[j].dot() == d;
        if j < q.len() - 1 {
            assert(q.drop_last()[j] == q[j]);
        }
    };
}

/// A canonical set of items has at most `num_items` entries.
pub proof fn lemma_closure_len_bound(items: Seq<Item>, g: Grammar)
    requires
        closure_sorted(items),
        closure_valid(items, g),
    ensures
        items.len() <= g.num_items(),
{
    let keys = Seq::new(items.len(), |i: int| flat_key(g, items[i].rule(), items[i].dot()));
    assert forall|p: int, q: int| 0 <= p < q < keys.len() implies keys[p] < keys[q] by {
        assert(items[p].valid(g));
        assert(items[q].valid(g));
        assert(key_lt(items[p], items[q]));
        lemma_flat_key_lt(g, items[p].rule(), items[p].dot(), items[q].rule(), items[q].dot());
    };
    assert forall|p: int| 0 <= p < keys.len() implies 0 <= #[trigger] keys[p] < g.num_items() by {
        assert(items[p].valid(g));
        lemma_flat_key_bounds(g, items[p].rule(), items[p].dot());
    };
    if items.len() > 0 {
        assert(keys[0] < g.num_items());
        lemma_inc_seq_len_bound(keys, g.num_items());
    } else {
        assert(g.prods@.take(0) =~= Seq::<crate::grammar::Production>::empty());
        lemma_items_before_mono(g, 0, g.prods@.len() as int);
        assert(g.prods@.take(g.prods@.len() as int) =~= g.prods@);
    }
}

/// Every seed's key is present in `c`.
pub open spec fn has_seed_keys(c: LR0Closure, seeds: Seq<Item>) -> bool {
    forall|j: int| 0 <= j < seeds.len() ==> c.has((#[trigger] seeds[j]).rule(), seeds[j].dot())
}

/// Key-level subset: every item key of `a` appears in `b`.
pub open spec fn keys_subset(a: LR0Closure, b: LR0Closure) -> bool {
    forall|r: int, d: int| #[trigger] a.has(r, d) ==> b.has(r, d)
}

pub(crate) fn key_less(a: &Item, b: &Item) -> (r: bool)
    ensures
        r == key_lt(*a, *b),
{
    a.rule_id.0 < b.rule_id.0 || (a.rule_id.0 == b.rule_id.0 && a.pointer < b.pointer)
}

/// An LR(0) item set in canonical form: strictly sorted by `(rule, dot)` and
/// closed under prediction once built by [`LR0Closure::from`].
pub struct LR0Closure {
    pub items: Vec<Item>,
}

impl LR0Closure {
    pub open spec fn wf(&self, g: Grammar) -> bool {
        closure_sorted(self.items@) && closure_valid(self.items@, g)
    }

    /// The closure contains the item `(r, d)`.
    pub open spec fn has(&self, r: int, d: int) -> bool {
        exists|i: int|
            0 <= i < self.items@.len() && (#[trigger] self.items@[i]).rule() == r
                && self.items@[i].dot() == d
    }

    /// Prediction discharged for the item `(r, d)`: if a non-terminal stands
    /// under the dot, every production of that non-terminal is present with
    /// the dot at the left end.
    pub open spec fn closed_at(&self, g: Grammar, r: int, d: int) -> bool {
        (0 <= r < g.prods@.len() && d < g.prods@[r].rhs@.len() && g.spec_is_nonterminal(
            g.prods@[r].rhs@[d],
        )) ==> forall|r2: int|
            0 <= r2 < g.prods@.len() && (#[trigger] g.prods@[r2].lhs) == g.prods@[r].rhs@[d]
                ==> self.has(r2, 0)
    }

    /// The whole set is closed under prediction.
    pub open spec fn closed(&self, g: Grammar) -> bool {
        forall|i: int|
            0 <= i < self.items@.len() ==> self.closed_at(
                g,
                (#[trigger] self.items@[i]).rule(),
                self.items@[i].dot(),
            )
    }

    pub fn len(&self) -> (n: usize)
        ensures
            n == self.items@.len(),
    {
        self.items.len()
    }

    /// Insert a copy of `it` at its sorted position, if its key is absent.
    fn insert(&mut self, it: &Item, g: &Grammar) -> (added: bool)
        requires
            g.wf(),
            old(self).wf(*g),
            it.valid(*g),
        ensures
            final(self).wf(*g),
            added == !old(self).has(it.rule(), it.dot()),
            !added ==> *final(self) == *old(self),
            forall|r: int, d: int|
                #[trigger] final(self).has(r, d) <==> (old(self).has(r, d) || (r == it.rule() && d
                    == it.dot())),
            final(self).items@.len() == old(self).items@.len() + (if added {
                1int
            } else {
                0int
            }),
    {
        let mut i: usize = 0;
        while i < self.items.len() && key_less(&self.items[i], it)
            invariant
                i <= self.items@.len(),
                forall|j: int| 0 <= j < i ==> key_lt(self.items@[j], *it),
            decreases self.items@.len() - i,
        {
            i += 1;
        }
        if i < self.items.len() && self.items[i].rule_id.0 == it.rule_id.0 && self.items[i].pointer
            == it.pointer {
            proof {
                assert(self.items@[i as int].rule() == it.rule());
                assert(old(self).has(it.rule(), it.dot()));
            }
            return false;
        }
        // the key is absent: everything from i on is strictly greater
        proof {
            assert forall|j: int| i <= j < self.items@.len() implies key_lt(
                *it,
                self.items@[j],
            ) by {
                if i < self.items@.len() {
                    assert(!key_lt(self.items@[i as int], *it));
                    if j > i {
                        assert(key_lt(self.items@[i as int], self.items@[j]));
                    }
                }
            };
            if old(self).has(it.rule(), it.dot()) {
                let k = choose|k: int|
                    0 <= k < self.items@.len() && (#[trigger] self.items@[k]).rule() == it.rule()
                        && self.items@[k].dot() == it.dot();
                assert(false);
            }
        }
        self.items.insert(i, it.duplicate());
        proof {
            let s = self.items@;
            let o = old(self).items@;
            let ii = i as int;
            assert(forall|j: int| 0 <= j < ii ==> #[trigger] s[j] == o[j]);
            assert(forall|j: int| ii < j < s.len() ==> #[trigger] s[j] == o[j - 1]);
            assert(s[ii].rule() == it.rule() && s[ii].dot() == it.dot() && s[ii].valid(*g));
            assert forall|r: int, d: int| #[trigger] self.has(r, d) implies (old(self).has(r, d)
                || (r == it.rule() && d == it.dot())) by {
                let k = choose|k: int|
                    0 <= k < s.len() && (#[trigger] s[k]).rule() == r && s[k].dot() == d;
                if k < ii {
                    assert(o[k].rule() == r && o[k].dot() == d);
                } else if k > ii {
                    assert(o[k - 1].rule() == r && o[k - 1].dot() == d);
                }
            };
            assert forall|r: int, d: int| old(self).has(r, d) implies #[trigger] self.has(
                r,
                d,
            ) by {
                let k = choose|k: int|
                    0 <= k < o.len() && (#[trigger] o[k]).rule() == r && o[k].dot() == d;
                if k < ii {
                    assert(s[k].rule() == r && s[k].dot() == d);
                } else {
                    assert(s[k + 1].rule() == r && s[k + 1].dot() == d);
                }
            };
            assert(self.has(it.rule(), it.dot())) by {
                assert(s[ii].rule() == it.rule() && s[ii].dot() == it.dot());
            };
        }
        true
    }

    /// The closure of the given items: add, for every item with a
    /// non-terminal under the dot, every production of that non-terminal with
    /// the dot at the left end, until nothing more can be added.
    pub fn from(items: Vec<Item>, g: &Grammar) -> (c: LR0Closure)
        requires
            g.wf(),
            closure_valid(items@, *g),
        ensures
            c.wf(*g),
            c.closed(*g),
            forall|j: int|
                0 <= j < items@.len() ==> c.has((#[trigger] items@[j]).rule(), items@[j].dot()),
            forall|i: int|
                0 <= i < c.items@.len() ==> (seq_has_key(
                    items@,
                    (#[trigger] c.items@[i]).rule(),
                    c.items@[i].dot(),
                ) || c.items@[i].dot() == 0),
            forall|c2: LR0Closure|
                c2.closed(*g) && has_seed_keys(c2, items@) ==> #[trigger] keys_subset(c, c2),
    {
        let mut c = LR0Closure { items: Vec::new() };
        let mut queue: Vec<Item> = Vec::new();
        let mut si: usize = 0;
        while si < items.len()
            invariant
                g.wf(),
                closure_valid(items@, *g),
                si <= items@.len(),
                c.wf(*g),
                closure_valid(queue@, *g),
                forall|j: int|
                    0 <= j < si ==> c.has((#[trigger] items@[j]).rule(), items@[j].dot()),
                forall|i: int|
                    0 <= i < c.items@.len() ==> seq_has_key(
                        queue@,
                        (#[trigger] c.items@[i]).rule(),
                        c.items@[i].dot(),
                    ),
                forall|qi: int|
                    0 <= qi < queue@.len() ==> c.has(
                        (#[trigger] queue@[qi]).rule(),
                        queue@[qi].dot(),
                    ),
                forall|i: int|
                    0 <= i < c.items@.len() ==> (seq_has_key(
                        items@,
                        (#[trigger] c.items@[i]).rule(),
                        c.items@[i].dot(),
                    ) || c.items@[i].dot() == 0),
                forall|c2: LR0Closure|
                    c2.closed(*g) && has_seed_keys(c2, items@) ==> #[trigger] keys_subset(c, c2),
            decreases items@.len() - si,
        {
            let it = items[si].duplicate();
            proof {
                assert(items@[si as int].valid(*g));
                assert(seq_has_key(items@, it.rule(), it.dot())) by {
                    assert(items@[si as int].rule() == it.rule() && items@[si as int].dot()
                        == it.dot());
                };
            }
            let ghost c_prev = c;
            let ghost q_prev = queue@;
            let added = c.insert(&it, g);
            if added {
                proof {
                    lemma_seq_has_key_push(q_prev, it);
                }
                queue.push(it);
            }
            proof {
                assert forall|i: int| 0 <= i < c.items@.len() implies seq_has_key(
                    queue@,
                    (#[trigger] c.items@[i]).rule(),
                    c.items@[i].dot(),
                ) by {
                    let ri = c.items@[i].rule();
                    let di = c.items@[i].dot();
                    assert(c.has(ri, di));
                    if c_prev.has(ri, di) {
                        let k = choose|k: int|
                            0 <= k < c_prev.items@.len() && (#[trigger] c_prev.items@[k]).rule()
                                == ri && c_prev.items@[k].dot() == di;
                        assert(seq_has_key(q_prev, ri, di));
                    } else {
                        assert(seq_has_key(queue@, ri, di));
                    }
                };
                assert forall|i: int| 0 <= i < c.items@.len() implies (seq_has_key(
                    items@,
                    (#[trigger] c.items@[i]).rule(),
                    c.items@[i].dot(),
                ) || c.items@[i].dot() == 0) by {
                    let ri = c.items@[i].rule();
                    let di = c.items@[i].dot();
                    assert(c.has(ri, di));
                    if c_prev.has(ri, di) {
                        let k = choose|k: int|
                            0 <= k < c_prev.items@.len() && (#[trigger] c_prev.items@[k]).rule()
                                == ri && c_prev.items@[k].dot() == di;
                    } else {
                        assert(ri == it.rule() && di == it.dot());
                    }
                };
                assert forall|qi: int| 0 <= qi < queue@.len() implies c.has(
                    (#[trigger] queue@[qi]).rule(),
                    queue@[qi].dot(),
                ) by {
                    if qi < q_prev.len() {
                        assert(queue@[qi] == q_prev[qi]);
                        assert(c_prev.has(queue@[qi].rule(), queue@[qi].dot()));
                    } else {
                        assert(c.has(it.rule(), it.dot()));
                    }
                };
                // every closed superset of the seeds still holds every key:
                // the new key is a seed's
                assert forall|c2: LR0Closure|
                    c2.closed(*g) && has_seed_keys(c2, items@) implies #[trigger] keys_subset(
                    c,
                    c2,
                ) by {
                    assert(keys_subset(c_prev, c2));
                    assert forall|r: int, d: int| #[trigger] c.has(r, d) implies c2.has(r, d) by {
                        if !c_prev.has(r, d) {
                            assert(r == items@[si as int].rule() && d == items@[si as int].dot());
                            assert(c2.has(items@[si as int].rule(), items@[si as int].dot()));
                        }
                    };
                };
            }
            si += 1;
        }
        proof {
            lemma_closure_len_bound(c.items@, *g);
        }
        while queue.len() > 0
            invariant
                g.wf(),
                c.wf(*g),
                closure_valid(queue@, *g),
                c.items@.len() <= g.num_items(),
                forall|j: int|
                    0 <= j < items@.len() ==> c.has((#[trigger] items@[j]).rule(), items@[j].dot()),
                forall|i: int|
                    0 <= i < c.items@.len() ==> (seq_has_key(
                        queue@,
                        (#[trigger] c.items@[i]).rule(),
                        c.items@[i].dot(),
                    ) || c.closed_at(*g, c.items@[i].rule(), c.items@[i].dot())),
                forall|i: int|
                    0 <= i < c.items@.len() ==> (seq_has_key(
                        items@,
                        (#[trigger] c.items@[i]).rule(),
                        c.items@[i].dot(),
                    ) || c.items@[i].dot() == 0),
                forall|qi: int|
                    0 <= qi < queue@.len() ==> c.has(
                        (#[trigger] queue@[qi]).rule(),
                        queue@[qi].dot(),
                    ),
                forall|c2: LR0Closure|
                    c2.closed(*g) && has_seed_keys(c2, items@) ==> #[trigger] keys_subset(c, c2),
            decreases g.num_items() - c.items@.len(), queue@.len(),
        {
            let ghost q_before = queue@;
            let ghost c_start = c;
            proof {
                lemma_seq_has_key_pop(q_before);
            }
            let it = queue.pop().unwrap();
            proof {
                assert(q_before[q_before.len() - 1].valid(*g));
                // weak pending invariant: the popped key may stand in for a
                // queue entry until it is shown closed below
                assert forall|i: int| 0 <= i < c.items@.len() implies (seq_has_key(
                    queue@,
                    (#[trigger] c.items@[i]).rule(),
                    c.items@[i].dot(),
                ) || c.closed_at(*g, c.items@[i].rule(), c.items@[i].dot()) || (c.items@[i].rule()
                    == it.rule() && c.items@[i].dot() == it.dot())) by {
                    let ri = c.items@[i].rule();
                    let di = c.items@[i].dot();
                    assert(seq_has_key(q_before, ri, di) || c.closed_at(*g, ri, di));
                };
                // the popped key is already recorded
                assert(c.has(it.rule(), it.dot())) by {
                    assert(q_before[q_before.len() - 1] == it);
                };
            }
            let symbol_opt = it.get_symbol_under_pointer();
            if let Some(x) = symbol_opt {
                if g.is_nonterminal(x) {
                    let mut r: usize = 0;
                    while r < g.prods.len()
                        invariant
                            g.wf(),
                            c.wf(*g),
                            closure_valid(queue@, *g),
                            c.items@.len() <= g.num_items(),
                            r <= g.prods@.len(),
                            it.valid(*g),
                            it.dot() < it.rhs@.len(),
                            x == it.rhs@[it.dot()],
                            g.spec_is_nonterminal(x),
                            c_start.items@.len() <= c.items@.len(),
                            queue@.len() + c_start.items@.len() == q_before.len() - 1
                                + c.items@.len(),
                            forall|j: int|
                                0 <= j < items@.len() ==> c.has(
                                    (#[trigger] items@[j]).rule(),
                                    items@[j].dot(),
                                ),
                            forall|i: int|
                                0 <= i < c.items@.len() ==> (seq_has_key(
                                    queue@,
                                    (#[trigger] c.items@[i]).rule(),
                                    c.items@[i].dot(),
                                ) || c.closed_at(*g, c.items@[i].rule(), c.items@[i].dot()) || (
                                c.items@[i].rule() == it.rule() && c.items@[i].dot() == it.dot())),
                            forall|r2: int|
                                0 <= r2 < r && (#[trigger] g.prods@[r2].lhs) == x ==> c.has(r2, 0),
                            forall|i: int|
                                0 <= i < c.items@.len() ==> (seq_has_key(
                                    items@,
                                    (#[trigger] c.items@[i]).rule(),
                                    c.items@[i].dot(),
                                ) || c.items@[i].dot() == 0),
                            c.has(it.rule(), it.dot()),
                            forall|qi: int|
                                0 <= qi < queue@.len() ==> c.has(
                                    (#[trigger] queue@[qi]).rule(),
                                    queue@[qi].dot(),
                                ),
                            forall|c2: LR0Closure|
                                c2.closed(*g) && has_seed_keys(c2, items@)
                                    ==> #[trigger] keys_subset(c, c2),
                        decreases g.prods@.len() - r,
                    {
                        if g.prods[r].lhs == x {
                            let nit = Item::at_start(g, r);
                            let ghost c_prev = c;
                            let ghost q_prev = queue@;
                            let added = c.insert(&nit, g);
                            if added {
                                proof {
                                    lemma_seq_has_key_push(q_prev, nit);
                                    lemma_closure_len_bound(c.items@, *g);
                                }
                                queue.push(nit);
                            }
                            proof {
                                assert forall|r2: int|
                                    0 <= r2 < r + 1 && (#[trigger] g.prods@[r2].lhs)
                                        == x implies c.has(r2, 0) by {
                                    if r2 < r {
                                        assert(c_prev.has(r2, 0));
                                    } else {
                                        assert(c.has(nit.rule(), nit.dot()));
                                    }
                                };
                                assert forall|i: int| 0 <= i < c.items@.len() implies (seq_has_key(
                                    queue@,
                                    (#[trigger] c.items@[i]).rule(),
                                    c.items@[i].dot(),
                                ) || c.closed_at(*g, c.items@[i].rule(), c.items@[i].dot()) || (
                                c.items@[i].rule() == it.rule() && c.items@[i].dot()
                                    == it.dot())) by {
                                    let ri = c.items@[i].rule();
                                    let di = c.items@[i].dot();
                                    assert(c.has(ri, di));
                                    if c_prev.has(ri, di) {
                                        let k = choose|k: int|
                                            0 <= k < c_prev.items@.len() && (
                                            #[trigger] c_prev.items@[k]).rule() == ri
                                                && c_prev.items@[k].dot() == di;
                                        if seq_has_key(q_prev, ri, di) {
                                            if added {
                                                let m = choose|m: int|
                                                    0 <= m < q_prev.len() && (
                                                    #[trigger] q_prev[m]).rule() == ri
                                                        && q_prev[m].dot() == di;
                                                assert(queue@[m] == q_prev[m]);
                                                assert(seq_has_key(queue@, ri, di));
                                            }
                                        } else if c_prev.closed_at(*g, ri, di) {
                                            assert(c.closed_at(*g, ri, di)) by {
                                                if 0 <= ri < g.prods@.len() && di
                                                    < g.prods@[ri].rhs@.len()
                                                    && g.spec_is_nonterminal(
                                                    g.prods@[ri].rhs@[di],
                                                ) {
                                                    assert forall|r2: int|
                                                        0 <= r2 < g.prods@.len() && (
                                                        #[trigger] g.prods@[r2].lhs)
                                                            == g.prods@[ri].rhs@[di] implies c.has(
                                                        r2,
                                                        0,
                                                    ) by {
                                                        assert(c_prev.has(r2, 0));
                                                    };
                                                }
                                            };
                                        }
                                    } else {
                                        assert(ri == nit.rule() && di == nit.dot());
                                        if added {
                                            assert(seq_has_key(queue@, ri, di));
                                        } else {
                                            assert(false);
                                        }
                                    }
                                };
                                assert forall|i: int| 0 <= i < c.items@.len() implies (seq_has_key(
                                    items@,
                                    (#[trigger] c.items@[i]).rule(),
                                    c.items@[i].dot(),
                                ) || c.items@[i].dot() == 0) by {
                                    let ri = c.items@[i].rule();
                                    let di = c.items@[i].dot();
                                    assert(c.has(ri, di));
                                    if c_prev.has(ri, di) {
                                        let k = choose|k: int|
                                            0 <= k < c_prev.items@.len() && (
                                            #[trigger] c_prev.items@[k]).rule() == ri
                                                && c_prev.items@[k].dot() == di;
                                    } else {
                                        assert(di == nit.dot());
                                    }
                                };
                                assert forall|qi: int| 0 <= qi < queue@.len() implies c.has(
                                    (#[trigger] queue@[qi]).rule(),
                                    queue@[qi].dot(),
                                ) by {
                                    if qi < q_prev.len() {
                                        assert(queue@[qi] == q_prev[qi]);
                                        assert(c_prev.has(queue@[qi].rule(), queue@[qi].dot()));
                                    } else {
                                        assert(c.has(nit.rule(), nit.dot()));
                                    }
                                };
                                // predicted keys stay within every closed
                                // superset of the seeds: the popped item's
                                // key is there, and closedness adds this one
                                assert forall|c2: LR0Closure|
                                    c2.closed(*g) && has_seed_keys(
                                    c2,
                                    items@,
                                ) implies #[trigger] keys_subset(c, c2) by {
                                    assert(keys_subset(c_prev, c2));
                                    assert forall|r3: int, d3: int| #[trigger] c.has(
                                        r3,
                                        d3,
                                    ) implies c2.has(r3, d3) by {
                                        if !c_prev.has(r3, d3) {
                                            assert(r3 == nit.rule() && d3 == nit.dot());
                                            assert(c_prev.has(it.rule(), it.dot()));
                                            assert(c2.has(it.rule(), it.dot()));
                                            let ci = choose|ci: int|
                                                0 <= ci < c2.items@.len() && (
                                                #[trigger] c2.items@[ci]).rule() == it.rule()
                                                    && c2.items@[ci].dot() == it.dot();
                                            assert(c2.closed_at(*g, it.rule(), it.dot()));
                                            assert(g.prods@[it.rule()].rhs@[it.dot()] == x);
                                            assert(c2.has(r3, 0));
                                        }
                                    };
                                };
                            }
                        }
                        r += 1;
                    }
                    proof {
                        assert(c.closed_at(*g, it.rule(), it.dot())) by {
                            assert(g.prods@[it.rule()].rhs@[it.dot()] == x);
                        };
                    }
                } else {
                    proof {
                        assert(c.closed_at(*g, it.rule(), it.dot())) by {
                            assert(g.prods@[it.rule()].rhs@[it.dot()] == x);
                            assert(!g.spec_is_nonterminal(x));
                        };
                    }
                }
            } else {
                proof {
                    assert(c.closed_at(*g, it.rule(), it.dot())) by {
                        assert(it.dot() >= g.prods@[it.rule()].rhs@.len());
                    };
                }
            }
            proof {
                // the popped key is closed now: collapse the weak invariant
                assert forall|i: int| 0 <= i < c.items@.len() implies (seq_has_key(
                    queue@,
                    (#[trigger] c.items@[i]).rule(),
                    c.items@[i].dot(),
                ) || c.closed_at(*g, c.items@[i].rule(), c.items@[i].dot())) by {
                    let ri = c.items@[i].rule();
                    let di = c.items@[i].dot();
                    if ri == it.rule() && di == it.dot() {
                        assert(c.closed_at(*g, ri, di));
                    }
                };
            }
        }
        proof {
            assert forall|i: int| 0 <= i < c.items@.len() implies c.closed_at(
                *g,
                (#[trigger] c.items@[i]).rule(),
                c.items@[i].dot(),
            ) by {
                assert(!seq_has_key(queue@, c.items@[i].rule(), c.items@[i].dot()));
            };
        }
        c
    }
}

} // verus!
