//! FIRST sets: for every symbol, the terminals that can begin one of its
//! derivations, with a flag for the empty derivation. FIRST of a symbol
//! sequence is read off these per-symbol sets.
//!
//! The computation iterates over all productions until a full pass changes
//! nothing; the result is a post-fixed point, which is exactly the FIRST
//! soundness property `FIRST(rhs) ⊆ FIRST(lhs)` for every production.

use vstd::prelude::*;
use crate::Sym;
use crate::grammar::Grammar;
use crate::symset::{SymSet, sum_of, lemma_sum_update, lemma_sum_bound, lemma_sum_nonneg};

verus! {

/// A FIRST set: a set of terminals, and whether ε belongs to it.
pub struct FirstSet {
    pub terms: SymSet,
    pub eps: bool,
}

impl FirstSet {
    /// Terminal elements only, canonically sorted.
    pub open spec fn wf(&self, g: Grammar) -> bool {
        &&& self.terms.wf()
        &&& self.terms.below(g.eof + 1)
    }

    /// Number of facts the set holds; the fixed point's progress measure.
    pub open spec fn size(&self) -> int {
        self.terms.size() + if self.eps {
            1int
        } else {
            0int
        }
    }

    pub fn empty() -> (f: FirstSet)
        ensures
            f.terms.seq() == Seq::<usize>::empty(),
            !f.eps,
            forall|x: Sym| !f.terms.has(x),
    {
        FirstSet { terms: SymSet::new(), eps: false }
    }

    pub fn duplicate(&self) -> (f: FirstSet)
        ensures
            f.terms.seq() == self.terms.seq(),
            f.eps == self.eps,
    {
        FirstSet { terms: self.terms.duplicate(), eps: self.eps }
    }
}

/// The FIRST table: one [`FirstSet`] per symbol id.
pub struct FirstTable {
    pub sets: Vec<FirstSet>,
}

impl FirstTable {
    /// Layout and the fixed contents of the terminal entries:
    /// `FIRST(a) = {a}` for every terminal `a`, without ε.
    pub open spec fn wf(&self, g: Grammar) -> bool {
        &&& self.sets@.len() == g.n_symbols
        &&& forall|s: int| 0 <= s < self.sets@.len() ==> (#[trigger] self.sets@[s]).wf(g)
        &&& forall|a: int|
            0 <= a <= g.eof ==> !(#[trigger] self.sets@[a]).eps && (forall|x: Sym|
                self.sets@[a].terms.has(x) <==> x == a)
    }

    /// Sizes of all entries; their sum is the progress measure.
    pub open spec fn sizes(&self) -> Seq<int> {
        Seq::new(self.sets@.len(), |i: int| self.sets@[i].size())
    }

    pub open spec fn total(&self) -> int {
        sum_of(self.sizes())
    }
}

/// `x` is in FIRST of the symbol sequence `w`, as read from the table:
/// the first symbol contributes its terminals, and each further symbol
/// contributes only while every earlier one admits ε.
pub open spec fn seq_first_has(ft: FirstTable, w: Seq<Sym>, x: Sym) -> bool
    decreases w.len(),
{
    if w.len() == 0 {
        false
    } else {
        ft.sets@[w[0] as int].terms.has(x) || (ft.sets@[w[0] as int].eps && seq_first_has(
            ft,
            w.drop_first(),
            x,
        ))
    }
}

/// ε is in FIRST of `w`: every symbol of `w` admits ε.
pub open spec fn seq_first_eps(ft: FirstTable, w: Seq<Sym>) -> bool
    decreases w.len(),
{
    if w.len() == 0 {
        true
    } else {
        ft.sets@[w[0] as int].eps && seq_first_eps(ft, w.drop_first())
    }
}

/// The FIRST soundness property at production `r`:
/// `FIRST(rhs) ⊆ FIRST(lhs)`, including the ε flag.
pub open spec fn prod_first_entailed(g: Grammar, ft: FirstTable, r: int) -> bool {
    let lhs = g.prods@[r].lhs as int;
    let rhs = g.prods@[r].rhs@;
    &&& forall|x: Sym| #[trigger] seq_first_has(ft, rhs, x) ==> ft.sets@[lhs].terms.has(x)
    &&& (seq_first_eps(ft, rhs) ==> ft.sets@[lhs].eps)
}

/// Pointwise order on FIRST tables: every fact of `a` is a fact of `b`.
pub open spec fn first_below(a: FirstTable, b: FirstTable) -> bool {
    &&& a.sets@.len() == b.sets@.len()
    &&& forall|s: int, x: Sym|
        0 <= s < a.sets@.len() && (#[trigger] a.sets@[s].terms.has(x)) ==> b.sets@[s].terms.has(x)
    &&& forall|s: int|
        0 <= s < a.sets@.len() && (#[trigger] a.sets@[s]).eps ==> b.sets@[s].eps
}

/// FIRST over a sequence is monotone in the table.
proof fn lemma_seq_first_mono(a: FirstTable, b: FirstTable, w: Seq<Sym>)
    requires
        first_below(a, b),
        forall|i: int| 0 <= i < w.len() ==> 0 <= (#[trigger] w[i]) < a.sets@.len(),
    ensures
        forall|x: Sym| #[trigger] seq_first_has(a, w, x) ==> seq_first_has(b, w, x),
        seq_first_eps(a, w) ==> seq_first_eps(b, w),
    decreases w.len(),
{
    if w.len() > 0 {
        lemma_seq_first_mono(a, b, w.drop_first());
        assert forall|x: Sym| #[trigger] seq_first_has(a, w, x) implies seq_first_has(
            b,
            w,
            x,
        ) by {
            assert(0 <= w[0] < a.sets@.len());
            if a.sets@[w[0] as int].terms.has(x) {
                assert(b.sets@[w[0] as int].terms.has(x));
            } else {
                assert(a.sets@[w[0] as int].eps && seq_first_has(a, w.drop_first(), x));
                assert(b.sets@[w[0] as int].eps);
            }
        };
    }
}

/// FIRST of the suffix `v[from..]`, read from the table.
pub fn first_of_seq(ft: &FirstTable, v: &Vec<Sym>, from: usize, g: &Grammar) -> (f: FirstSet)
    requires
        g.wf(),
        ft.wf(*g),
        from <= v@.len(),
        forall|i: int| 0 <= i < v@.len() ==> (#[trigger] v@[i]) < g.n_symbols,
    ensures
        f.wf(*g),
        forall|x: Sym| #[trigger] f.terms.has(x) <==> seq_first_has(*ft, v@.skip(from as int), x),
        f.eps == seq_first_eps(*ft, v@.skip(from as int)),
    decreases v@.len() - from,
{
    let ghost w = v@.skip(from as int);
    if from == v.len() {
        proof {
            assert(w.len() == 0);
        }
        let mut f = FirstSet::empty();
        f.eps = true;
        f
    } else {
        let s = v[from];
        proof {
            assert(v@[from as int] < g.n_symbols);
            assert(w[0] == v@[from as int]);
            assert(w.drop_first() =~= v@.skip(from as int + 1));
        }
        let entry = &ft.sets[s];
        if entry.eps {
            let rest = first_of_seq(ft, v, from + 1, g);
            let mut acc = entry.duplicate();
            acc.terms.union_into(&rest.terms);
            let f = FirstSet { terms: acc.terms, eps: rest.eps };
            proof {
                assert forall|x: Sym| #[trigger] f.terms.has(x) <==> seq_first_has(*ft, w, x) by {
                    assert(seq_first_has(*ft, w, x) == (ft.sets@[w[0] as int].terms.has(x) || (
                    ft.sets@[w[0] as int].eps && seq_first_has(*ft, w.drop_first(), x))));
                    assert(rest.terms.has(x) <==> seq_first_has(*ft, v@.skip(from as int + 1), x));
                    assert(f.terms.has(x) <==> (entry.terms.has(x) || rest.terms.has(x)));
                };
            }
            f
        } else {
            let f = entry.duplicate();
            proof {
                assert forall|x: Sym| #[trigger] f.terms.has(x) <==> seq_first_has(*ft, w, x) by {
                    assert(seq_first_has(*ft, w, x) == (ft.sets@[w[0] as int].terms.has(x) || (
                    ft.sets@[w[0] as int].eps && seq_first_has(*ft, w.drop_first(), x))));
                    assert(f.terms.has(x) <==> entry.terms.has(x));
                };
            }
            FirstSet { terms: f.terms, eps: false }
        }
    }
}

/// Replace entry `i` of the table, returning the old entry.
fn swap_entry(ft: &mut FirstTable, i: usize, e: FirstSet) -> (o: FirstSet)
    requires
        i < old(ft).sets@.len(),
    ensures
        o == old(ft).sets@[i as int],
        final(ft).sets@ == old(ft).sets@.update(i as int, e),
{
    let o = ft.sets.remove(i);
    ft.sets.insert(i, e);
    proof {
        assert(ft.sets@ =~= old(ft).sets@.update(i as int, e));
    }
    o
}

/// One pass over all productions: fold `FIRST(rhs)` into `FIRST(lhs)`.
/// Reports whether anything grew; when nothing did, the table is unchanged
/// and every production is entailed: the table is a post-fixed point.
fn first_pass(g: &Grammar, ft: &mut FirstTable) -> (changed: bool)
    requires
        g.wf(),
        old(ft).wf(*g),
    ensures
        final(ft).wf(*g),
        final(ft).total() >= old(ft).total(),
        changed ==> final(ft).total() > old(ft).total(),
        !changed ==> *final(ft) == *old(ft),
        !changed ==> forall|r: int|
            0 <= r < g.prods@.len() ==> #[trigger] prod_first_entailed(*g, *final(ft), r),
        forall|ft2: FirstTable|
            ft2.wf(*g) && (forall|r: int|
                0 <= r < g.prods@.len() ==> #[trigger] prod_first_entailed(*g, ft2, r))
                && first_below(*old(ft), ft2) ==> #[trigger] first_below(*final(ft), ft2),
{
    let ghost ft0 = *ft;
    let mut changed = false;
    let mut r: usize = 0;
    while r < g.prods.len()
        invariant
            g.wf(),
            ft.wf(*g),
            r <= g.prods@.len(),
            ft.total() >= ft0.total(),
            changed ==> ft.total() > ft0.total(),
            !changed ==> *ft == ft0,
            !changed ==> forall|r2: int|
                0 <= r2 < r ==> #[trigger] prod_first_entailed(*g, *ft, r2),
            forall|ft2: FirstTable|
                ft2.wf(*g) && (forall|r2: int|
                    0 <= r2 < g.prods@.len() ==> #[trigger] prod_first_entailed(*g, ft2, r2))
                    && first_below(ft0, ft2) ==> #[trigger] first_below(*ft, ft2),
        decreases g.prods@.len() - r,
    {
        let lhs = g.prods[r].lhs;
        proof {
            assert(g.prod_wf(r as int));
            assert(g.spec_is_nonterminal(g.prods@[r as int].lhs));
        }
        let f = first_of_seq(ft, &g.prods[r].rhs, 0, g);
        proof {
            assert(g.prods@[r as int].rhs@.skip(0) =~= g.prods@[r as int].rhs@);
        }
        let mut entry = ft.sets[lhs].duplicate();
        let ghost old_entry = ft.sets@[lhs as int];
        let added = entry.terms.union_into(&f.terms);
        let grew_eps = f.eps && !entry.eps;
        if grew_eps {
            entry.eps = true;
        }
        let ghost new_entry = entry;
        if added > 0 || grew_eps {
            let ghost ft_prev = *ft;
            let _ = swap_entry(ft, lhs, entry);
            changed = true;
            proof {
                let li = lhs as int;
                assert(ft.sizes() =~= ft_prev.sizes().update(li, new_entry.size()));
                lemma_sum_update(ft_prev.sizes(), li, new_entry.size());
                assert(new_entry.size() > old_entry.size());
                assert forall|s: int| 0 <= s < ft.sets@.len() implies (#[trigger] ft.sets@[s]).wf(
                    *g,
                ) by {
                    if s != li {
                        assert(ft.sets@[s] == ft_prev.sets@[s]);
                    }
                };
                assert forall|a: int| 0 <= a <= g.eof implies !(#[trigger] ft.sets@[a]).eps && (
                forall|x: Sym| ft.sets@[a].terms.has(x) <==> x == a) by {
                    assert(ft.sets@[a] == ft_prev.sets@[a]);
                };
                // everything added is FIRST(rhs) under the current table, so
                // any post-fixed point above the start holds it too
                assert forall|ft2: FirstTable|
                    ft2.wf(*g) && (forall|r2: int|
                        0 <= r2 < g.prods@.len() ==> #[trigger] prod_first_entailed(*g, ft2, r2))
                        && first_below(ft0, ft2) implies #[trigger] first_below(*ft, ft2) by {
                    assert(first_below(ft_prev, ft2));
                    lemma_seq_first_mono(ft_prev, ft2, g.prods@[r as int].rhs@);
                    assert(prod_first_entailed(*g, ft2, r as int));
                    let li = lhs as int;
                    assert forall|s: int, x: Sym|
                        0 <= s < ft.sets@.len() && (#[trigger] ft.sets@[s].terms.has(
                        x,
                    )) implies ft2.sets@[s].terms.has(x) by {
                        if s == li && !ft_prev.sets@[s].terms.has(x) {
                            assert(f.terms.has(x));
                            assert(seq_first_has(ft_prev, g.prods@[r as int].rhs@, x));
                            assert(seq_first_has(ft2, g.prods@[r as int].rhs@, x));
                        } else if s != li {
                            assert(ft.sets@[s] == ft_prev.sets@[s]);
                        }
                    };
                    assert forall|s: int|
                        0 <= s < ft.sets@.len() && (#[trigger] ft.sets@[s]).eps implies ft2.sets@[
                        s].eps by {
                        if s == li && !ft_prev.sets@[s].eps {
                            assert(f.eps);
                            assert(seq_first_eps(ft_prev, g.prods@[r as int].rhs@));
                            assert(seq_first_eps(ft2, g.prods@[r as int].rhs@));
                        } else if s != li {
                            assert(ft.sets@[s] == ft_prev.sets@[s]);
                        }
                    };
                };
            }
        } else {
            proof {
                // nothing grew: the production is entailed by the current table
                if !changed {
                    assert forall|r2: int| 0 <= r2 < r + 1 implies #[trigger] prod_first_entailed(
                        *g,
                        *ft,
                        r2,
                    ) by {
                        if r2 == r {
                            assert(new_entry.terms.seq() == old_entry.terms.seq());
                            assert forall|x: Sym| #[trigger] seq_first_has(
                                *ft,
                                g.prods@[r2].rhs@,
                                x,
                            ) implies ft.sets@[g.prods@[r2].lhs as int].terms.has(x) by {
                                assert(f.terms.has(x));
                                assert(new_entry.terms.has(x));
                            };
                        }
                    };
                }
            }
        }
        r += 1;
    }
    changed
}

/// FIRST for every symbol of the grammar.
///
/// Terminals get `FIRST(a) = {a}`; non-terminal sets are grown by passes
/// over the productions until a pass changes nothing. The result is a
/// post-fixed point: `FIRST(rhs) ⊆ FIRST(lhs)` holds of every production,
/// the FIRST half of the FIRST/FOLLOW soundness property.
pub fn compute_first_sets(g: &Grammar) -> (ft: FirstTable)
    requires
        g.wf(),
    ensures
        ft.wf(*g),
        forall|r: int|
            0 <= r < g.prods@.len() ==> #[trigger] prod_first_entailed(*g, ft, r),
        forall|ft2: FirstTable|
            ft2.wf(*g) && (forall|r: int|
                0 <= r < g.prods@.len() ==> #[trigger] prod_first_entailed(*g, ft2, r))
                ==> #[trigger] first_below(ft, ft2),
{
    let mut sets: Vec<FirstSet> = Vec::new();
    let mut s: usize = 0;
    while s < g.n_symbols
        invariant
            g.wf(),
            s <= g.n_symbols,
            sets@.len() == s,
            forall|i: int| 0 <= i < s ==> (#[trigger] sets@[i]).wf(*g),
            forall|a: int|
                0 <= a <= g.eof && a < s ==> !(#[trigger] sets@[a]).eps && (forall|x: Sym|
                    sets@[a].terms.has(x) <==> x == a),
            forall|a: int|
                g.eof < a < s ==> !(#[trigger] sets@[a]).eps && (forall|x: Sym|
                    !sets@[a].terms.has(x)),
        decreases g.n_symbols - s,
    {
        let mut f = FirstSet::empty();
        if s <= g.eof {
            f.terms.insert(s);
        }
        sets.push(f);
        s += 1;
    }
    let mut ft = FirstTable { sets };
    proof {
        lemma_sum_nonneg(ft.sizes());
        // the starting table sits below every well-formed post-fixed point:
        // terminal rows agree exactly, non-terminal rows start empty
        assert forall|ft2: FirstTable|
            ft2.wf(*g) && (forall|r: int|
                0 <= r < g.prods@.len() ==> #[trigger] prod_first_entailed(*g, ft2, r))
                implies #[trigger] first_below(ft, ft2) by {
            assert forall|s: int, x: Sym|
                0 <= s < ft.sets@.len() && (#[trigger] ft.sets@[s].terms.has(x)) implies ft2.sets@[
                s].terms.has(x) by {
                if s <= g.eof {
                    assert(x == s);
                } else {
                    assert(!ft.sets@[s].terms.has(x));
                }
            };
        };
    }
    loop
        invariant
            g.wf(),
            ft.wf(*g),
            forall|ft2: FirstTable|
                ft2.wf(*g) && (forall|r: int|
                    0 <= r < g.prods@.len() ==> #[trigger] prod_first_entailed(*g, ft2, r))
                    ==> #[trigger] first_below(ft, ft2),
        ensures
            ft.wf(*g),
            forall|r: int|
                0 <= r < g.prods@.len() ==> #[trigger] prod_first_entailed(*g, ft, r),
            forall|ft2: FirstTable|
                ft2.wf(*g) && (forall|r: int|
                    0 <= r < g.prods@.len() ==> #[trigger] prod_first_entailed(*g, ft2, r))
                    ==> #[trigger] first_below(ft, ft2),
        decreases (g.n_symbols as int) * (g.eof + 2) - ft.total(),
    {
        proof {
            assert forall|i: int| 0 <= i < ft.sizes().len() implies 0 <= #[trigger] ft.sizes()[i]
                <= g.eof + 2 by {
                assert(ft.sets@[i].wf(*g));
                ft.sets@[i].terms.lemma_len_bound((g.eof + 1) as usize);
            };
            lemma_sum_bound(ft.sizes(), g.eof + 2);
            lemma_sum_nonneg(ft.sizes());
        }
        let changed = first_pass(g, &mut ft);
        proof {
            assert forall|i: int| 0 <= i < ft.sizes().len() implies 0 <= #[trigger] ft.sizes()[i]
                <= g.eof + 2 by {
                assert(ft.sets@[i].wf(*g));
                ft.sets@[i].terms.lemma_len_bound((g.eof + 1) as usize);
            };
            lemma_sum_bound(ft.sizes(), g.eof + 2);
            lemma_sum_nonneg(ft.sizes());
        }
        if !changed {
            break;
        }
    }
    ft
}

} // verus!
