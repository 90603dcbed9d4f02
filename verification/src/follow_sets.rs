//! FOLLOW sets: for every non-terminal, the terminals that can immediately
//! follow it in a sentential form. The end sentinel reaches the start
//! symbol's FOLLOW set through the augmented production, whose right-hand
//! side ends in `⊥`.
//!
//! As with FIRST, passes run until nothing changes; the result is a
//! post-fixed point, which is the FOLLOW half of the soundness property:
//! for `A -> α B β`, `FIRST(β) \ {ε} ⊆ FOLLOW(B)`, and if `β ⇒* ε` then
//! `FOLLOW(A) ⊆ FOLLOW(B)`.

use vstd::prelude::*;
use crate::Sym;
use crate::grammar::Grammar;
use crate::symset::{SymSet, sum_of, lemma_sum_update, lemma_sum_bound, lemma_sum_nonneg};
use crate::first_sets::{FirstTable, seq_first_has, seq_first_eps, first_of_seq};

verus! {

/// The FOLLOW table: one set of terminals per symbol id; only the
/// non-terminal entries are ever populated.
pub struct FollowTable {
    pub sets: Vec<SymSet>,
}

impl FollowTable {
    pub open spec fn wf(&self, g: Grammar) -> bool {
        &&& self.sets@.len() == g.n_symbols
        &&& forall|s: int|
            0 <= s < self.sets@.len() ==> (#[trigger] self.sets@[s]).wf() && self.sets@[s].below(
                g.eof + 1,
            )
    }

    pub open spec fn sizes(&self) -> Seq<int> {
        Seq::new(self.sets@.len(), |i: int| self.sets@[i].size())
    }

    pub open spec fn total(&self) -> int {
        sum_of(self.sizes())
    }
}

/// FOLLOW soundness at production `r`, rhs position `i`: with
/// `rhs = α B β` and `B = rhs[i]` a non-terminal,
/// `FIRST(β) \ {ε} ⊆ FOLLOW(B)`, and if `ε ∈ FIRST(β)` then
/// `FOLLOW(lhs) ⊆ FOLLOW(B)`.
pub open spec fn prod_follow_entailed(
    g: Grammar,
    ft: FirstTable,
    fo: FollowTable,
    r: int,
    i: int,
) -> bool {
    let rhs = g.prods@[r].rhs@;
    let b = rhs[i] as int;
    g.spec_is_nonterminal(rhs[i]) ==> {
        &&& forall|x: Sym|
            #[trigger] seq_first_has(ft, rhs.skip(i + 1), x) ==> fo.sets@[b].has(x)
        &&& (seq_first_eps(ft, rhs.skip(i + 1)) ==> forall|x: Sym|
            #[trigger] fo.sets@[g.prods@[r].lhs as int].has(x) ==> fo.sets@[b].has(x))
    }
}

/// Pointwise order on FOLLOW tables: every fact of `a` is a fact of `b`.
pub open spec fn follow_below(a: FollowTable, b: FollowTable) -> bool {
    &&& a.sets@.len() == b.sets@.len()
    &&& forall|s: int, x: crate::Sym|
        0 <= s < a.sets@.len() && (#[trigger] a.sets@[s].has(x)) ==> b.sets@[s].has(x)
}

/// Replace entry `i` of the table, returning the old entry.
fn swap_entry(fo: &mut FollowTable, i: usize, e: SymSet) -> (o: SymSet)
    requires
        i < old(fo).sets@.len(),
    ensures
        o == old(fo).sets@[i as int],
        final(fo).sets@ == old(fo).sets@.update(i as int, e),
{
    let o = fo.sets.remove(i);
    fo.sets.insert(i, e);
    proof {
        assert(fo.sets@ =~= old(fo).sets@.update(i as int, e));
    }
    o
}

/// One pass over every rhs position of every production.
fn follow_pass(g: &Grammar, ft: &FirstTable, fo: &mut FollowTable) -> (changed: bool)
    requires
        g.wf(),
        ft.wf(*g),
        old(fo).wf(*g),
    ensures
        final(fo).wf(*g),
        final(fo).total() >= old(fo).total(),
        changed ==> final(fo).total() > old(fo).total(),
        !changed ==> *final(fo) == *old(fo),
        !changed ==> forall|r: int, i: int|
            0 <= r < g.prods@.len() && 0 <= i < g.prods@[r].rhs@.len()
                ==> #[trigger] prod_follow_entailed(*g, *ft, *final(fo), r, i),
        forall|fo2: FollowTable|
            fo2.wf(*g) && (forall|r: int, i: int|
                0 <= r < g.prods@.len() && 0 <= i < g.prods@[r].rhs@.len()
                    ==> #[trigger] prod_follow_entailed(*g, *ft, fo2, r, i)) && follow_below(
                *old(fo),
                fo2,
            ) ==> #[trigger] follow_below(*final(fo), fo2),
{
    let ghost fo0 = *fo;
    let mut changed = false;
    let mut r: usize = 0;
    while r < g.prods.len()
        invariant
            g.wf(),
            ft.wf(*g),
            fo.wf(*g),
            r <= g.prods@.len(),
            fo.total() >= fo0.total(),
            changed ==> fo.total() > fo0.total(),
            !changed ==> *fo == fo0,
            !changed ==> forall|r2: int, i2: int|
                0 <= r2 < r && 0 <= i2 < g.prods@[r2].rhs@.len()
                    ==> #[trigger] prod_follow_entailed(*g, *ft, *fo, r2, i2),
            forall|fo2: FollowTable|
                fo2.wf(*g) && (forall|r2: int, i2: int|
                    0 <= r2 < g.prods@.len() && 0 <= i2 < g.prods@[r2].rhs@.len()
                        ==> #[trigger] prod_follow_entailed(*g, *ft, fo2, r2, i2))
                    && follow_below(fo0, fo2) ==> #[trigger] follow_below(*fo, fo2),
        decreases g.prods@.len() - r,
    {
        proof {
            assert(g.prod_wf(r as int));
        }
        let lhs = g.prods[r].lhs;
        let rhs_len = g.prods[r].rhs.len();
        let mut i: usize = 0;
        while i < rhs_len
            invariant
                g.wf(),
                ft.wf(*g),
                fo.wf(*g),
                r < g.prods@.len(),
                lhs == g.prods@[r as int].lhs,
                rhs_len == g.prods@[r as int].rhs@.len(),
                i <= rhs_len,
                fo.total() >= fo0.total(),
                changed ==> fo.total() > fo0.total(),
                !changed ==> *fo == fo0,
                !changed ==> forall|r2: int, i2: int|
                    0 <= r2 < r && 0 <= i2 < g.prods@[r2].rhs@.len()
                        ==> #[trigger] prod_follow_entailed(*g, *ft, *fo, r2, i2),
                !changed ==> forall|i2: int|
                    0 <= i2 < i ==> #[trigger] prod_follow_entailed(*g, *ft, *fo, r as int, i2),
                forall|fo2: FollowTable|
                    fo2.wf(*g) && (forall|r2: int, i2: int|
                        0 <= r2 < g.prods@.len() && 0 <= i2 < g.prods@[r2].rhs@.len()
                            ==> #[trigger] prod_follow_entailed(*g, *ft, fo2, r2, i2))
                        && follow_below(fo0, fo2) ==> #[trigger] follow_below(*fo, fo2),
            decreases rhs_len - i,
        {
            let b = g.prods[r].rhs[i];
            proof {
                assert(g.prod_wf(r as int));
                assert(g.prods@[r as int].rhs@[i as int] < g.n_symbols);
            }
            if g.is_nonterminal(b) {
                let f = first_of_seq(ft, &g.prods[r].rhs, i + 1, g);
                let lhs_dup = fo.sets[lhs].duplicate();
                let ghost old_entry = fo.sets@[b as int];
                let mut e = fo.sets[b].duplicate();
                let len0 = e.len();
                let _ = e.union_into(&f.terms);
                if f.eps && lhs != b {
                    let _ = e.union_into(&lhs_dup);
                }
                let grew = e.len() - len0;
                if grew > 0 {
                    let ghost fo_prev = *fo;
                    let ghost new_entry = e;
                    let _ = swap_entry(fo, b, e);
                    changed = true;
                    proof {
                        assert(fo.sizes() =~= fo_prev.sizes().update(b as int, new_entry.size()));
                        lemma_sum_update(fo_prev.sizes(), b as int, new_entry.size());
                        assert(new_entry.size() > old_entry.size());
                        assert forall|s: int| 0 <= s < fo.sets@.len() implies (
                        #[trigger] fo.sets@[s]).wf() && fo.sets@[s].below(g.eof + 1) by {
                            if s != b as int {
                                assert(fo.sets@[s] == fo_prev.sets@[s]);
                            } else {
                                assert(old_entry.below(g.eof + 1));
                                assert(f.terms.below(g.eof + 1));
                                assert(lhs_dup.below(g.eof + 1));
                            }
                        };
                        // everything added is demanded of any post-fixed
                        // point above the start, at this rhs position
                        assert forall|fo2: FollowTable|
                            fo2.wf(*g) && (forall|r2: int, i2: int|
                                0 <= r2 < g.prods@.len() && 0 <= i2 < g.prods@[r2].rhs@.len()
                                    ==> #[trigger] prod_follow_entailed(*g, *ft, fo2, r2, i2))
                                && follow_below(fo0, fo2) implies #[trigger] follow_below(
                            *fo,
                            fo2,
                        ) by {
                            assert(follow_below(fo_prev, fo2));
                            assert(prod_follow_entailed(*g, *ft, fo2, r as int, i as int));
                            let bi = b as int;
                            assert(g.prods@[r as int].rhs@.skip(i as int + 1)
                                =~= g.prods@[r as int].rhs@.skip(i + 1));
                            assert forall|s: int, x: crate::Sym|
                                0 <= s < fo.sets@.len() && (#[trigger] fo.sets@[s].has(
                                x,
                            )) implies fo2.sets@[s].has(x) by {
                                if s == bi && !fo_prev.sets@[s].has(x) {
                                    assert(new_entry.has(x));
                                    if f.terms.has(x) {
                                        assert(seq_first_has(
                                            *ft,
                                            g.prods@[r as int].rhs@.skip(i as int + 1),
                                            x,
                                        ));
                                        assert(fo2.sets@[bi].has(x));
                                    } else {
                                        assert(lhs_dup.has(x));
                                        assert(f.eps && lhs != b);
                                        assert(fo_prev.sets@[lhs as int].has(x));
                                        assert(fo2.sets@[lhs as int].has(x));
                                        assert(seq_first_eps(
                                            *ft,
                                            g.prods@[r as int].rhs@.skip(i as int + 1),
                                        ));
                                        assert(fo2.sets@[bi].has(x));
                                    }
                                } else if s != bi {
                                    assert(fo.sets@[s] == fo_prev.sets@[s]);
                                }
                            };
                        };
                    }
                } else {
                    proof {
                        assert(e.seq() == old_entry.seq());
                        if !changed {
                            let ghost ri = r as int;
                            let ghost ii = i as int;
                            assert forall|i2: int|
                                0 <= i2 < ii + 1 implies #[trigger] prod_follow_entailed(
                                *g,
                                *ft,
                                *fo,
                                ri,
                                i2,
                            ) by {
                                if i2 == ii {
                                    let rhs = g.prods@[ri].rhs@;
                                    let bi = rhs[ii] as int;
                                    assert(rhs.skip(ii + 1) =~= g.prods@[ri].rhs@.skip(ii + 1));
                                    assert forall|x: Sym| #[trigger] seq_first_has(
                                        *ft,
                                        rhs.skip(ii + 1),
                                        x,
                                    ) implies fo.sets@[bi].has(x) by {
                                        assert(f.terms.has(x));
                                        assert(e.has(x));
                                        assert(old_entry.has(x));
                                    };
                                    if seq_first_eps(*ft, rhs.skip(ii + 1)) {
                                        assert(f.eps);
                                        assert forall|x: Sym|
                                            #[trigger] fo.sets@[g.prods@[ri].lhs as int].has(
                                            x,
                                        ) implies fo.sets@[bi].has(x) by {
                                            if lhs == b {
                                            } else {
                                                assert(lhs_dup.seq() == fo.sets@[lhs as int].seq());
                                                assert(lhs_dup.has(x));
                                                assert(e.has(x));
                                            }
                                        };
                                    }
                                }
                            };
                        }
                    }
                }
            } else {
                proof {
                    if !changed {
                        assert forall|i2: int|
                            0 <= i2 < i + 1 implies #[trigger] prod_follow_entailed(
                            *g,
                            *ft,
                            *fo,
                            r as int,
                            i2,
                        ) by {
                            if i2 == i {
                                assert(!g.spec_is_nonterminal(g.prods@[r as int].rhs@[i2]));
                            }
                        };
                    }
                }
            }
            i += 1;
        }
        r += 1;
    }
    changed
}

/// FOLLOW for every non-terminal of the grammar, computed from the FIRST
/// table by passes over every rhs position until nothing changes.
pub fn compute_follow_sets(g: &Grammar, ft: &FirstTable) -> (fo: FollowTable)
    requires
        g.wf(),
        ft.wf(*g),
    ensures
        fo.wf(*g),
        forall|r: int, i: int|
            0 <= r < g.prods@.len() && 0 <= i < g.prods@[r].rhs@.len()
                ==> #[trigger] prod_follow_entailed(*g, *ft, fo, r, i),
        forall|fo2: FollowTable|
            fo2.wf(*g) && (forall|r: int, i: int|
                0 <= r < g.prods@.len() && 0 <= i < g.prods@[r].rhs@.len()
                    ==> #[trigger] prod_follow_entailed(*g, *ft, fo2, r, i))
                ==> #[trigger] follow_below(fo, fo2),
{
    let mut sets: Vec<SymSet> = Vec::new();
    let mut s: usize = 0;
    while s < g.n_symbols
        invariant
            g.wf(),
            s <= g.n_symbols,
            sets@.len() == s,
            forall|i: int|
                0 <= i < s ==> (#[trigger] sets@[i]).wf() && sets@[i].below(g.eof + 1),
            forall|i: int, x: Sym| 0 <= i < s ==> !(#[trigger] sets@[i].has(x)),
        decreases g.n_symbols - s,
    {
        sets.push(SymSet::new());
        s += 1;
    }
    let mut fo = FollowTable { sets };
    proof {
        // the empty start sits below every table
        assert forall|fo2: FollowTable|
            fo2.wf(*g) && (forall|r: int, i: int|
                0 <= r < g.prods@.len() && 0 <= i < g.prods@[r].rhs@.len()
                    ==> #[trigger] prod_follow_entailed(*g, *ft, fo2, r, i))
                implies #[trigger] follow_below(fo, fo2) by {
            assert forall|s: int, x: crate::Sym|
                0 <= s < fo.sets@.len() && (#[trigger] fo.sets@[s].has(x)) implies fo2.sets@[
                s].has(x) by {
                assert(!fo.sets@[s].has(x));
            };
        };
    }
    loop
        invariant
            g.wf(),
            ft.wf(*g),
            fo.wf(*g),
            forall|fo2: FollowTable|
                fo2.wf(*g) && (forall|r: int, i: int|
                    0 <= r < g.prods@.len() && 0 <= i < g.prods@[r].rhs@.len()
                        ==> #[trigger] prod_follow_entailed(*g, *ft, fo2, r, i))
                    ==> #[trigger] follow_below(fo, fo2),
        ensures
            fo.wf(*g),
            forall|r: int, i: int|
                0 <= r < g.prods@.len() && 0 <= i < g.prods@[r].rhs@.len()
                    ==> #[trigger] prod_follow_entailed(*g, *ft, fo, r, i),
            forall|fo2: FollowTable|
                fo2.wf(*g) && (forall|r: int, i: int|
                    0 <= r < g.prods@.len() && 0 <= i < g.prods@[r].rhs@.len()
                        ==> #[trigger] prod_follow_entailed(*g, *ft, fo2, r, i))
                    ==> #[trigger] follow_below(fo, fo2),
        decreases (g.n_symbols as int) * (g.eof + 1) - fo.total(),
    {
        proof {
            assert forall|i: int| 0 <= i < fo.sizes().len() implies 0 <= #[trigger] fo.sizes()[i]
                <= g.eof + 1 by {
                assert(fo.sets@[i].wf());
                fo.sets@[i].lemma_len_bound((g.eof + 1) as usize);
            };
            lemma_sum_bound(fo.sizes(), g.eof + 1);
            lemma_sum_nonneg(fo.sizes());
        }
        let changed = follow_pass(g, ft, &mut fo);
        proof {
            assert forall|i: int| 0 <= i < fo.sizes().len() implies 0 <= #[trigger] fo.sizes()[i]
                <= g.eof + 1 by {
                assert(fo.sets@[i].wf());
                fo.sets@[i].lemma_len_bound((g.eof + 1) as usize);
            };
            lemma_sum_bound(fo.sizes(), g.eof + 1);
            lemma_sum_nonneg(fo.sizes());
        }
        if !changed {
            break;
        }
    }
    fo
}

} // verus!
