//! Finite sets of symbol ids, kept as strictly increasing vectors so that
//! iteration order, and therefore state numbering and conflict reporting,
//! is deterministic.

use vstd::prelude::*;

verus! {

/// Sum of a sequence of integers; the termination measure of the fixed-point
/// loops is a bound minus such a sum.
pub open spec fn sum_of(s: Seq<int>) -> int
    decreases s.len(),
{
    if s.len() == 0 {
        0
    } else {
        s[0] + sum_of(s.drop_first())
    }
}

pub proof fn lemma_sum_nonneg(s: Seq<int>)
    requires
        forall|i: int| 0 <= i < s.len() ==> s[i] >= 0,
    ensures
        sum_of(s) >= 0,
    decreases s.len(),
{
    if s.len() > 0 {
        lemma_sum_nonneg(s.drop_first());
    }
}

pub proof fn lemma_sum_bound(s: Seq<int>, c: int)
    requires
        c >= 0,
        forall|i: int| 0 <= i < s.len() ==> 0 <= #[trigger] s[i] <= c,
    ensures
        sum_of(s) <= s.len() * c,
    decreases s.len(),
{
    if s.len() > 0 {
        lemma_sum_bound(s.drop_first(), c);
        assert(s.len() * c == (s.len() - 1) * c + c) by (nonlinear_arith);
    }
}

/// Replacing one entry changes the sum by the difference of that entry.
pub proof fn lemma_sum_update(s: Seq<int>, i: int, v: int)
    requires
        0 <= i < s.len(),
    ensures
        sum_of(s.update(i, v)) == sum_of(s) - s[i] + v,
    decreases s.len(),
{
    if i == 0 {
        assert(s.update(0, v).drop_first() =~= s.drop_first());
    } else {
        lemma_sum_update(s.drop_first(), i - 1, v);
        assert(s.update(i, v).drop_first() =~= s.drop_first().update(i - 1, v));
    }
}

/// In a strictly increasing integer sequence with non-negative entries,
/// the entry at `i` is at least `i`.
proof fn lemma_inc_index_lower(s: Seq<int>, i: int)
    requires
        forall|p: int, q: int| 0 <= p < q < s.len() ==> s[p] < s[q],
        forall|p: int| 0 <= p < s.len() ==> s[p] >= 0,
        0 <= i < s.len(),
    ensures
        s[i] >= i,
    decreases i,
{
    if i > 0 {
        lemma_inc_index_lower(s, i - 1);
    }
}

/// A strictly increasing sequence of integers drawn from `[0, k)` has at
/// most `k` entries.
pub proof fn lemma_inc_seq_len_bound(s: Seq<int>, k: int)
    requires
        k >= 0,
        forall|p: int, q: int| 0 <= p < q < s.len() ==> s[p] < s[q],
        forall|p: int| 0 <= p < s.len() ==> 0 <= #[trigger] s[p] < k,
    ensures
        s.len() <= k,
{
    if s.len() > k {
        lemma_inc_index_lower(s, k);
    }
}

/// Inserting an entry adds its value to the sum.
pub proof fn lemma_sum_insert(s: Seq<int>, i: int, v: int)
    requires
        0 <= i <= s.len(),
    ensures
        sum_of(s.insert(i, v)) == sum_of(s) + v,
    decreases s.len(),
{
    if i == 0 {
        assert(s.insert(0, v)[0] == v);
        assert(s.insert(0, v).drop_first() =~= s);
    } else {
        lemma_sum_insert(s.drop_first(), i - 1, v);
        assert(s.insert(i, v)[0] == s[0]);
        assert(s.insert(i, v).drop_first() =~= s.drop_first().insert(i - 1, v));
    }
}

/// A set of symbol ids as a strictly increasing vector.
pub struct SymSet {
    pub v: Vec<usize>,
}

impl SymSet {
    /// The elements as a sequence, in increasing order.
    pub open spec fn seq(&self) -> Seq<usize> {
        self.v@
    }

    /// Membership.
    pub open spec fn has(&self, x: usize) -> bool {
        self.v@.contains(x)
    }

    /// The vector is strictly increasing: no duplicates, canonical order.
    pub open spec fn wf(&self) -> bool {
        forall|i: int, j: int|
            0 <= i < j < self.v@.len() ==> self.v@[i] < self.v@[j]
    }

    /// Every element is below `b`.
    pub open spec fn below(&self, b: int) -> bool {
        forall|i: int| 0 <= i < self.v@.len() ==> self.v@[i] < b
    }

    /// The size of the set.
    pub open spec fn size(&self) -> int {
        self.v@.len() as int
    }

    pub fn new() -> (r: SymSet)
        ensures
            r.wf(),
            r.seq() == Seq::<usize>::empty(),
            forall|x: usize| !r.has(x),
    {
        let r = SymSet { v: Vec::new() };
        assert(forall|x: usize| !r.v@.contains(x));
        r
    }

    pub fn len(&self) -> (n: usize)
        ensures
            n == self.seq().len(),
    {
        self.v.len()
    }

    pub fn get(&self, i: usize) -> (x: usize)
        requires
            i < self.seq().len(),
        ensures
            x == self.seq()[i as int],
    {
        self.v[i]
    }

    pub fn contains(&self, x: usize) -> (r: bool)
        ensures
            r == self.has(x),
    {
        let mut i: usize = 0;
        while i < self.v.len()
            invariant
                i <= self.v@.len(),
                forall|j: int| 0 <= j < i ==> self.v@[j] != x,
            decreases self.v@.len() - i,
        {
            if self.v[i] == x {
                return true;
            }
            i += 1;
        }
        false
    }

    /// Insert `x`, keeping the vector strictly increasing.
    /// Returns whether the set grew.
    pub fn insert(&mut self, x: usize) -> (added: bool)
        requires
            old(self).wf(),
        ensures
            final(self).wf(),
            added == !old(self).has(x),
            !added ==> *final(self) == *old(self),
            forall|y: usize| final(self).has(y) <==> (old(self).has(y) || y == x),
            final(self).seq().len() == old(self).seq().len() + (if added { 1int } else { 0int }),
            forall|b: int| old(self).below(b) && x < b ==> final(self).below(b),
    {
        let mut i: usize = 0;
        while i < self.v.len() && self.v[i] < x
            invariant
                i <= self.v@.len(),
                forall|j: int| 0 <= j < i ==> self.v@[j] < x,
            decreases self.v@.len() - i,
        {
            i += 1;
        }
        if i < self.v.len() && self.v[i] == x {
            assert(old(self).has(x));
            return false;
        }
        // x is not present: everything before i is < x, everything from i on is > x
        assert(forall|j: int| i <= j < self.v@.len() ==> self.v@[j] > x) by {
            assert(forall|j: int| i < j < self.v@.len() ==> self.v@[j] > self.v@[i as int]);
        }
        assert(!old(self).has(x)) by {
            if old(self).has(x) {
                let k = choose|k: int| 0 <= k < self.v@.len() && self.v@[k] == x;
                assert(false);
            }
        }
        self.v.insert(i, x);
        proof {
            let s = self.v@;
            let o = old(self).v@;
            let ii = i as int;
            assert(forall|j: int| 0 <= j < ii ==> #[trigger] s[j] == o[j]);
            assert(forall|j: int| ii < j < s.len() ==> #[trigger] s[j] == o[j - 1]);
            assert(s[ii] == x);
            assert forall|y: usize| s.contains(y) implies (o.contains(y) || y == x) by {
                let k = choose|k: int| 0 <= k < s.len() && s[k] == y;
                if k < ii {
                    assert(o[k] == y);
                } else if k > ii {
                    assert(o[k - 1] == y);
                }
            };
            assert forall|y: usize| o.contains(y) implies s.contains(y) by {
                let k = choose|k: int| 0 <= k < o.len() && o[k] == y;
                if k < ii {
                    assert(s[k] == y);
                } else {
                    assert(s[k + 1] == y);
                }
            };
            assert(s.contains(x)) by {
                assert(s[ii] == x);
            };
        }
        true
    }

    /// Union `other` into `self`; returns how many elements were added.
    #[verifier::rlimit(50)]
    pub fn union_into(&mut self, other: &SymSet) -> (added: usize)
        requires
            old(self).wf(),
            other.wf(),
        ensures
            final(self).wf(),
            forall|y: usize| final(self).has(y) <==> (old(self).has(y) || other.has(y)),
            final(self).seq().len() == old(self).seq().len() + added,
            added == 0 ==> *final(self) == *old(self),
            forall|b: int| old(self).below(b) && other.below(b) ==> final(self).below(b),
    {
        let ghost orig = *old(self);
        let mut added: usize = 0;
        let mut i: usize = 0;
        while i < other.v.len()
            invariant
                other.wf(),
                self.wf(),
                i <= other.v@.len(),
                added <= i,
                forall|y: usize|
                    self.has(y) <==> (orig.has(y) || exists|j: int|
                        0 <= j < i && other.v@[j] == y),
                self.seq().len() == orig.seq().len() + added,
                added == 0 ==> *self == orig,
                forall|b: int| orig.below(b) && other.below(b) ==> self.below(b),
            decreases other.v@.len() - i,
        {
            let x = other.v[i];
            let ghost prev = *self;
            let a = self.insert(x);
            if a {
                added += 1;
            }
            proof {
                let ii = i as int;
                assert(other.v@[ii] == x);
                assert forall|y: usize|
                    self.has(y) implies (orig.has(y) || exists|j: int|
                        0 <= j < ii + 1 && other.v@[j] == y) by {
                    if y == x {
                        assert(0 <= ii < ii + 1 && other.v@[ii] == y);
                    } else {
                        assert(prev.has(y));
                        assert(orig.has(y) || exists|j: int|
                            0 <= j < ii && other.v@[j] == y);
                        if !orig.has(y) {
                            let j = choose|j: int| 0 <= j < ii && other.v@[j] == y;
                            assert(0 <= j < ii + 1 && other.v@[j] == y);
                        }
                    }
                };
                assert forall|y: usize|
                    (orig.has(y) || exists|j: int|
                        0 <= j < ii + 1 && other.v@[j] == y) implies self.has(y) by {
                    if !orig.has(y) {
                        let j = choose|j: int| 0 <= j < ii + 1 && other.v@[j] == y;
                        if j < ii {
                            assert(prev.has(y));
                        } else {
                            assert(y == x);
                        }
                    }
                };
            }
            i += 1;
        }
        proof {
            assert(forall|y: usize|
                (exists|j: int| 0 <= j < other.v@.len() && other.v@[j] == y) <==> other.has(y));
        }
        added
    }

    /// An exact copy.
    pub fn duplicate(&self) -> (r: SymSet)
        ensures
            r.seq() == self.seq(),
    {
        let mut v: Vec<usize> = Vec::new();
        let mut i: usize = 0;
        while i < self.v.len()
            invariant
                i <= self.v@.len(),
                v@ == self.v@.subrange(0, i as int),
            decreases self.v@.len() - i,
        {
            v.push(self.v[i]);
            proof {
                assert(v@ =~= self.v@.subrange(0, i + 1));
            }
            i += 1;
        }
        proof {
            assert(v@ =~= self.v@);
        }
        SymSet { v }
    }

    /// In a strictly increasing sequence the entry at `i` is at least `i`.
    proof fn lemma_index_lower(s: Seq<usize>, i: int)
        requires
            forall|p: int, q: int| 0 <= p < q < s.len() ==> s[p] < s[q],
            0 <= i < s.len(),
        ensures
            s[i] >= i,
        decreases i,
    {
        if i > 0 {
            Self::lemma_index_lower(s, i - 1);
        }
    }

    /// A strictly increasing vector of values below `b` has at most `b` entries.
    pub proof fn lemma_len_bound(&self, b: usize)
        requires
            self.wf(),
            self.below(b as int),
        ensures
            self.seq().len() <= b,
    {
        if self.seq().len() > b {
            Self::lemma_index_lower(self.v@, b as int);
        }
    }
}

} // verus!
