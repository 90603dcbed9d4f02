//! The shift/reduce driver: an automaton that consumes a token sequence
//! against a parsing table and emits a concrete syntax tree.
//!
//! The driver never panics: a missing table cell, or stacks that do not
//! match the table's instructions, surface as a parse error.

use vstd::prelude::*;
use crate::Sym;
use crate::grammar::Grammar;
use crate::parser::{Action, ParseTable};

verus! {

/// A concrete syntax tree: terminal leaves carry the matched lexeme,
/// non-terminal nodes carry the production's user label and the children in
/// right-hand-side order.
#[derive(Debug, PartialEq)]
pub enum Tree {
    Leaf { sym: Sym, lexeme: Vec<u8> },
    Node { sym: Sym, name: String, children: Vec<Tree> },
}

/// The tree's root symbol: the token kind of a leaf, the non-terminal of a
/// node.
pub open spec fn tree_sym(t: Tree) -> Sym {
    match t {
        Tree::Leaf { sym, lexeme } => sym,
        Tree::Node { sym, name, children } => sym,
    }
}

/// The concatenated lexemes of the terminal leaves, left to right.
pub open spec fn leaf_bytes(t: Tree) -> Seq<u8>
    decreases t,
{
    match t {
        Tree::Leaf { sym, lexeme } => lexeme@,
        Tree::Node { sym, name, children } => bytes_of(children@),
    }
}

/// Leaf bytes of a sequence of trees, concatenated.
pub open spec fn bytes_of(ts: Seq<Tree>) -> Seq<u8>
    decreases ts,
{
    if ts.len() == 0 {
        seq![]
    } else {
        leaf_bytes(ts[0]) + bytes_of(ts.drop_first())
    }
}

/// Leaf bytes of a queue stored back to front: the vector's last element is
/// the queue's front.
pub open spec fn qbytes(q: Seq<Tree>) -> Seq<u8>
    decreases q,
{
    if q.len() == 0 {
        seq![]
    } else {
        leaf_bytes(q.last()) + qbytes(q.drop_last())
    }
}

pub proof fn lemma_bytes_push(ts: Seq<Tree>, t: Tree)
    ensures
        bytes_of(ts.push(t)) == bytes_of(ts) + leaf_bytes(t),
    decreases ts.len(),
{
    if ts.len() == 0 {
        assert(ts.push(t)[0] == t);
        assert(ts.push(t).drop_first() == Seq::<Tree>::empty()) by {
            assert(ts.push(t).drop_first() =~= Seq::<Tree>::empty());
        };
        assert(bytes_of(ts.push(t)) == leaf_bytes(t) + bytes_of(Seq::<Tree>::empty()));
        assert(bytes_of(Seq::<Tree>::empty()) == Seq::<u8>::empty());
        assert(bytes_of(ts) == Seq::<u8>::empty());
        assert(bytes_of(ts.push(t)) =~= bytes_of(ts) + leaf_bytes(t));
    } else {
        lemma_bytes_push(ts.drop_first(), t);
        assert(ts.push(t)[0] == ts[0]);
        assert(ts.push(t).drop_first() == ts.drop_first().push(t)) by {
            assert(ts.push(t).drop_first() =~= ts.drop_first().push(t));
        };
        assert(bytes_of(ts.push(t)) == leaf_bytes(ts[0]) + bytes_of(ts.drop_first().push(t)));
        assert(bytes_of(ts.push(t)) =~= bytes_of(ts) + leaf_bytes(t));
    }
}

pub proof fn lemma_bytes_concat(a: Seq<Tree>, b: Seq<Tree>)
    ensures
        bytes_of(a + b) == bytes_of(a) + bytes_of(b),
    decreases a.len(),
{
    if a.len() == 0 {
        assert(a + b =~= b);
        assert(bytes_of(a + b) =~= bytes_of(a) + bytes_of(b));
    } else {
        lemma_bytes_concat(a.drop_first(), b);
        assert((a + b)[0] == a[0]);
        assert((a + b).drop_first() =~= a.drop_first() + b);
        assert(bytes_of(a + b) =~= bytes_of(a) + bytes_of(b));
    }
}

/// A tree by content alone: leaves with their lexeme bytes, nodes with
/// their label text and children. Two trees with the same content have the
/// same view, which makes the machine's run below a deterministic function
/// of the configuration's content.
pub enum TreeV {
    Leaf { sym: Sym, lexeme: Seq<u8> },
    Node { sym: Sym, name: Seq<char>, children: Seq<TreeV> },
}

/// The view's root symbol.
pub open spec fn tv_sym(t: TreeV) -> Sym {
    match t {
        TreeV::Leaf { sym, lexeme } => sym,
        TreeV::Node { sym, name, children } => sym,
    }
}

/// The content view of a tree.
pub open spec fn tree_view(t: Tree) -> TreeV
    decreases t,
{
    match t {
        Tree::Leaf { sym, lexeme } => TreeV::Leaf { sym, lexeme: lexeme@ },
        Tree::Node { sym, name, children } => TreeV::Node {
            sym,
            name: name@,
            children: views_of(children@),
        },
    }
}

/// The content views of a sequence of trees.
pub open spec fn views_of(ts: Seq<Tree>) -> Seq<TreeV>
    decreases ts,
{
    if ts.len() == 0 {
        Seq::empty()
    } else {
        views_of(ts.drop_last()).push(tree_view(ts.last()))
    }
}

pub proof fn lemma_views_index(ts: Seq<Tree>)
    ensures
        views_of(ts).len() == ts.len(),
        forall|i: int| 0 <= i < ts.len() ==> #[trigger] views_of(ts)[i] == tree_view(ts[i]),
    decreases ts,
{
    if ts.len() > 0 {
        lemma_views_index(ts.drop_last());
        assert forall|i: int| 0 <= i < ts.len() implies #[trigger] views_of(ts)[i] == tree_view(
            ts[i],
        ) by {
            if i < ts.len() - 1 {
                assert(views_of(ts)[i] == views_of(ts.drop_last())[i]);
                assert(ts.drop_last()[i] == ts[i]);
            }
        };
    }
}

pub proof fn lemma_views_push(ts: Seq<Tree>, t: Tree)
    ensures
        views_of(ts.push(t)) == views_of(ts).push(tree_view(t)),
{
    assert(ts.push(t).drop_last() =~= ts);
    assert(ts.push(t).last() == t);
}

pub proof fn lemma_views_drop_last(ts: Seq<Tree>)
    requires
        ts.len() > 0,
    ensures
        views_of(ts.drop_last()) == views_of(ts).drop_last(),
{
    lemma_views_index(ts);
    lemma_views_index(ts.drop_last());
    assert(views_of(ts.drop_last()) =~= views_of(ts).drop_last());
}

pub proof fn lemma_views_take(ts: Seq<Tree>, n: int)
    requires
        0 <= n <= ts.len(),
    ensures
        views_of(ts.take(n)) == views_of(ts).take(n),
{
    lemma_views_index(ts);
    lemma_views_index(ts.take(n));
    assert forall|i: int| 0 <= i < n implies #[trigger] views_of(ts.take(n))[i] == views_of(
        ts,
    ).take(n)[i] by {
        assert(ts.take(n)[i] == ts[i]);
    };
    assert(views_of(ts.take(n)) =~= views_of(ts).take(n));
}

pub proof fn lemma_views_skip(ts: Seq<Tree>, n: int)
    requires
        0 <= n <= ts.len(),
    ensures
        views_of(ts.skip(n)) == views_of(ts).skip(n),
{
    lemma_views_index(ts);
    lemma_views_index(ts.skip(n));
    assert forall|i: int| 0 <= i < ts.len() - n implies #[trigger] views_of(ts.skip(n))[i]
        == views_of(ts).skip(n)[i] by {
        assert(ts.skip(n)[i] == ts[i + n]);
    };
    assert(views_of(ts.skip(n)) =~= views_of(ts).skip(n));
}

/// A step's outcome: the parse finished with the start symbol's tree, or it
/// goes on.
pub enum Status {
    Finished(Tree),
    Running,
}

/// The driver cannot act: the table has no action for the current state and
/// lookahead, or the stacks do not match the table's instruction.
#[derive(Debug, PartialEq, Eq, Clone, Copy)]
pub enum ParseError {
    ParseError,
}

/// The shift/reduce automaton.
pub struct Automaton {
    /// Remaining input, stored back to front: the last element is the front
    /// of the queue; the `⊥` sentinel tree sits at index 0.
    pub input: Vec<Tree>,
    /// State ids; starts as `[0]`.
    pub state_stack: Vec<usize>,
    /// Parsed trees, parallel to the states above the initial one.
    pub symbol_stack: Vec<Tree>,
}

impl Automaton {
    /// All stored data stays within the table: states in range, tree symbols
    /// within the symbol space, and at least one state on the stack.
    pub open spec fn wf(&self, t: ParseTable) -> bool {
        &&& 1 <= self.state_stack@.len()
        &&& forall|i: int|
            0 <= i < self.state_stack@.len() ==> (#[trigger] self.state_stack@[i] as int)
                < t.rows@.len()
        &&& forall|i: int|
            0 <= i < self.input@.len() ==> (tree_sym(#[trigger] self.input@[i]) as int)
                < t.n_symbols
    }

    /// All leaf bytes still owned by the automaton, stack first.
    pub open spec fn total_bytes(&self) -> Seq<u8> {
        bytes_of(self.symbol_stack@) + qbytes(self.input@)
    }

    /// The column to consult: the front tree's symbol, or the
    /// exhausted-input column.
    pub open spec fn col(&self, t: ParseTable) -> int {
        if self.input@.len() == 0 {
            t.n_symbols as int
        } else {
            tree_sym(self.input@.last()) as int
        }
    }

    /// The queue of the given trees followed by the `⊥` sentinel, with empty
    /// stacks and state 0.
    pub fn new(input: Vec<Tree>, eof: Sym) -> (a: Automaton)
        ensures
            a.state_stack@ == seq![0usize],
            a.symbol_stack@ == Seq::<Tree>::empty(),
            qbytes(a.input@) == bytes_of(input@),
            a.input@.len() == input@.len() + 1,
            tree_sym(a.input@[0]) == eof,
            forall|i: int|
                0 < i < a.input@.len() ==> tree_sym(#[trigger] a.input@[i]) == tree_sym(
                    input@[input@.len() - i],
                ),
            views_of(a.input@) == queue_views(views_of(input@), eof),
    {
        let ghost input_view = input@;
        let n = input.len();
        let mut q: Vec<Tree> = Vec::new();
        let sentinel = Tree::Leaf { sym: eof, lexeme: Vec::new() };
        let ghost sentinel_g = sentinel;
        q.push(sentinel);
        proof {
            assert(q@[0] == sentinel_g);
            assert(tree_view(sentinel_g) == TreeV::Leaf {
                sym: eof,
                lexeme: Seq::<u8>::empty(),
            });
            assert(leaf_bytes(q@[0]) =~= seq![]);
            assert(q@.drop_last() == Seq::<Tree>::empty()) by {
                assert(q@.drop_last() =~= Seq::<Tree>::empty());
            };
            assert(q@.last() == q@[0]);
            assert(qbytes(q@) == leaf_bytes(q@[0]) + qbytes(Seq::<Tree>::empty()));
            assert(input_view.skip(n as int) == Seq::<Tree>::empty()) by {
                assert(input_view.skip(n as int) =~= Seq::<Tree>::empty());
            };
            assert(qbytes(q@) =~= bytes_of(input_view.skip(n as int)));
            lemma_views_index(input_view);
            assert(views_of(q@) == queue_views(views_of(input_view).skip(n as int), eof)) by {
                assert(q@.len() == 1);
                assert(q@.last() == sentinel_g);
                assert(q@.drop_last() == Seq::<Tree>::empty()) by {
                    assert(q@.drop_last() =~= Seq::<Tree>::empty());
                };
                assert(views_of(Seq::<Tree>::empty()) == Seq::<TreeV>::empty());
                assert(views_of(q@) == Seq::<TreeV>::empty().push(tree_view(sentinel_g)));
                assert(views_of(q@) =~= seq![
                    TreeV::Leaf { sym: eof, lexeme: Seq::<u8>::empty() },
                ]);
                assert(views_of(input_view).skip(n as int) == Seq::<TreeV>::empty()) by {
                    assert(views_of(input_view).skip(n as int) =~= Seq::<TreeV>::empty());
                };
            };
        }
        let mut src = input;
        while src.len() > 0
            invariant
                src@ == input_view.take(src@.len() as int),
                src@.len() <= n,
                n == input_view.len(),
                q@.len() == 1 + (n - src@.len()),
                tree_sym(q@[0]) == eof,
                qbytes(q@) == bytes_of(input_view.skip(src@.len() as int)),
                forall|i: int|
                    0 < i < q@.len() ==> tree_sym(#[trigger] q@[i]) == tree_sym(
                        input_view[input_view.len() - i],
                    ),
                views_of(q@) == queue_views(
                    views_of(input_view).skip(src@.len() as int),
                    eof,
                ),
            decreases src@.len(),
        {
            let ghost j = src@.len() as int;
            let ghost q_prev = q@;
            let tr = src.pop().unwrap();
            proof {
                assert(tr == input_view.take(j)[j - 1]);
                assert(tr == input_view[j - 1]);
                assert(src@ =~= input_view.take(j - 1));
            }
            q.push(tr);
            proof {
                assert(q@.last() == tr);
                assert(q@.drop_last() =~= q_prev);
                assert(qbytes(q@) == leaf_bytes(tr) + qbytes(q_prev));
                assert(input_view.skip(j - 1)[0] == input_view[j - 1]);
                assert(input_view.skip(j - 1).drop_first() =~= input_view.skip(j));
                assert(qbytes(q@) =~= bytes_of(input_view.skip(j - 1)));
                assert(forall|i: int| 0 <= i < q_prev.len() ==> #[trigger] q@[i] == q_prev[i]);
                assert(tree_sym(q@[q@.len() - 1]) == tree_sym(
                    input_view[input_view.len() - (q@.len() - 1)],
                ));
                lemma_views_push(q_prev, tr);
                lemma_views_index(input_view);
                assert(views_of(q@) == queue_views(views_of(input_view).skip(j - 1), eof)) by {
                    let vs = views_of(input_view);
                    assert(vs.skip(j - 1).drop_first() =~= vs.skip(j));
                    assert(vs.skip(j - 1)[0] == vs[j - 1]);
                    assert(vs[j - 1] == tree_view(input_view[j - 1]));
                    assert(queue_views(vs.skip(j - 1), eof) == queue_views(vs.skip(j), eof).push(
                        vs[j - 1],
                    ));
                };
            }
        }
        proof {
            assert(input_view.skip(0) =~= input_view);
            assert(views_of(input_view).skip(0) =~= views_of(input_view));
        }
        Automaton { input: q, state_stack: vec_of_state0(), symbol_stack: Vec::new() }
    }
}

fn vec_of_state0() -> (v: Vec<usize>)
    ensures
        v@ == seq![0usize],
{
    let mut v: Vec<usize> = Vec::new();
    v.push(0);
    proof {
        assert(v@ =~= seq![0usize]);
    }
    v
}


fn sym_of(tr: &Tree) -> (s: Sym)
    ensures
        s == tree_sym(*tr),
{
    match tr {
        Tree::Leaf { sym, lexeme } => *sym,
        Tree::Node { sym, name, children } => *sym,
    }
}

fn clone_name(s: &String) -> (r: String)
    ensures
        r == *s,
{
    s.clone()
}

/// What one non-final step does, as dictated by the consulted cell:
/// a shift moves the front tree onto the stack and enters the new state; a
/// reduce by `A -> X1..Xk` replaces the top `k` trees with a node named by
/// the production's label, carrying exactly those trees as children in
/// order, and replays it as input for the GOTO move.
pub open spec fn step_spec(pre: Automaton, post: Automaton, t: ParseTable) -> bool {
    let s = pre.state_stack@.last() as int;
    let c = pre.col(t);
    match t.cell(s, c) {
        Some(Action::Shift(j)) => {
            &&& pre.input@.len() > 0
            &&& post.input@ == pre.input@.drop_last()
            &&& post.symbol_stack@ == pre.symbol_stack@.push(pre.input@.last())
            &&& post.state_stack@ == pre.state_stack@.push(j)
        },
        Some(Action::Reduce(it)) => {
            let k = it.rhs@.len() as int;
            let n = pre.symbol_stack@.len() as int;
            &&& n >= k
            &&& pre.state_stack@.len() > k
            &&& post.symbol_stack@ == pre.symbol_stack@.take(n - k)
            &&& post.state_stack@ == pre.state_stack@.take(pre.state_stack@.len() - k)
            &&& post.input@.len() == pre.input@.len() + 1
            &&& post.input@.drop_last() == pre.input@
            &&& (post.input@.last() matches Tree::Node { sym, name, children } && sym == it.lhs
                && name == it.rule_id.1 && children@ == pre.symbol_stack@.skip(n - k))
        },
        _ => false,
    }
}

/// The configuration is ready to accept: the input is exhausted and the
/// stack holds exactly the start symbol's tree below the consumed `⊥`
/// sentinel leaf.
pub open spec fn accept_shape(pre: Automaton) -> bool {
    &&& pre.input@.len() == 0
    &&& pre.symbol_stack@.len() == 2
    &&& (pre.symbol_stack@[1] matches Tree::Leaf { sym, lexeme } && lexeme@.len() == 0)
}

/// The one condition under which a step fails: the consulted cell holds no
/// action, or an action the configuration cannot follow.
pub open spec fn step_stuck(pre: Automaton, t: ParseTable) -> bool {
    let s = pre.state_stack@.last() as int;
    let c = pre.col(t);
    match t.cell(s, c) {
        None => true,
        Some(Action::Shift(j)) => pre.input@.len() == 0,
        Some(Action::Reduce(it)) => pre.symbol_stack@.len() < it.rhs@.len()
            || pre.state_stack@.len() <= it.rhs@.len(),
        Some(Action::Accept) => !accept_shape(pre),
    }
}

/// The initial input queue for the given trees, by content: the `⊥`
/// sentinel leaf at the back-most position, then the trees in reverse, so
/// that the first tree is the queue's front (the vector's last element).
pub open spec fn queue_views(ts: Seq<TreeV>, eof: Sym) -> Seq<TreeV>
    decreases ts.len(),
{
    if ts.len() == 0 {
        seq![TreeV::Leaf { sym: eof, lexeme: Seq::<u8>::empty() }]
    } else {
        queue_views(ts.drop_first(), eof).push(ts[0])
    }
}

/// The deterministic run of the table on a configuration, by content: the
/// tree the configuration accepts with, within `n` steps, or nothing. This
/// is the meaning of a table: which configurations it drives to acceptance,
/// and with which tree.
pub open spec fn run_outcome(
    t: ParseTable,
    input: Seq<TreeV>,
    states: Seq<usize>,
    stack: Seq<TreeV>,
    n: nat,
) -> Option<TreeV>
    decreases n,
{
    if states.len() == 0 {
        None
    } else {
        let s = states.last() as int;
        let c = if input.len() == 0 {
            t.n_symbols as int
        } else {
            tv_sym(input.last()) as int
        };
        match t.cell(s, c) {
            Some(Action::Accept) => if input.len() == 0 && stack.len() == 2 && (stack[1]
                matches TreeV::Leaf { sym, lexeme } && lexeme.len() == 0) {
                Some(stack[0])
            } else {
                None
            },
            Some(Action::Shift(j)) => if n > 0 && input.len() > 0 {
                run_outcome(
                    t,
                    input.drop_last(),
                    states.push(j),
                    stack.push(input.last()),
                    (n - 1) as nat,
                )
            } else {
                None
            },
            Some(Action::Reduce(it)) => {
                let k = it.rhs@.len() as int;
                let nn = stack.len() as int;
                if n > 0 && nn >= k && states.len() > k {
                    run_outcome(
                        t,
                        input.push(
                            TreeV::Node {
                                sym: it.lhs,
                                name: it.rule_id.1@,
                                children: stack.skip(nn - k),
                            },
                        ),
                        states.take(states.len() - k),
                        stack.take(nn - k),
                        (n - 1) as nat,
                    )
                } else {
                    None
                }
            },
            None => None,
        }
    }
}

/// The configuration accepts within `n` steps.
pub open spec fn accepts_in(
    t: ParseTable,
    input: Seq<TreeV>,
    states: Seq<usize>,
    stack: Seq<TreeV>,
    n: nat,
) -> bool {
    run_outcome(t, input, states, stack, n) is Some
}

/// The automaton's configuration accepts within `n` steps.
pub open spec fn config_accepts(t: ParseTable, a: Automaton, n: nat) -> bool {
    accepts_in(t, views_of(a.input@), a.state_stack@, views_of(a.symbol_stack@), n)
}

/// The tree the automaton's configuration accepts with, within `n` steps.
pub open spec fn config_outcome(t: ParseTable, a: Automaton, n: nat) -> Option<TreeV> {
    run_outcome(t, views_of(a.input@), a.state_stack@, views_of(a.symbol_stack@), n)
}

proof fn lemma_tv_sym(x: Tree)
    ensures
        tv_sym(tree_view(x)) == tree_sym(x),
{
}

/// The acceptance shape by value and by content agree.
proof fn lemma_accept_shape_views(a: Automaton)
    ensures
        accept_shape(a) <==> (views_of(a.input@).len() == 0 && views_of(a.symbol_stack@).len() == 2
            && (views_of(a.symbol_stack@)[1] matches TreeV::Leaf { sym, lexeme } && lexeme.len()
            == 0)),
{
    lemma_views_index(a.input@);
    lemma_views_index(a.symbol_stack@);
    if a.symbol_stack@.len() == 2 {
        assert(views_of(a.symbol_stack@)[1] == tree_view(a.symbol_stack@[1]));
        match a.symbol_stack@[1] {
            Tree::Leaf { sym, lexeme } => {},
            Tree::Node { sym, name, children } => {},
        }
    }
}

/// What one running step does to the configuration's content: exactly the
/// successor that [`accepts_in`] walks to.
proof fn lemma_step_succ(pre: Automaton, post: Automaton, t: ParseTable)
    requires
        pre.state_stack@.len() >= 1,
        step_spec(pre, post, t),
    ensures
        views_of(pre.input@).len() == pre.input@.len(),
        views_of(pre.symbol_stack@).len() == pre.symbol_stack@.len(),
        pre.col(t) == (if views_of(pre.input@).len() == 0 {
            t.n_symbols as int
        } else {
            tv_sym(views_of(pre.input@).last()) as int
        }),
        match t.cell(pre.state_stack@.last() as int, pre.col(t)) {
            Some(Action::Shift(j)) => {
                &&& pre.input@.len() > 0
                &&& views_of(post.input@) == views_of(pre.input@).drop_last()
                &&& post.state_stack@ == pre.state_stack@.push(j)
                &&& views_of(post.symbol_stack@) == views_of(pre.symbol_stack@).push(
                    views_of(pre.input@).last(),
                )
            },
            Some(Action::Reduce(it)) => {
                let k = it.rhs@.len() as int;
                let nn = pre.symbol_stack@.len() as int;
                &&& nn >= k
                &&& pre.state_stack@.len() > k
                &&& views_of(post.input@) == views_of(pre.input@).push(
                    TreeV::Node {
                        sym: it.lhs,
                        name: it.rule_id.1@,
                        children: views_of(pre.symbol_stack@).skip(nn - k),
                    },
                )
                &&& post.state_stack@ == pre.state_stack@.take(pre.state_stack@.len() - k)
                &&& views_of(post.symbol_stack@) == views_of(pre.symbol_stack@).take(nn - k)
            },
            _ => false,
        },
{
    lemma_views_index(pre.input@);
    lemma_views_index(pre.symbol_stack@);
    if pre.input@.len() > 0 {
        lemma_tv_sym(pre.input@.last());
        assert(views_of(pre.input@).last() == tree_view(pre.input@.last()));
    }
    match t.cell(pre.state_stack@.last() as int, pre.col(t)) {
        Some(Action::Shift(j)) => {
            lemma_views_drop_last(pre.input@);
            lemma_views_push(pre.symbol_stack@, pre.input@.last());
        },
        Some(Action::Reduce(it)) => {
            let k = it.rhs@.len() as int;
            let nn = pre.symbol_stack@.len() as int;
            let node = post.input@.last();
            assert(post.input@ =~= pre.input@.push(node));
            lemma_views_push(pre.input@, node);
            lemma_views_skip(pre.symbol_stack@, nn - k);
            lemma_views_take(pre.symbol_stack@, nn - k);
            match node {
                Tree::Node { sym, name, children } => {
                    assert(tree_view(node) == TreeV::Node {
                        sym,
                        name: name@,
                        children: views_of(children@),
                    });
                    assert(views_of(children@) == views_of(pre.symbol_stack@.skip(nn - k)));
                },
                Tree::Leaf { sym, lexeme } => {
                    assert(false);
                },
            }
        },
        _ => {
            assert(false);
        },
    }
}

/// An accepting configuration keeps accepting, one step faster and with
/// the same tree, across a running step.
proof fn lemma_step_forward(pre: Automaton, post: Automaton, t: ParseTable, n: nat)
    requires
        pre.state_stack@.len() >= 1,
        step_spec(pre, post, t),
        config_accepts(t, pre, n),
    ensures
        n > 0,
        config_accepts(t, post, (n - 1) as nat),
        config_outcome(t, post, (n - 1) as nat) == config_outcome(t, pre, n),
{
    lemma_step_succ(pre, post, t);
}

/// A step into an accepting configuration came from an accepting one, with
/// the same tree.
proof fn lemma_step_back(pre: Automaton, post: Automaton, t: ParseTable, n: nat)
    requires
        pre.state_stack@.len() >= 1,
        step_spec(pre, post, t),
        config_accepts(t, post, n),
    ensures
        config_accepts(t, pre, (n + 1) as nat),
        config_outcome(t, pre, (n + 1) as nat) == config_outcome(t, post, n),
{
    lemma_step_succ(pre, post, t);
}

impl Automaton {
    /// One step of the automaton against the table. The step fails exactly
    /// when the configuration is stuck ([`step_stuck`]); otherwise it
    /// follows [`step_spec`], and acceptance hands back the start symbol's
    /// tree carrying every consumed lexeme.
    pub fn step(&mut self, t: &ParseTable, g: &Grammar) -> (r: Result<Status, ParseError>)
        requires
            g.wf(),
            t.wf(*g),
            old(self).wf(*t),
        ensures
            match r {
                Ok(Status::Running) => {
                    &&& final(self).wf(*t)
                    &&& final(self).total_bytes() == old(self).total_bytes()
                    &&& step_spec(*old(self), *final(self), *t)
                },
                Ok(Status::Finished(tree)) => {
                    &&& leaf_bytes(tree) == old(self).total_bytes()
                    &&& t.cell(
                        old(self).state_stack@.last() as int,
                        old(self).col(*t),
                    ) == Some(Action::Accept)
                    &&& accept_shape(*old(self))
                    &&& tree == old(self).symbol_stack@[0]
                },
                Err(e) => e == ParseError::ParseError && step_stuck(*old(self), *t),
            },
    {
        let ghost pre = *self;
        let s = self.state_stack[self.state_stack.len() - 1];
        let c: usize = if self.input.len() == 0 {
            t.n_symbols
        } else {
            sym_of(&self.input[self.input.len() - 1])
        };
        proof {
            assert(pre.input@.len() > 0 ==> self.input@[self.input@.len() - 1]
                == pre.input@.last());
            assert(c as int == pre.col(*t));
            assert((s as int) < t.rows@.len());
            assert(t.rows@[s as int]@.len() == t.n_symbols + 1);
        }
        match &t.rows[s][c] {
            Option::None => Err(ParseError::ParseError),
            Option::Some(Action::Accept) => {
                if self.input.len() != 0 || self.symbol_stack.len() != 2 {
                    return Err(ParseError::ParseError);
                }
                let eof_tree = self.symbol_stack.pop().unwrap();
                let empty_leaf = match &eof_tree {
                    Tree::Leaf { sym, lexeme } => lexeme.len() == 0,
                    _ => false,
                };
                if !empty_leaf {
                    proof {
                        assert(pre.symbol_stack@[1] == eof_tree);
                        assert(!accept_shape(pre));
                    }
                    return Err(ParseError::ParseError);
                }
                let start_tree = self.symbol_stack.pop().unwrap();
                proof {
                    assert(leaf_bytes(eof_tree) =~= seq![]);
                    let st = pre.symbol_stack@;
                    assert(st.len() == 2);
                    assert(st[1] == eof_tree);
                    assert(st[0] == start_tree);
                    assert(st.drop_first()[0] == eof_tree);
                    assert(st.drop_first().drop_first() == Seq::<Tree>::empty()) by {
                        assert(st.drop_first().drop_first() =~= Seq::<Tree>::empty());
                    };
                    assert(bytes_of(st.drop_first()) == leaf_bytes(eof_tree) + bytes_of(
                        Seq::<Tree>::empty(),
                    ));
                    assert(bytes_of(st) == leaf_bytes(start_tree) + bytes_of(st.drop_first()));
                    assert(bytes_of(st) =~= leaf_bytes(start_tree));
                    assert(qbytes(pre.input@) == Seq::<u8>::empty());
                    assert(pre.total_bytes() =~= leaf_bytes(start_tree));
                }
                Ok(Status::Finished(start_tree))
            },
            Option::Some(Action::Shift(j)) => {
                let j = *j;
                if self.input.len() == 0 {
                    return Err(ParseError::ParseError);
                }
                let tr = self.input.pop().unwrap();
                self.symbol_stack.push(tr);
                self.state_stack.push(j);
                proof {
                    assert(t.cell(s as int, c as int) == Some(Action::Shift(j)));
                    assert((j as int) < t.rows@.len());
                    lemma_bytes_push(pre.symbol_stack@, pre.input@.last());
                    assert(qbytes(pre.input@) == leaf_bytes(pre.input@.last()) + qbytes(
                        self.input@,
                    ));
                    assert(self.total_bytes() =~= pre.total_bytes());
                    assert forall|i: int|
                        0 <= i < self.input@.len() implies (tree_sym(#[trigger] self.input@[i])
                        as int) < t.n_symbols by {
                        assert(self.input@[i] == pre.input@[i]);
                    };
                }
                Ok(Status::Running)
            },
            Option::Some(Action::Reduce(it)) => {
                let k = it.rhs.len();
                if self.symbol_stack.len() < k || self.state_stack.len() <= k {
                    return Err(ParseError::ParseError);
                }
                proof {
                    assert(t.cell(s as int, c as int) == Some(Action::Reduce(*it)));
                    assert(it.valid(*g));
                    assert(g.prod_wf(it.rule()));
                    assert((it.lhs as int) < g.n_symbols);
                }
                let ghost n = self.symbol_stack@.len() as int;
                let ghost kk = k as int;
                // pop the right-hand side's trees, rightmost first
                let mut rev: Vec<Tree> = Vec::new();
                let mut p: usize = 0;
                while p < k
                    invariant
                        p <= k,
                        kk == k as int,
                        n == pre.symbol_stack@.len(),
                        n >= kk,
                        self.symbol_stack@ == pre.symbol_stack@.take(n - p),
                        rev@.len() == p,
                        forall|q2: int|
                            0 <= q2 < p ==> (#[trigger] rev@[q2]) == pre.symbol_stack@[n - 1 - q2],
                        self.input@ == pre.input@,
                        self.state_stack@ == pre.state_stack@,
                    decreases k - p,
                {
                    let tr = self.symbol_stack.pop().unwrap();
                    proof {
                        assert(pre.symbol_stack@.take(n - p)[n - p - 1] == pre.symbol_stack@[n - 1
                            - p]);
                        assert(pre.symbol_stack@.take(n - p).drop_last() =~= pre.symbol_stack@.take(
                            n - (p + 1),
                        ));
                    }
                    rev.push(tr);
                    p += 1;
                }
                // restore source order
                let mut children: Vec<Tree> = Vec::new();
                while rev.len() > 0
                    invariant
                        kk <= n,
                        n == pre.symbol_stack@.len(),
                        rev@.len() + children@.len() == kk,
                        forall|q2: int|
                            0 <= q2 < rev@.len() ==> (#[trigger] rev@[q2]) == pre.symbol_stack@[n
                                - 1 - q2],
                        forall|q2: int|
                            0 <= q2 < children@.len() ==> (#[trigger] children@[q2])
                                == pre.symbol_stack@[n - kk + q2],
                    decreases rev@.len(),
                {
                    let ghost rl = rev@.len() as int;
                    let tr = rev.pop().unwrap();
                    proof {
                        assert(tr == pre.symbol_stack@[n - 1 - (rl - 1)]);
                        assert(n - 1 - (rl - 1) == n - kk + children@.len());
                    }
                    children.push(tr);
                }
                proof {
                    assert(children@ =~= pre.symbol_stack@.skip(n - kk));
                }
                // pop as many states
                let mut p2: usize = 0;
                while p2 < k
                    invariant
                        p2 <= k,
                        kk == k as int,
                        kk <= n,
                        n == pre.symbol_stack@.len(),
                        pre.state_stack@.len() > kk,
                        self.input@ == pre.input@,
                        self.symbol_stack@ == pre.symbol_stack@.take(n - kk),
                        self.state_stack@ == pre.state_stack@.take(
                            pre.state_stack@.len() - p2,
                        ),
                    decreases k - p2,
                {
                    let _ = self.state_stack.pop().unwrap();
                    proof {
                        assert(pre.state_stack@.take(pre.state_stack@.len() - p2).drop_last()
                            =~= pre.state_stack@.take(pre.state_stack@.len() - (p2 + 1)));
                    }
                    p2 += 1;
                }
                let node = Tree::Node {
                    sym: it.lhs,
                    name: clone_name(&it.rule_id.1),
                    children,
                };
                let ghost node_g = node;
                self.input.push(node);
                proof {
                    // leaf bytes are conserved: the node carries exactly the
                    // popped trees' bytes
                    let taken = pre.symbol_stack@.take(n - kk);
                    let dropped = pre.symbol_stack@.skip(n - kk);
                    assert(pre.symbol_stack@ =~= taken + dropped);
                    lemma_bytes_concat(taken, dropped);
                    assert(leaf_bytes(node_g) == bytes_of(dropped));
                    assert(self.input@.last() == node_g);
                    assert(self.input@.drop_last() =~= pre.input@);
                    assert(qbytes(self.input@) == leaf_bytes(node_g) + qbytes(pre.input@));
                    assert(self.total_bytes() =~= pre.total_bytes());
                    // well-formedness survives
                    assert forall|i: int|
                        0 <= i < self.state_stack@.len() implies (#[trigger] self.state_stack@[i]
                        as int) < t.rows@.len() by {
                        assert(self.state_stack@[i] == pre.state_stack@[i]);
                    };
                    assert forall|i: int|
                        0 <= i < self.input@.len() implies (tree_sym(#[trigger] self.input@[i])
                        as int) < t.n_symbols by {
                        if i < self.input@.len() - 1 {
                            assert(self.input@[i] == pre.input@[i]);
                        } else {
                            assert(self.input@[i] == node_g);
                        }
                    };
                    assert(self.state_stack@.len() >= 1);
                }
                Ok(Status::Running)
            },
        }
    }

    /// Run the automaton to acceptance or error. The result tree's leaf
    /// lexemes, concatenated, are exactly the automaton's input bytes, and
    /// the run characterizes the table's meaning: it returns a tree exactly
    /// when the starting configuration accepts under [`accepts_in`] (within
    /// the step budget, which no realizable chain exceeds).
    pub fn run(&mut self, t: &ParseTable, g: &Grammar) -> (r: Result<Tree, ParseError>)
        requires
            g.wf(),
            t.wf(*g),
            old(self).wf(*t),
        ensures
            match r {
                Ok(tree) => leaf_bytes(tree) == old(self).total_bytes(),
                Err(e) => e == ParseError::ParseError,
            },
            (exists|n: nat| n < usize::MAX && #[trigger] config_accepts(*t, *old(self), n)) ==> r
                is Ok,
            r is Ok ==> exists|n: nat| #[trigger] config_accepts(*t, *old(self), n),
            r matches Ok(tree) ==> exists|n: nat|
                #[trigger] config_outcome(*t, *old(self), n) == Some(tree_view(tree)),
    {
        let ghost orig = *old(self);
        let mut fuel: usize = usize::MAX;
        while fuel > 0
            invariant
                g.wf(),
                t.wf(*g),
                self.wf(*t),
                self.total_bytes() == orig.total_bytes(),
                orig == *old(self),
                forall|n: nat|
                    #[trigger] config_accepts(*t, *self, n) ==> config_accepts(
                        *t,
                        orig,
                        (n + (usize::MAX - fuel)) as nat,
                    ),
                forall|n: nat|
                    (#[trigger] config_outcome(*t, *self, n)) is Some ==> config_outcome(
                        *t,
                        orig,
                        (n + (usize::MAX - fuel)) as nat,
                    ) == config_outcome(*t, *self, n),
                (exists|n: nat| n < usize::MAX && #[trigger] config_accepts(*t, orig, n))
                    ==> exists|m: nat| m < fuel && #[trigger] config_accepts(*t, *self, m),
            decreases fuel,
        {
            let ghost pre = *self;
            let ghost fuel_pre = fuel;
            match self.step(t, g) {
                Ok(Status::Finished(tree)) => {
                    proof {
                        // the configuration just accepted: it accepts at
                        // once, with the tree on the stack
                        lemma_accept_shape_views(pre);
                        lemma_views_index(pre.input@);
                        lemma_views_index(pre.symbol_stack@);
                        assert(config_outcome(*t, pre, 0) == Some(tree_view(tree))) by {
                            assert(views_of(pre.symbol_stack@)[0] == tree_view(
                                pre.symbol_stack@[0],
                            ));
                        };
                        assert(config_accepts(*t, pre, 0));
                        assert(config_accepts(*t, orig, (0 + (usize::MAX - fuel_pre)) as nat));
                        assert(config_outcome(*t, orig, (0 + (usize::MAX - fuel_pre)) as nat)
                            == Some(tree_view(tree)));
                    }
                    return Ok(tree);
                },
                Ok(Status::Running) => {
                    proof {
                        assert(step_spec(pre, *self, *t));
                        assert forall|n: nat|
                            #[trigger] config_accepts(*t, *self, n) implies config_accepts(
                            *t,
                            orig,
                            (n + (usize::MAX - (fuel_pre - 1))) as nat,
                        ) by {
                            lemma_step_back(pre, *self, *t, n);
                            assert(config_accepts(*t, pre, (n + 1) as nat));
                            assert(config_accepts(
                                *t,
                                orig,
                                ((n + 1) + (usize::MAX - fuel_pre)) as nat,
                            ));
                        };
                        assert forall|n: nat|
                            (#[trigger] config_outcome(*t, *self, n)) is Some implies config_outcome(
                            *t,
                            orig,
                            (n + (usize::MAX - (fuel_pre - 1))) as nat,
                        ) == config_outcome(*t, *self, n) by {
                            lemma_step_back(pre, *self, *t, n);
                            assert(config_outcome(*t, pre, (n + 1) as nat) == config_outcome(
                                *t,
                                *self,
                                n,
                            ));
                            assert((config_outcome(*t, pre, (n + 1) as nat)) is Some);
                            assert(config_outcome(
                                *t,
                                orig,
                                ((n + 1) + (usize::MAX - fuel_pre)) as nat,
                            ) == config_outcome(*t, pre, (n + 1) as nat));
                        };
                        if exists|n: nat| n < usize::MAX && #[trigger] config_accepts(
                            *t,
                            orig,
                            n,
                        ) {
                            let m = choose|m: nat|
                                m < fuel_pre && #[trigger] config_accepts(*t, pre, m);
                            lemma_step_forward(pre, *self, *t, m);
                            assert(((m - 1) as nat) < fuel_pre - 1);
                            assert(config_accepts(*t, *self, (m - 1) as nat));
                        }
                    }
                },
                Err(e) => {
                    proof {
                        // a stuck configuration accepts in no number of
                        // steps, so the acceptance premise cannot hold
                        if exists|n: nat| n < usize::MAX && #[trigger] config_accepts(
                            *t,
                            orig,
                            n,
                        ) {
                            let m = choose|m: nat|
                                m < fuel_pre && #[trigger] config_accepts(*t, pre, m);
                            assert(step_stuck(pre, *t));
                            lemma_views_index(pre.input@);
                            lemma_views_index(pre.symbol_stack@);
                            if pre.input@.len() > 0 {
                                lemma_tv_sym(pre.input@.last());
                                assert(views_of(pre.input@).last() == tree_view(
                                    pre.input@.last(),
                                ));
                            }
                            lemma_accept_shape_views(pre);
                            assert(false);
                        }
                    }
                    return Err(e);
                },
            }
            fuel -= 1;
        }
        proof {
            if exists|n: nat| n < usize::MAX && #[trigger] config_accepts(*t, orig, n) {
                let m = choose|m: nat| m < fuel && #[trigger] config_accepts(*t, *self, m);
                assert(false);
            }
        }
        Err(ParseError::ParseError)
    }
}

/// Parse a queue of leaf trees against the table: append the `⊥` sentinel,
/// then shift and reduce until acceptance. On success the tree's leaf
/// lexemes, concatenated, are exactly the input trees' lexemes; and a tree
/// comes back exactly when the initial configuration accepts under
/// [`accepts_in`] (within the step budget, which no realizable chain
/// exceeds).
pub fn parse(t: &ParseTable, g: &Grammar, input: Vec<Tree>) -> (r: Result<Tree, ParseError>)
    requires
        g.wf(),
        t.wf(*g),
        forall|i: int|
            0 <= i < input@.len() ==> (tree_sym(#[trigger] input@[i]) as int) < g.n_symbols,
    ensures
        match r {
            Ok(tree) => leaf_bytes(tree) == bytes_of(input@),
            Err(e) => e == ParseError::ParseError,
        },
        (exists|n: nat|
            n < usize::MAX && #[trigger] accepts_in(
                *t,
                queue_views(views_of(input@), g.eof),
                seq![0usize],
                Seq::<TreeV>::empty(),
                n,
            )) ==> r is Ok,
        r is Ok ==> exists|n: nat|
            #[trigger] accepts_in(
                *t,
                queue_views(views_of(input@), g.eof),
                seq![0usize],
                Seq::<TreeV>::empty(),
                n,
            ),
        r matches Ok(tree) ==> exists|n: nat|
            #[trigger] run_outcome(
                *t,
                queue_views(views_of(input@), g.eof),
                seq![0usize],
                Seq::<TreeV>::empty(),
                n,
            ) == Some(tree_view(tree)),
{
    let ghost input_view = input@;
    let mut a = Automaton::new(input, g.eof);
    proof {
        assert(a.wf(*t)) by {
            assert forall|i: int|
                0 <= i < a.input@.len() implies (tree_sym(#[trigger] a.input@[i]) as int)
                < t.n_symbols by {
                if i == 0 {
                    assert(tree_sym(a.input@[i]) == g.eof);
                } else {
                    assert(tree_sym(a.input@[i]) == tree_sym(
                        input_view[input_view.len() - i],
                    ));
                }
            };
            assert(a.state_stack@[0] == 0usize);
        };
        assert(a.total_bytes() =~= bytes_of(input_view)) by {
            assert(bytes_of(a.symbol_stack@) == Seq::<u8>::empty());
        };
        assert(views_of(a.symbol_stack@) == Seq::<TreeV>::empty());
    }
    let ghost a0 = a;
    let r = a.run(t, g);
    proof {
        assert(forall|n: nat|
            #[trigger] config_accepts(*t, a0, n) == accepts_in(
                *t,
                queue_views(views_of(input_view), g.eof),
                seq![0usize],
                Seq::<TreeV>::empty(),
                n,
            ));
        assert(forall|n: nat|
            #[trigger] config_outcome(*t, a0, n) == run_outcome(
                *t,
                queue_views(views_of(input_view), g.eof),
                seq![0usize],
                Seq::<TreeV>::empty(),
                n,
            ));
        if exists|n: nat|
            n < usize::MAX && #[trigger] accepts_in(
                *t,
                queue_views(views_of(input_view), g.eof),
                seq![0usize],
                Seq::<TreeV>::empty(),
                n,
            ) {
            let n = choose|n: nat|
                n < usize::MAX && #[trigger] accepts_in(
                    *t,
                    queue_views(views_of(input_view), g.eof),
                    seq![0usize],
                    Seq::<TreeV>::empty(),
                    n,
                );
            assert(config_accepts(*t, a0, n));
        }
        if r is Ok {
            let n = choose|n: nat| #[trigger] config_accepts(*t, a0, n);
            assert(accepts_in(
                *t,
                queue_views(views_of(input_view), g.eof),
                seq![0usize],
                Seq::<TreeV>::empty(),
                n,
            ));
        }
        match r {
            Ok(ref tree) => {
                let n = choose|n: nat|
                    #[trigger] config_outcome(*t, a0, n) == Some(tree_view(*tree));
                assert(run_outcome(
                    *t,
                    queue_views(views_of(input_view), g.eof),
                    seq![0usize],
                    Seq::<TreeV>::empty(),
                    n,
                ) == Some(tree_view(*tree)));
            },
            Err(_) => {},
        }
    }
    r
}

} // verus!
