//! The two bounds of a state: `U` from above and `L` from below.
//!
//! One traversal of the tree computes both. Every case is shared but one, the
//! choice whose two branches are both idle, where the upper bound takes the
//! componentwise maximum of its branches and the lower bound their componentwise
//! minimum. The recursion reads the state only through the three phases of a
//! node and never through the elapsed progress, which is what lets it be
//! computed once per choice state and reused by every history that ends there.
//!
//! The guard of the sequence case is that the second region has left idle, not
//! that it runs: on two tasks in sequence, the state where the root runs, the
//! first task is idle and the second is done would otherwise be charged the
//! impact of the first, although the only continuation is the closing move,
//! which pays nothing.

use vstd::prelude::*;
use crate::num::{sum_v, vals, zeros_v, Number};
use crate::progress::{children_in, inside};
use crate::semantics::spans;
use crate::state::{DONE, IDLE};
use crate::tree::{Kind, Tree};

verus! {

/// The pair `(U, L)`, each of `k` components.
pub struct Bounds<N> {
    pub upper: Vec<N>,
    pub lower: Vec<N>,
}

/// The larger, or the smaller, of two vectors, entry by entry.
pub open spec fn extreme_v<N: Number>(up: bool, a: Seq<N::Value>, b: Seq<N::Value>) -> Seq<N::Value> {
    Seq::new(a.len(), |c: int| if up { N::max_v(a[c], b[c]) } else { N::min_v(a[c], b[c]) })
}

/// The expectation of two vectors, the first one weighing `p`.
pub open spec fn mean_v<N: Number>(p: N::Value, a: Seq<N::Value>, b: Seq<N::Value>) -> Seq<N::Value> {
    Seq::new(
        a.len(),
        |c: int|
            N::plus_v(N::times_v(p, a[c]), N::times_v(N::minus_v(N::one_v(), p), b[c])),
    )
}

/// What the subtree of `v`, which holds the identifiers from `lo` to `hi`, may
/// still pay: at most when `up`, at least when not.
pub open spec fn side<N: Number>(t: &Tree<N>, s: Seq<i8>, up: bool, v: int, lo: int, hi: int) -> Seq<
    N::Value,
>
    decreases hi - lo,
{
    let n = t.net().nodes[v];
    if s[v] == DONE || (n.kind != Kind::Task && !(lo < v < hi)) {
        zeros_v::<N>(t.k as nat)
    } else {
        match n.kind {
            // a task owes its whole impact until the moment it completes
            Kind::Task => t.impact_v(v),
            // the first region is spent as soon as the second has left idle
            Kind::Sequence => {
                let high = side(t, s, up, n.high, v + 1, hi);
                if s[n.high] != IDLE {
                    high
                } else {
                    sum_v::<N>(side(t, s, up, n.low, lo, v - 1), high)
                }
            },
            Kind::Parallel => sum_v::<N>(
                side(t, s, up, n.low, lo, v - 1),
                side(t, s, up, n.high, v + 1, hi),
            ),
            Kind::Choice | Kind::Nature => {
                let low = side(t, s, up, n.low, lo, v - 1);
                let high = side(t, s, up, n.high, v + 1, hi);
                if s[n.low] >= 0 {
                    low
                } else if s[n.high] >= 0 {
                    high
                } else if s[n.low] == IDLE && s[n.high] == IDLE {
                    if n.kind == Kind::Choice {
                        extreme_v::<N>(up, low, high)
                    } else {
                        mean_v::<N>(t.prob_v(v), low, high)
                    }
                } else {
                    zeros_v::<N>(t.k as nat)
                }
            },
        }
    }
}

/// What the process may still pay from the state `s`.
pub open spec fn bound_v<N: Number>(t: &Tree<N>, s: Seq<i8>, up: bool) -> Seq<N::Value> {
    side(t, s, up, t.root as int, 1, t.n_nodes as int)
}

pub proof fn side_len<N: Number>(t: &Tree<N>, s: Seq<i8>, up: bool, v: int, lo: int, hi: int)
    ensures
        side(t, s, up, v, lo, hi).len() == t.k,
    decreases hi - lo,
{
    let n = t.net().nodes[v];
    if lo < v < hi {
        side_len(t, s, up, n.low, lo, v - 1);
        side_len(t, s, up, n.high, v + 1, hi);
    }
}

/// Computes the two bounds of the state `s`.
pub fn bounds<N: Number>(tree: &Tree<N>, s: &[i8]) -> (r: Bounds<N>)
    requires
        tree.wf(),
        s@.len() == tree.nodes@.len(),
    ensures
        r.upper@.len() == tree.k,
        r.lower@.len() == tree.k,
        vals(r.upper@) =~= bound_v(tree, s@, true),
        vals(r.lower@) =~= bound_v(tree, s@, false),
{
    let mut stack: Vec<N> = Vec::new();
    proof {
        side_len(tree, s@, true, tree.root as int, 1, tree.n_nodes as int);
        side_len(tree, s@, false, tree.root as int, 1, tree.n_nodes as int);
    }
    rec(tree, s, tree.root, &mut stack, Ghost(1), Ghost(tree.n_nodes as int));
    let ghost whole = stack@;
    let lower = stack.split_off(tree.k);
    proof {
        assert forall|c: int| 0 <= c < tree.k implies vals(stack@)[c] == bound_v(tree, s@, true)[c] by {
            assert(vals(whole)[c] == bound_v(tree, s@, true)[c]);
        }
        assert forall|c: int| 0 <= c < tree.k implies vals(lower@)[c] == bound_v(tree, s@, false)[c] by {
            assert(vals(whole)[tree.k + c] == bound_v(tree, s@, false)[c]);
        }
    }
    Bounds { upper: stack, lower }
}

/// Pushes the `2k` values of the node, the upper bound first, on `st`.
///
/// The scratch stack keeps the recursion free of allocation: a fold reads the
/// `4k` values its two children left and writes the `2k` values of the node.
fn rec<N: Number>(
    t: &Tree<N>,
    s: &[i8],
    v: u32,
    st: &mut Vec<N>,
    Ghost(lo): Ghost<int>,
    Ghost(hi): Ghost<int>,
)
    requires
        t.wf(),
        s@.len() == t.nodes@.len(),
        1 <= lo <= hi <= t.n_nodes,
        spans(t.net().nodes, v as int, lo, hi),
    ensures
        vals(final(st)@) =~= vals(old(st)@) + side(t, s@, true, v as int, lo, hi) + side(
            t,
            s@,
            false,
            v as int,
            lo,
            hi,
        ),
    decreases hi - lo,
{
    let k: usize = t.k;
    proof {
        inside(t.net().nodes, v as int, lo, hi);
        side_len(t, s@, true, v as int, lo, hi);
        side_len(t, s@, false, v as int, lo, hi);
    }
    if s[v as usize] == DONE {
        push_zeros(st, k);
        return ;
    }
    let n = t.node(v);
    proof {
        if n.kind != Kind::Task {
            children_in(t.net().nodes, v as int, lo, hi);
            side_len(t, s@, true, n.low as int, lo, v - 1);
            side_len(t, s@, false, n.low as int, lo, v - 1);
            side_len(t, s@, true, n.high as int, v + 1, hi);
            side_len(t, s@, false, n.high as int, v + 1, hi);
        }
    }
    let ghost lu = side(t, s@, true, n.low as int, lo, v - 1);
    let ghost ll = side(t, s@, false, n.low as int, lo, v - 1);
    let ghost hu = side(t, s@, true, n.high as int, v + 1, hi);
    let ghost hl = side(t, s@, false, n.high as int, v + 1, hi);
    let ghost before = vals(st@);
    match n.kind {
        Kind::Task => {
            push_row(st, t.impact(v));
            push_row(st, t.impact(v));
        },
        Kind::Sequence => {
            if s[n.high as usize] != IDLE {
                rec(t, s, n.high, st, Ghost(v + 1), Ghost(hi));
            } else {
                rec(t, s, n.low, st, Ghost(lo), Ghost(v - 1));
                rec(t, s, n.high, st, Ghost(v + 1), Ghost(hi));
                fold_sum(st, k, Ghost(before), Ghost(lu), Ghost(ll), Ghost(hu), Ghost(hl));
            }
        },
        Kind::Parallel => {
            rec(t, s, n.low, st, Ghost(lo), Ghost(v - 1));
            rec(t, s, n.high, st, Ghost(v + 1), Ghost(hi));
            fold_sum(st, k, Ghost(before), Ghost(lu), Ghost(ll), Ghost(hu), Ghost(hl));
        },
        Kind::Choice | Kind::Nature => {
            let lo_s = s[n.low as usize];
            let hi_s = s[n.high as usize];
            if lo_s >= 0 {
                // the branch has been taken already
                rec(t, s, n.low, st, Ghost(lo), Ghost(v - 1));
            } else if hi_s >= 0 {
                rec(t, s, n.high, st, Ghost(v + 1), Ghost(hi));
            } else if lo_s == IDLE && hi_s == IDLE {
                rec(t, s, n.low, st, Ghost(lo), Ghost(v - 1));
                rec(t, s, n.high, st, Ghost(v + 1), Ghost(hi));
                if matches!(n.kind, Kind::Choice) {
                    fold_choice(st, k, Ghost(before), Ghost(lu), Ghost(ll), Ghost(hu), Ghost(hl));
                } else {
                    fold_nature(
                        st,
                        k,
                        &n.prob,
                        Ghost(before),
                        Ghost(lu),
                        Ghost(ll),
                        Ghost(hu),
                        Ghost(hl),
                    );
                }
            } else {
                // the taken branch is done and the closing move is still to come
                push_zeros(st, k);
            }
        },
    }
}

fn push_zeros<N: Number>(st: &mut Vec<N>, k: usize)
    ensures
        vals(final(st)@) =~= vals(old(st)@) + zeros_v::<N>(k as nat) + zeros_v::<N>(k as nat),
{
    let ghost before = vals(st@);
    for j in 0..k
        invariant
            vals(st@) =~= before + zeros_v::<N>(j as nat),
    {
        let ghost prior = vals(st@);
        st.push(N::zero());
        assert(vals(st@) =~= prior.push(N::zero_v()));
    }
    for j in 0..k
        invariant
            vals(st@) =~= before + zeros_v::<N>(k as nat) + zeros_v::<N>(j as nat),
    {
        let ghost prior = vals(st@);
        st.push(N::zero());
        assert(vals(st@) =~= prior.push(N::zero_v()));
    }
}

fn push_row<N: Number>(st: &mut Vec<N>, row: &[N])
    ensures
        vals(final(st)@) =~= vals(old(st)@) + vals(row@),
{
    let ghost before = vals(st@);
    for j in 0..row.len()
        invariant
            vals(st@) =~= before + vals(row@).take(j as int),
    {
        let ghost prior = vals(st@);
        st.push(row[j].dup());
        assert(vals(st@) =~= prior.push(vals(row@)[j as int]));
    }
}

// Each fold reads the `4k` values the two children left on the stack, writes the
// `2k` values of the node over the first half, and drops the second: the stack
// grows by `2k` per node and by nothing else.

/// The sum of the two children, on both bounds.
fn fold_sum<N: Number>(
    st: &mut Vec<N>,
    k: usize,
    Ghost(before): Ghost<Seq<N::Value>>,
    Ghost(lu): Ghost<Seq<N::Value>>,
    Ghost(ll): Ghost<Seq<N::Value>>,
    Ghost(hu): Ghost<Seq<N::Value>>,
    Ghost(hl): Ghost<Seq<N::Value>>,
)
    requires
        lu.len() == k && ll.len() == k && hu.len() == k && hl.len() == k,
        vals(old(st)@) == before + lu + ll + hu + hl,
    ensures
        vals(final(st)@) =~= before + sum_v::<N>(lu, hu) + sum_v::<N>(ll, hl),
{
    let ghost old_st = st@;
    proof {
        assert(vals(st@).len() == st@.len());
    }
    let len: usize = st.len();
    let base: usize = len - 4 * k;
    for j in 0..2 * k
        invariant
            st@.len() == len,
            base == len - 4 * k,
            old_st.len() == len,
            vals(old_st) == before + lu + ll + hu + hl,
            lu.len() == k && ll.len() == k && hu.len() == k && hl.len() == k,
            forall|i: int| 0 <= i < base ==> #[trigger] st@[i] == old_st[i],
            forall|i: int| base + j <= i < len ==> #[trigger] st@[i] == old_st[i],
            forall|i: int|
                base <= i < base + j ==> (#[trigger] st@[i]).value() == N::plus_v(
                    old_st[i].value(),
                    old_st[i + 2 * k].value(),
                ),
    {
        let x = st[base + j].plus(&st[base + 2 * k + j]);
        st.set(base + j, x);
    }
    st.truncate(base + 2 * k);
    proof {
        let want = before + sum_v::<N>(lu, hu) + sum_v::<N>(ll, hl);
        assert(before.len() == base);
        assert forall|i: int| 0 <= i < want.len() implies #[trigger] vals(st@)[i] == want[i] by {
            assert(vals(old_st)[i] == old_st[i].value());
            if i >= base {
                assert(vals(old_st)[i + 2 * k] == old_st[i + 2 * k].value());
            }
        }
    }
}

/// The one case where the two bounds part company: the componentwise maximum
/// for the upper bound, which no policy can exceed whichever branch it takes,
/// and the componentwise minimum for the lower, which no policy can undercut.
fn fold_choice<N: Number>(
    st: &mut Vec<N>,
    k: usize,
    Ghost(before): Ghost<Seq<N::Value>>,
    Ghost(lu): Ghost<Seq<N::Value>>,
    Ghost(ll): Ghost<Seq<N::Value>>,
    Ghost(hu): Ghost<Seq<N::Value>>,
    Ghost(hl): Ghost<Seq<N::Value>>,
)
    requires
        lu.len() == k && ll.len() == k && hu.len() == k && hl.len() == k,
        vals(old(st)@) == before + lu + ll + hu + hl,
    ensures
        vals(final(st)@) =~= before + extreme_v::<N>(true, lu, hu) + extreme_v::<N>(false, ll, hl),
{
    let ghost old_st = st@;
    proof {
        assert(vals(st@).len() == st@.len());
    }
    let len: usize = st.len();
    let base: usize = len - 4 * k;
    for j in 0..k
        invariant
            st@.len() == len,
            base == len - 4 * k,
            old_st.len() == len,
            vals(old_st) == before + lu + ll + hu + hl,
            lu.len() == k && ll.len() == k && hu.len() == k && hl.len() == k,
            forall|i: int| 0 <= i < base ==> #[trigger] st@[i] == old_st[i],
            forall|i: int| base + j <= i < base + k ==> #[trigger] st@[i] == old_st[i],
            forall|i: int| base + k + j <= i < len ==> #[trigger] st@[i] == old_st[i],
            forall|i: int|
                base <= i < base + j ==> (#[trigger] st@[i]).value() == N::max_v(
                    old_st[i].value(),
                    old_st[i + 2 * k].value(),
                ),
            forall|i: int|
                base + k <= i < base + k + j ==> (#[trigger] st@[i]).value() == N::min_v(
                    old_st[i].value(),
                    old_st[i + 2 * k].value(),
                ),
    {
        let x = st[base + j].max(&st[base + 2 * k + j]);
        st.set(base + j, x);
        let y = st[base + k + j].min(&st[base + 3 * k + j]);
        st.set(base + k + j, y);
    }
    st.truncate(base + 2 * k);
    proof {
        let want = before + extreme_v::<N>(true, lu, hu) + extreme_v::<N>(false, ll, hl);
        assert(before.len() == base);
        assert forall|i: int| 0 <= i < want.len() implies #[trigger] vals(st@)[i] == want[i] by {
            assert(vals(old_st)[i] == old_st[i].value());
            if i >= base {
                assert(vals(old_st)[i + 2 * k] == old_st[i + 2 * k].value());
            }
        }
    }
}

/// A nature node contributes the expectation of its branches, weighted by the
/// probability its low branch carries, in both bounds.
fn fold_nature<N: Number>(
    st: &mut Vec<N>,
    k: usize,
    p: &N,
    Ghost(before): Ghost<Seq<N::Value>>,
    Ghost(lu): Ghost<Seq<N::Value>>,
    Ghost(ll): Ghost<Seq<N::Value>>,
    Ghost(hu): Ghost<Seq<N::Value>>,
    Ghost(hl): Ghost<Seq<N::Value>>,
)
    requires
        lu.len() == k && ll.len() == k && hu.len() == k && hl.len() == k,
        vals(old(st)@) == before + lu + ll + hu + hl,
    ensures
        vals(final(st)@) =~= before + mean_v::<N>(p.value(), lu, hu) + mean_v::<N>(p.value(), ll, hl),
{
    let ghost old_st = st@;
    proof {
        assert(vals(st@).len() == st@.len());
    }
    let len: usize = st.len();
    let base: usize = len - 4 * k;
    let q = N::one().minus(p);
    for j in 0..2 * k
        invariant
            st@.len() == len,
            base == len - 4 * k,
            old_st.len() == len,
            q.value() == N::minus_v(N::one_v(), p.value()),
            vals(old_st) == before + lu + ll + hu + hl,
            lu.len() == k && ll.len() == k && hu.len() == k && hl.len() == k,
            forall|i: int| 0 <= i < base ==> #[trigger] st@[i] == old_st[i],
            forall|i: int| base + j <= i < len ==> #[trigger] st@[i] == old_st[i],
            forall|i: int|
                base <= i < base + j ==> (#[trigger] st@[i]).value() == N::plus_v(
                    N::times_v(p.value(), old_st[i].value()),
                    N::times_v(q.value(), old_st[i + 2 * k].value()),
                ),
    {
        let x = p.times(&st[base + j]).plus(&q.times(&st[base + 2 * k + j]));
        st.set(base + j, x);
    }
    st.truncate(base + 2 * k);
    proof {
        let want = before + mean_v::<N>(p.value(), lu, hu) + mean_v::<N>(p.value(), ll, hl);
        assert(before.len() == base);
        assert forall|i: int| 0 <= i < want.len() implies #[trigger] vals(st@)[i] == want[i] by {
            assert(vals(old_st)[i] == old_st[i].value());
            if i >= base {
                assert(vals(old_st)[i + 2 * k] == old_st[i + 2 * k].value());
            }
        }
    }
}

} // verus!
