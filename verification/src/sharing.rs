//! How the workers of a search share its nodes, and how their counts add up.

use vstd::prelude::*;
use crate::config::Steal;
use crate::effort::{total, total_update};
use crate::frontier::Moves;
use crate::play::{fetch_v, leave_v, looked_at, most_open, sizes_of, split_v, Hand, Signal};
use crate::pool::{backwards, before, victim};
use crate::tables::{Branch, Lore};

verus! {

// ---------------------------------------------------------------------------
// whom a worker takes from
// ---------------------------------------------------------------------------

/// How far a worker stands before another in a ring of `n`.
pub open spec fn behind(u: int, w: int, n: int) -> int {
    if u <= w {
        w - u
    } else {
        w + n - u
    }
}

/// In a ring a worker takes from the one right before it, and from no other.
pub proof fn neighbours_give(sizes: Seq<nat>, w: int, u: int)
    requires
        0 <= w < sizes.len(),
        0 <= u < sizes.len(),
        (u + 1) % (sizes.len() as int) == w,
    ensures
        victim(sizes, w, Steal::Ring) == if sizes[u] > 0 {
            Some(u)
        } else {
            None
        },
{
    let n = sizes.len() as int;
    if u + 1 < n {
        vstd::arithmetic::div_mod::lemma_small_mod((u + 1) as nat, n as nat);
    } else {
        vstd::arithmetic::div_mod::lemma_mod_self_0(n);
    }
}

/// Where all may give, a worker takes from the nearest one before it whose stack
/// is not empty, and goes without exactly where all the others have nothing.
pub proof fn nearest_gives(sizes: Seq<nat>, w: int)
    requires
        0 <= w < sizes.len(),
    ensures
        ({
            let n = sizes.len() as int;
            match victim(sizes, w, Steal::Any) {
                Some(v) => {
                    &&& 0 <= v < n
                    &&& v != w
                    &&& sizes[v] > 0
                    &&& forall|u: int|
                        0 <= u < n && u != w && behind(u, w, n) < behind(v, w, n) ==> #[trigger] sizes[u]
                            == 0
                },
                None => forall|u: int| 0 <= u < n && u != w ==> #[trigger] sizes[u] == 0,
            }
        }),
{
    nearest_from(sizes, w, 1);
}

proof fn nearest_from(sizes: Seq<nat>, w: int, hop: int)
    requires
        0 <= w < sizes.len(),
        1 <= hop,
    ensures
        ({
            let n = sizes.len() as int;
            match backwards(sizes, w, hop) {
                Some(v) => {
                    &&& 0 <= v < n
                    &&& v != w
                    &&& sizes[v] > 0
                    &&& forall|u: int|
                        0 <= u < n && hop <= behind(u, w, n) < behind(v, w, n) ==> #[trigger] sizes[u]
                            == 0
                },
                None => forall|u: int| 0 <= u < n && hop <= behind(u, w, n) ==> #[trigger] sizes[u] == 0,
            }
        }),
    decreases sizes.len() - hop,
{
    let n = sizes.len() as int;
    if hop < n {
        let v = before(w, hop, n);
        assert(behind(v, w, n) == hop);
        if sizes[v] == 0 {
            nearest_from(sizes, w, hop + 1);
        }
    }
}

// ---------------------------------------------------------------------------
// no node is lost
// ---------------------------------------------------------------------------

/// A node is on one of the stacks.
pub open spec fn stacked(stacks: Seq<Seq<Moves>>, m: Moves) -> bool {
    exists|i: int, j: int|
        0 <= i < stacks.len() && 0 <= j < stacks[i].len() && #[trigger] stacks[i][j] == m
}

/// A worker holds a node, or it is on one of the stacks.
pub open spec fn held(hand: Hand, stacks: Seq<Seq<Moves>>, m: Moves) -> bool {
    hand.node == Some(m) || hand.local.contains(m) || stacked(stacks, m)
}

pub open spec fn height() -> spec_fn(Seq<Moves>) -> nat {
    |s: Seq<Moves>| s.len()
}

/// How many nodes a worker and the stacks hold.
pub open spec fn load(hand: Hand, stacks: Seq<Seq<Moves>>) -> nat {
    (if hand.node is Some {
        1
    } else {
        0nat
    }) + hand.local.len() + total(stacks, height())
}

/// A node put on the own stack is the next one taken, and the stack is then what
/// it was.
pub proof fn last_put_is_taken(
    steal: Steal,
    lore: Lore,
    hand: Hand,
    stacks: Seq<Seq<Moves>>,
    place: int,
    m: Moves,
)
    requires
        0 <= place < stacks.len(),
    ensures
        ({
            let more = stacks.update(place, stacks[place].push(m));
            let d = fetch_v(steal, lore, hand, more, place);
            d.signal == Signal::Busy && d.hand.node == Some(m) && d.hand.since == 0 && d.stacks == stacks
        }),
{
    let more = stacks.update(place, stacks[place].push(m));
    assert(stacks[place].push(m).drop_last() =~= stacks[place]);
    assert(more.update(place, stacks[place]) =~= stacks);
}

/// What is taken from another worker is what it put down first, the rest keeps
/// its order.
pub proof fn first_put_is_given(
    steal: Steal,
    lore: Lore,
    hand: Hand,
    stacks: Seq<Seq<Moves>>,
    place: int,
    v: int,
    m: Moves,
)
    requires
        0 <= place < stacks.len(),
        0 <= v < stacks.len(),
        v != place,
        stacks[place].len() == 0,
        victim(sizes_of(stacks.update(v, seq![m] + stacks[v])), place, steal) == Some(v),
    ensures
        ({
            let more = stacks.update(v, seq![m] + stacks[v]);
            let d = fetch_v(steal, lore, hand, more, place);
            d.signal == Signal::Busy && d.hand.node == Some(m) && d.hand.since == 0 && d.stacks == stacks
        }),
{
    let more = stacks.update(v, seq![m] + stacks[v]);
    assert((seq![m] + stacks[v]).skip(1) =~= stacks[v]);
    assert(more.update(v, stacks[v]) =~= stacks);
}

/// A worker that takes a node takes it away from where it was: none is lost and
/// none comes in, and it stays idle exactly where nothing is taken.
pub proof fn taking_moves_a_node(
    steal: Steal,
    lore: Lore,
    hand: Hand,
    stacks: Seq<Seq<Moves>>,
    place: int,
    m: Moves,
)
    requires
        0 <= place < stacks.len(),
        hand.node is None,
    ensures
        ({
            let d = fetch_v(steal, lore, hand, stacks, place);
            &&& held(d.hand, d.stacks, m) <==> held(hand, stacks, m)
            &&& load(d.hand, d.stacks) == load(hand, stacks)
            &&& d.lore == lore
            &&& d.signal == Signal::Idle ==> d.hand == hand && d.stacks == stacks && stacks[place].len()
                == 0
            &&& d.signal == Signal::Busy <==> d.hand.node is Some
        }),
{
    let d = fetch_v(steal, lore, hand, stacks, place);
    nearest_gives(sizes_of(stacks), place);
    let own = stacks[place];
    if own.len() > 0 {
        one_off(stacks, place, own.len() - 1, own.drop_last(), m);
    } else if victim(sizes_of(stacks), place, steal) is Some {
        let v = victim(sizes_of(stacks), place, steal)->0;
        assert(0 <= v < stacks.len() && sizes_of(stacks)[v] > 0);
        one_off(stacks, v, 0, stacks[v].skip(1), m);
    }
}

/// A node taken off a stack.
proof fn one_off(stacks: Seq<Seq<Moves>>, v: int, j: int, rest: Seq<Moves>, m: Moves)
    requires
        0 <= v < stacks.len(),
        0 <= j < stacks[v].len(),
        rest == stacks[v].remove(j),
    ensures
        stacked(stacks, m) <==> stacked(stacks.update(v, rest), m) || m == stacks[v][j],
        total(stacks, height()) == total(stacks.update(v, rest), height()) + 1,
{
    let less = stacks.update(v, rest);
    total_update(stacks, v, rest, height());
    if stacked(stacks, m) {
        let (a, b) = choose|a: int, b: int|
            0 <= a < stacks.len() && 0 <= b < stacks[a].len() && #[trigger] stacks[a][b] == m;
        if a != v {
            assert(less[a][b] == m);
        } else if b < j {
            assert(less[a][b] == m);
        } else if b > j {
            assert(less[a][b - 1] == m);
        }
    }
    if stacked(less, m) {
        let (a, b) = choose|a: int, b: int|
            0 <= a < less.len() && 0 <= b < less[a].len() && #[trigger] less[a][b] == m;
        if a != v || b < j {
            assert(stacks[a][b] == m);
        } else {
            assert(stacks[a][b + 1] == m);
        }
    }
    if m == stacks[v][j] {
        assert(stacks[v][j] == m);
    }
}

/// A worker that leaves its node drops that one node and no other.
pub proof fn leaving_drops_a_node(hand: Hand, stacks: Seq<Seq<Moves>>, m: Moves, x: Moves)
    requires
        hand.node == Some(m),
    ensures
        held(leave_v(hand), stacks, x) <==> hand.local.contains(x) || stacked(stacks, x),
        load(leave_v(hand), stacks) + 1 == load(hand, stacks),
{
    let local = hand.local;
    if local.len() > 0 {
        let front = local.drop_last();
        if local.contains(x) {
            let i = local.index_of(x);
            if i < front.len() {
                assert(front[i] == x);
            }
        }
        if front.contains(x) {
            let i = front.index_of(x);
            assert(local[i] == x);
        }
        assert(local[local.len() - 1] == local.last());
    }
}

/// A worker that splits its node puts the two halves in its place, one for each
/// branch of the history it resolves, and nothing else comes or goes.
pub proof fn splitting_halves_a_node(
    hand: Hand,
    stacks: Seq<Seq<Moves>>,
    m: Moves,
    i: int,
    place: int,
    x: Moves,
)
    requires
        hand.node == Some(m),
        0 <= place < stacks.len(),
    ensures
        ({
            let (h, left) = split_v(hand, stacks, m, i, place);
            &&& held(h, left, x) <==> {
                ||| x == m.push((i, Branch::Low))
                ||| x == m.push((i, Branch::High))
                ||| hand.local.contains(x)
                ||| stacked(stacks, x)
            }
            &&& load(h, left) == load(hand, stacks) + 1
            &&& h.node == Some(m.push((i, Branch::Low)))
        }),
{
    let (low, high) = (m.push((i, Branch::Low)), m.push((i, Branch::High)));
    let local = hand.local.push(high);
    let (h, left) = split_v(hand, stacks, m, i, place);
    assert(local.contains(x) <==> hand.local.contains(x) || x == high) by {
        if local.contains(x) {
            let a = local.index_of(x);
            if a < hand.local.len() {
                assert(hand.local[a] == x);
            }
        }
        if hand.local.contains(x) {
            let a = hand.local.index_of(x);
            assert(local[a] == x);
        }
        assert(local[local.len() - 1] == high);
    }
    if local.len() > 1 && stacks[place].len() == 0 {
        let one = stacks[place].push(local[0]);
        assert(one.remove(0) =~= stacks[place]);
        assert(left.update(place, stacks[place]) =~= stacks);
        one_off(left, place, 0, stacks[place], x);
        let rest = local.skip(1);
        assert(local.contains(x) <==> rest.contains(x) || x == local[0]) by {
            if local.contains(x) {
                let a = local.index_of(x);
                if a > 0 {
                    assert(rest[a - 1] == x);
                }
            }
            if rest.contains(x) {
                let a = rest.index_of(x);
                assert(local[a + 1] == x);
            }
        }
    }
}

// ---------------------------------------------------------------------------
// the counts
// ---------------------------------------------------------------------------

/// The nodes the first `n` workers have looked at, without a bound.
pub open spec fn looks(hands: Seq<Hand>, n: int) -> nat
    decreases n,
{
    if n <= 0 {
        0
    } else {
        looks(hands, n - 1) + hands[n - 1].expanded as nat
    }
}

/// The count of a search is the sum of those of its workers, wherever it fits in
/// sixty-four bits.
pub proof fn looks_add_up(hands: Seq<Hand>, n: int)
    requires
        0 <= n <= hands.len(),
        looks(hands, n) <= u64::MAX,
    ensures
        looked_at(hands, n) == looks(hands, n),
    decreases n,
{
    if n > 0 {
        looks_add_up(hands, n - 1);
    }
}

/// The peak of a search is the largest of those of its workers.
pub proof fn peaks_are_largest(hands: Seq<Hand>, n: int)
    requires
        0 < n <= hands.len(),
    ensures
        forall|i: int| 0 <= i < n ==> (#[trigger] hands[i]).peak <= most_open(hands, n),
        exists|i: int| 0 <= i < n && (#[trigger] hands[i]).peak == most_open(hands, n),
    decreases n,
{
    assert(hands[n - 1].peak >= 0);
    if n > 1 {
        peaks_are_largest(hands, n - 1);
        let i = choose|i: int| 0 <= i < n - 1 && (#[trigger] hands[i]).peak == most_open(hands, n - 1);
        assert(hands[i].peak == most_open(hands, n - 1));
    } else {
        assert(most_open(hands, 0) == 0);
        assert(hands[0].peak == most_open(hands, 1));
    }
}

} // verus!
