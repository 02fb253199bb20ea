//! The course of a search, as mathematics.
//!
//! A worker holds a path of the computation tree and the paths it has yet to
//! look at; what it does in one turn is a function of these, of the generator
//! and of what the tables hold by then, in its order. So is the whole
//! of a search that no clock cuts short: it can be repeated.

use vstd::prelude::*;
use crate::config::{Selection, Steal};
use crate::ct::{plain, reports, Strategy};
use crate::draw::{lands, least, mass, scrambled, stepped};
use crate::frontier::{accepted, front_at, rejected, Moves, Tests};
use crate::num::Number;
use crate::pool::victim;
use crate::search::{error_text, Answer, Stats};
use crate::state::{opening, reply, Leaf, StepError};
use crate::tables::{child_lore, child_of, first_lore, holdable, no_lore, Branch, Lore};
use crate::tree::Tree;

verus! {

/// What a worker holds.
pub struct Hand {
    /// The state of its generator.
    pub rng: u64,
    pub node: Option<Moves>,
    pub local: Seq<Moves>,
    pub expanded: u64,
    /// How many nodes it has looked at since it last took one from a stack.
    pub since: u64,
    pub peak: nat,
}

/// What all of them hold.
pub struct Scene {
    /// What the tables have come to hold.
    pub lore: Lore,
    pub hands: Seq<Hand>,
    pub stacks: Seq<Seq<Moves>>,
}

/// What a search is played by.
pub struct Rules<V> {
    pub tests: Tests<V>,
    pub selection: Selection,
    pub steal: Steal,
    pub max_outcomes: usize,
}

/// What one turn comes to.
pub enum Signal {
    Idle,
    Busy,
    Accept(Moves),
    Fail,
}

pub struct Turned {
    pub lore: Lore,
    pub hand: Hand,
    pub stacks: Seq<Seq<Moves>>,
    pub signal: Signal,
}

/// How a search ends.
pub enum Ending {
    Yes(Moves),
    No,
    Failed,
}

/// The identifier of a history: the place at which it was met, from one on.
pub open spec fn id_of(known: Seq<Seq<u32>>, d: Seq<u32>) -> u64 {
    ((known.index_of(d) + 1) % 0x1_0000_0000_0000_0000) as u64
}

/// Which of these histories is elected.
pub open spec fn elected<N: Number>(
    known: Seq<Seq<u32>>,
    open: Seq<Leaf<N::Value>>,
    selection: Selection,
    x: u64,
) -> int {
    let z = scrambled(stepped(x));
    match selection {
        Selection::Weighted => {
            let ps = Seq::new(open.len(), |i: int| open[i].prob);
            lands::<N>(ps, N::times_v(N::unit_v(z >> 11u64), mass::<N>(ps, ps.len() as int)))
        },
        Selection::Uniform => z as int % open.len() as int,
        Selection::Oldest => least(
            Seq::new(open.len(), |i: int| id_of(known, open[i].decisions)),
            open.len() as int,
        ),
    }
}

pub open spec fn sizes_of(stacks: Seq<Seq<Moves>>) -> Seq<nat> {
    Seq::new(stacks.len(), |i: int| stacks[i].len())
}

/// A worker takes a node, when there is one.
pub open spec fn fetch_v(
    steal: Steal,
    lore: Lore,
    hand: Hand,
    stacks: Seq<Seq<Moves>>,
    place: int,
) -> Turned {
    let own = stacks[place];
    if own.len() > 0 {
        Turned {
            lore,
            hand: Hand { node: Some(own.last()), since: 0, ..hand },
            stacks: stacks.update(place, own.drop_last()),
            signal: Signal::Busy,
        }
    } else {
        match victim(sizes_of(stacks), place, steal) {
            Some(v) => Turned {
                lore,
                hand: Hand { node: Some(stacks[v][0]), since: 0, ..hand },
                stacks: stacks.update(v, stacks[v].skip(1)),
                signal: Signal::Busy,
            },
            None => Turned { lore, hand, stacks, signal: Signal::Idle },
        }
    }
}

/// A worker leaves its node for the next one.
pub open spec fn leave_v(hand: Hand) -> Hand {
    if hand.local.len() > 0 {
        Hand { node: Some(hand.local.last()), local: hand.local.drop_last(), ..hand }
    } else {
        Hand { node: None, ..hand }
    }
}

/// A worker splits its node at the history `i`, and hands its oldest node over
/// where its own stack is empty.
pub open spec fn split_v(hand: Hand, stacks: Seq<Seq<Moves>>, m: Moves, i: int, place: int) -> (
    Hand,
    Seq<Seq<Moves>>,
) {
    let local = hand.local.push(m.push((i, Branch::High)));
    let node = Some(m.push((i, Branch::Low)));
    if local.len() > 1 && stacks[place].len() == 0 {
        (
            Hand { node, local: local.skip(1), ..hand },
            stacks.update(place, stacks[place].push(local[0])),
        )
    } else {
        (Hand { node, local, ..hand }, stacks)
    }
}

/// A worker resolves a choice of its node.
pub open spec fn divide_v<N: Number>(
    t: &Tree<N>,
    x: Rules<N::Value>,
    lore: Lore,
    hand: Hand,
    stacks: Seq<Seq<Moves>>,
    m: Moves,
    place: int,
) -> Turned {
    let open = front_at(t, m).open;
    let i = elected::<N>(lore.names, open, x.selection, hand.rng);
    let h = open[i];
    let drawn = Hand {
        rng: if x.selection == Selection::Oldest {
            hand.rng
        } else {
            stepped(hand.rng)
        },
        ..hand
    };
    let low = child_lore(t, lore, h, Branch::Low);
    if !holdable(reply(t, h.state, child_of(t, h.state, Branch::Low)), x.max_outcomes) {
        Turned { lore, hand: drawn, stacks, signal: Signal::Fail }
    } else if !holdable(reply(t, h.state, child_of(t, h.state, Branch::High)), x.max_outcomes) {
        Turned { lore: low, hand: drawn, stacks, signal: Signal::Fail }
    } else {
        let (next, left) = split_v(drawn, stacks, m, i, place);
        Turned {
            lore: child_lore(t, low, h, Branch::High),
            hand: next,
            stacks: left,
            signal: Signal::Busy,
        }
    }
}

/// A worker counts the node it is about to look at.
pub open spec fn counted_v(hand: Hand) -> Hand {
    if hand.node is Some {
        Hand {
            expanded: hand.expanded.wrapping_add(1),
            since: hand.since.wrapping_add(1),
            ..hand
        }
    } else {
        hand
    }
}

/// What a worker does that has counted its node: it takes one when it holds
/// none, and otherwise looks at the one it holds.
#[verifier::opaque]
pub open spec fn act_v<N: Number>(
    t: &Tree<N>,
    x: Rules<N::Value>,
    lore: Lore,
    hand: Hand,
    stacks: Seq<Seq<Moves>>,
    place: int,
) -> Turned {
    match hand.node {
        None => fetch_v(x.steal, lore, hand, stacks, place),
        Some(m) => {
            let f = front_at(t, m);
            let looked = Hand {
                peak: if f.open.len() > hand.peak {
                    f.open.len()
                } else {
                    hand.peak
                },
                ..hand
            };
            if accepted::<N>(x.tests, f) {
                Turned { lore, hand: looked, stacks, signal: Signal::Accept(m) }
            } else if rejected::<N>(x.tests, f) {
                Turned { lore, hand: leave_v(looked), stacks, signal: Signal::Busy }
            } else {
                divide_v(t, x, lore, looked, stacks, m, place)
            }
        },
    }
}

/// One turn of a worker.
pub open spec fn turn_v<N: Number>(
    t: &Tree<N>,
    x: Rules<N::Value>,
    lore: Lore,
    hand: Hand,
    stacks: Seq<Seq<Moves>>,
    place: int,
) -> Turned {
    act_v(t, x, lore, counted_v(hand), stacks, place)
}

/// Worker `w` has counted its node.
pub open spec fn counting(c: Scene, w: int) -> Scene {
    Scene { hands: c.hands.update(w, counted_v(c.hands[w])), ..c }
}

/// The clock may be read in the turn of worker `w`: it holds a node, and with
/// this one it has counted a multiple of 4096 since it took one from a stack.
pub open spec fn clock_struck(c: Scene, w: int) -> bool {
    &&& 0 <= w < c.hands.len()
    &&& c.hands[w].node is Some
    &&& counted_v(c.hands[w]).since % 4096 == 0
}

/// The scene after the turn of worker `w`.
pub open spec fn after(c: Scene, w: int, d: Turned) -> Scene {
    Scene { lore: d.lore, hands: c.hands.update(w, d.hand), stacks: d.stacks }
}

/// How a search goes on from the turn of worker `w` in a round that has been
/// idle so far, given so many steps: its end, where it has come to one.
pub open spec fn play<N: Number>(
    t: &Tree<N>,
    x: Rules<N::Value>,
    c: Scene,
    w: int,
    idle: bool,
    steps: nat,
) -> Option<(Ending, Scene)>
    decreases steps,
{
    if steps == 0 {
        None
    } else if w >= c.hands.len() {
        if idle {
            Some((Ending::No, c))
        } else {
            play(t, x, c, 0, true, (steps - 1) as nat)
        }
    } else {
        let d = turn_v(t, x, c.lore, c.hands[w], c.stacks, w);
        let n = after(c, w, d);
        match d.signal {
            Signal::Idle => play(t, x, n, w + 1, idle, (steps - 1) as nat),
            Signal::Busy => play(t, x, n, w + 1, false, (steps - 1) as nat),
            Signal::Accept(m) => Some((Ending::Yes(m), n)),
            Signal::Fail => Some((Ending::Failed, n)),
        }
    }
}

/// The seed of the worker of a place.
pub open spec fn seeded(seed: u64, place: int) -> u64 {
    (seed ^ (place as u64).wrapping_mul(0x9E37_79B9_7F4A_7C15)) | 1
}

/// The scene a search begins with: the root on the stack of the first worker.
pub open spec fn scene_begins<N: Number>(t: &Tree<N>, workers: nat, seed: u64) -> Scene {
    Scene {
        lore: first_lore(t, no_lore()),
        hands: Seq::new(
            workers,
            |i: int|
                Hand {
                    rng: seeded(seed, i),
                    node: None,
                    local: Seq::empty(),
                    expanded: 0,
                    since: 0,
                    peak: 0,
                },
        ),
        stacks: Seq::new(
            workers,
            |i: int| if i == 0 { seq![Seq::empty()] } else { Seq::empty() },
        ),
    }
}

/// How many nodes the first `n` workers have looked at.
pub open spec fn looked_at(hands: Seq<Hand>, n: int) -> u64
    decreases n,
{
    if n <= 0 {
        0
    } else {
        looked_at(hands, n - 1).wrapping_add(hands[n - 1].expanded)
    }
}

/// The most open histories the first `n` workers have met.
pub open spec fn most_open(hands: Seq<Hand>, n: int) -> nat
    decreases n,
{
    if n <= 0 {
        0
    } else {
        let p = most_open(hands, n - 1);
        if hands[n - 1].peak > p {
            hands[n - 1].peak
        } else {
            p
        }
    }
}

/// The answer an end is.
pub open spec fn tells<N: Number>(
    e: Ending,
    a: Answer,
    t: &Tree<N>,
    record: bool,
    max_outcomes: usize,
) -> bool {
    match e {
        Ending::Yes(m) => a matches Answer::Yes(s) && reports(s, t, record, m),
        Ending::No => a is No,
        Ending::Failed => a matches Answer::Failed(text) && text@ == error_text(
            StepError::TooManyOutcomes(max_outcomes),
        ),
    }
}

/// The counters, but for the time, are those of a scene.
pub open spec fn tallies(s: Stats, c: Scene) -> bool {
    &&& s.expanded == looked_at(c.hands, c.hands.len() as int)
    &&& s.peak_open == most_open(c.hands, c.hands.len() as int)
    &&& s.histories == c.lore.names.len()
    &&& s.choice_states == c.lore.states.len()
    &&& s.macro_steps == c.lore.macro_steps
    &&& s.outcomes == c.lore.outcomes
}

/// This is how a search ends that no clock cuts short.
pub open spec fn played<N: Number>(
    t: &Tree<N>,
    x: Rules<N::Value>,
    workers: nat,
    seed: u64,
    record: bool,
    a: Answer,
    s: Stats,
) -> bool {
    if !holdable(opening(t), x.max_outcomes) {
        &&& tells(Ending::Failed, a, t, record, x.max_outcomes)
        &&& s.expanded == 0
        &&& s.histories == 0
        &&& s.choice_states == 0
        &&& s.macro_steps == 0
        &&& s.outcomes == 0
        &&& s.peak_open == 0
    } else {
        exists|steps: nat|
            {
                let end = #[trigger] play(t, x, scene_begins(t, workers, seed), 0, true, steps);
                &&& end matches Some((e, c))
                &&& tells(e, a, t, record, x.max_outcomes)
                &&& tallies(s, c)
            }
    }
}

/// A search that began with `b` has come to the turn of worker `w` in `c`.
#[verifier::opaque]
pub open spec fn comes_to<N: Number>(
    t: &Tree<N>,
    x: Rules<N::Value>,
    b: Scene,
    c: Scene,
    w: int,
    idle: bool,
) -> bool {
    exists|used: nat| #[trigger] in_steps(t, x, b, c, w, idle, used)
}

pub open spec fn in_steps<N: Number>(
    t: &Tree<N>,
    x: Rules<N::Value>,
    b: Scene,
    c: Scene,
    w: int,
    idle: bool,
    used: nat,
) -> bool {
    forall|rest: nat|
        play(t, x, b, 0, true, used + rest) == #[trigger] play(t, x, c, w, idle, rest)
}

/// A search that began with `b` has ended in `c` with this answer.
#[verifier::opaque]
pub open spec fn ended<N: Number>(
    t: &Tree<N>,
    x: Rules<N::Value>,
    b: Scene,
    c: Scene,
    a: Answer,
    record: bool,
) -> bool {
    exists|steps: nat, e: Ending|
        {
            &&& #[trigger] play(t, x, b, 0, true, steps) == Some((e, c))
            &&& #[trigger] tells(e, a, t, record, x.max_outcomes)
        }
}

/// A clock has cut a search short at a scene it comes to, in the turn of a
/// worker that has counted the node it holds and not looked at it.
pub open spec fn paused<N: Number>(
    t: &Tree<N>,
    x: Rules<N::Value>,
    workers: nat,
    seed: u64,
    s: Stats,
) -> bool {
    &&& holdable(opening(t), x.max_outcomes)
    &&& exists|c: Scene, w: int, idle: bool| #[trigger]
        comes_to(t, x, scene_begins(t, workers, seed), c, w, idle) && clock_struck(c, w) && tallies(
            s,
            counting(c, w),
        )
}

pub proof fn comes_first<N: Number>(t: &Tree<N>, x: Rules<N::Value>, b: Scene)
    ensures
        comes_to(t, x, b, b, 0, true),
{
    reveal(comes_to);
    assert(in_steps(t, x, b, b, 0, true, 0));
}

/// One turn further.
pub proof fn comes_next<N: Number>(
    t: &Tree<N>,
    x: Rules<N::Value>,
    b: Scene,
    c: Scene,
    w: int,
    idle: bool,
)
    requires
        comes_to(t, x, b, c, w, idle),
        0 <= w < c.hands.len(),
    ensures
        ({
            let d = turn_v(t, x, c.lore, c.hands[w], c.stacks, w);
            let n = after(c, w, d);
            match d.signal {
                Signal::Idle => comes_to(t, x, b, n, w + 1, idle),
                Signal::Busy => comes_to(t, x, b, n, w + 1, false),
                Signal::Accept(m) => exists|steps: nat| #[trigger]
                    play(t, x, b, 0, true, steps) == Some((Ending::Yes(m), n)),
                Signal::Fail => exists|steps: nat| #[trigger]
                    play(t, x, b, 0, true, steps) == Some((Ending::Failed, n)),
            }
        }),
{
    reveal(comes_to);
    let used = choose|used: nat| #[trigger] in_steps(t, x, b, c, w, idle, used);
    let d = turn_v(t, x, c.lore, c.hands[w], c.stacks, w);
    let n = after(c, w, d);
    let on = if d.signal is Busy {
        false
    } else {
        idle
    };
    if d.signal is Idle || d.signal is Busy {
        assert forall|rest: nat|
            play(t, x, b, 0, true, used + 1 + rest) == #[trigger] play(
                t,
                x,
                n,
                w + 1,
                on,
                rest,
            ) by {
            assert(play(t, x, c, w, idle, rest + 1) == play(t, x, b, 0, true, used + (rest + 1)));
            assert(used + (rest + 1) == used + 1 + rest);
        }
        assert(in_steps(t, x, b, n, w + 1, on, used + 1));
    } else {
        assert(play(t, x, c, w, idle, 1) == play(t, x, b, 0, true, used + 1));
    }
}

/// The end of a round: the next one begins, or the search is over.
pub proof fn comes_round<N: Number>(
    t: &Tree<N>,
    x: Rules<N::Value>,
    b: Scene,
    c: Scene,
    w: int,
    idle: bool,
)
    requires
        comes_to(t, x, b, c, w, idle),
        w >= c.hands.len(),
    ensures
        !idle ==> comes_to(t, x, b, c, 0, true),
        idle ==> exists|steps: nat| #[trigger]
            play(t, x, b, 0, true, steps) == Some((Ending::No, c)),
{
    reveal(comes_to);
    let used = choose|used: nat| #[trigger] in_steps(t, x, b, c, w, idle, used);
    if idle {
        assert(play(t, x, c, w, idle, 1) == play(t, x, b, 0, true, used + 1));
    } else {
        assert forall|rest: nat|
            play(t, x, b, 0, true, used + 1 + rest) == #[trigger] play(t, x, c, 0, true, rest) by {
            assert(play(t, x, c, w, idle, rest + 1) == play(t, x, b, 0, true, used + (rest + 1)));
            assert(used + (rest + 1) == used + 1 + rest);
        }
        assert(in_steps(t, x, b, c, 0, true, used + 1));
    }
}

pub proof fn ends<N: Number>(
    t: &Tree<N>,
    x: Rules<N::Value>,
    b: Scene,
    c: Scene,
    a: Answer,
    record: bool,
    e: Ending,
)
    requires
        exists|steps: nat| #[trigger] play(t, x, b, 0, true, steps) == Some((e, c)),
        tells(e, a, t, record, x.max_outcomes),
    ensures
        ended(t, x, b, c, a, record),
{
    reveal(ended);
}

/// More steps change nothing once a search has ended.
proof fn play_more<N: Number>(
    t: &Tree<N>,
    x: Rules<N::Value>,
    c: Scene,
    w: int,
    idle: bool,
    steps: nat,
    more: nat,
)
    requires
        play(t, x, c, w, idle, steps) is Some,
        steps <= more,
    ensures
        play(t, x, c, w, idle, more) == play(t, x, c, w, idle, steps),
    decreases steps,
{
    let (p, q) = ((steps - 1) as nat, (more - 1) as nat);
    if w >= c.hands.len() {
        if !idle {
            play_more(t, x, c, 0, true, p, q);
        }
    } else {
        let d = turn_v(t, x, c.lore, c.hands[w], c.stacks, w);
        let n = after(c, w, d);
        match d.signal {
            Signal::Idle => play_more(t, x, n, w + 1, idle, p, q),
            Signal::Busy => play_more(t, x, n, w + 1, false, p, q),
            _ => {},
        }
    }
}

/// The same answer, the same strategy and the same decisions.
pub open spec fn same_answer(a: Answer, b: Answer) -> bool {
    match a {
        Answer::Yes(s) => b matches Answer::Yes(r) && same_strategy(s, r),
        Answer::No => b is No,
        Answer::Timeout => b is Timeout,
        Answer::Failed(s) => b matches Answer::Failed(r) && s@ == r@,
    }
}

pub open spec fn same_strategy(s: Strategy, r: Strategy) -> bool {
    &&& s.frontier_size == r.frontier_size
    &&& s.histories == r.histories
    &&& s.decisions@.len() == r.decisions@.len()
    &&& forall|i: int|
        0 <= i < s.decisions@.len() ==> (#[trigger] s.decisions@[i]).0@ == r.decisions@[i].0@
            && s.decisions@[i].1 == r.decisions@[i].1
}

/// A search repeats: two of the same process under the same settings, none of
/// them cut short, give the same answer by the same way, and count the same.
pub proof fn searches_repeat<N: Number>(
    t: &Tree<N>,
    x: Rules<N::Value>,
    workers: nat,
    seed: u64,
    record: bool,
    a: (Answer, Stats),
    b: (Answer, Stats),
)
    requires
        played(t, x, workers, seed, record, a.0, a.1),
        played(t, x, workers, seed, record, b.0, b.1),
    ensures
        same_answer(a.0, b.0),
        a.1.expanded == b.1.expanded,
        a.1.peak_open == b.1.peak_open,
        a.1.histories == b.1.histories,
        a.1.choice_states == b.1.choice_states,
        a.1.macro_steps == b.1.macro_steps,
        a.1.outcomes == b.1.outcomes,
{
    if holdable(opening(t), x.max_outcomes) {
        let c = scene_begins(t, workers, seed);
        let p = choose|steps: nat|
            {
                let end = #[trigger] play(t, x, c, 0, true, steps);
                &&& end matches Some((e, c))
                &&& tells(e, a.0, t, record, x.max_outcomes)
                &&& tallies(a.1, c)
            };
        let q = choose|steps: nat|
            {
                let end = #[trigger] play(t, x, c, 0, true, steps);
                &&& end matches Some((e, c))
                &&& tells(e, b.0, t, record, x.max_outcomes)
                &&& tallies(b.1, c)
            };
        if p <= q {
            play_more(t, x, c, 0, true, p, q);
        } else {
            play_more(t, x, c, 0, true, q, p);
        }
        if let Answer::Yes(s) = a.0 {
            if let Answer::Yes(r) = b.0 {
                let (u, v) = (plain(s.decisions@), plain(r.decisions@));
                assert(u == v);
                assert(u.len() == s.decisions@.len() && v.len() == r.decisions@.len());
                assert forall|i: int| 0 <= i < s.decisions@.len() implies (
                #[trigger] s.decisions@[i]).0@ == r.decisions@[i].0@ && s.decisions@[i].1
                    == r.decisions@[i].1 by {
                    assert(u[i] == v[i]);
                }
            }
        }
    }
}

} // verus!
