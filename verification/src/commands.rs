//! The commands of the emitted model: what they say and what they do.
//!
//! A command is a guard and its outcomes, each a list of assignments with a
//! weight. One and the same command is rendered as a line of the model and read
//! as a change of the valuation. The lines of the module are the renderings of
//! the commands, and on every valuation a run of the model reaches the commands
//! do what the explored graph has for its state.

use vstd::prelude::*;
use crate::clocks::{
    clocks_begin, command, commands_move, model_run, plain, plain_facts, runs_tame, tame, ticked,
};
use crate::enclosure::some_psi;
use crate::envelope::tasks_first;
use crate::mdp::{
    follows, initial_reachable, kind_text, moves_of, reachable, reachable_on, runs, Step,
};
use crate::num::{exact, re, zeros_v, Number};
use crate::prism::{
    absorb_title_v, can_hold, choice_lines, choice_title_v, close_v, commands_v, down_lines,
    down_title_v, down_v, ff_title_v, formula_is_trigger, forward_lines, guard_holds, guard_is_rank,
    guard_v, holders_range, holders_v, mark_v, nature_lines, nature_title_v, section, start_v,
    up_lines, up_title_v, updates_v, var,
};
use crate::progress::{descends, inside, net_children, net_durations};
use crate::semantics::{best_is_least, closes, hands_over, psi, rank, started, Net, Vertex};
use crate::state::{paid, DONE, IDLE};
use crate::strategy::cost;
use crate::text::{decimal, joined};
use crate::tree::{task_ids, Kind, Tree};
use crate::unfolding::paid_re;

verus! {

// ---------------------------------------------------------------------------
// what a command says
// ---------------------------------------------------------------------------

/// One assignment of an update: a node starts, rests, is done or takes its
/// successor in the fast forward, or a decision leaves its mark on the trail.
pub enum Assign {
    Begin(int),
    Rest(int),
    Finish(int),
    Forward(int),
    Trail(int, bool),
}

/// What an outcome weighs: all, the probability of a draw, or what is left of
/// it.
pub enum Weight {
    Sure,
    Low(int),
    High(int),
}

pub struct Outcome {
    pub weight: Weight,
    pub update: Seq<Assign>,
}

/// When a command may fire: at the rank and the witness of the state, for the
/// closing of a sequence only where it hands over or only where it does not;
/// or at the end.
pub enum Guard {
    Ranked(int, int),
    Handing(int),
    Closing(int),
    Ended,
}

pub struct Command {
    pub head: Seq<char>,
    pub guard: Guard,
    pub outcomes: Seq<Outcome>,
    pub note: Seq<char>,
}

pub open spec fn assign_text(a: Assign) -> Seq<char> {
    match a {
        Assign::Begin(u) => "("@ + var(u) + "'=0)"@,
        Assign::Rest(u) => "("@ + var(u) + "'=-1)"@,
        Assign::Finish(u) => "("@ + var(u) + "'=-2)"@,
        Assign::Forward(u) => "(n"@ + decimal(u as nat) + "'=ff"@ + decimal(u as nat) + ")"@,
        Assign::Trail(u, low) => "(d"@ + decimal(u as nat) + "'="@ + (if low {
            "1"@
        } else {
            "2"@
        }) + ")"@,
    }
}

pub open spec fn update_text(s: Seq<Assign>) -> Seq<char> {
    joined(Seq::new(s.len(), |i: int| assign_text(s[i])), " & "@)
}

pub open spec fn outcome_text(o: Outcome) -> Seq<char> {
    match o.weight {
        Weight::Sure => update_text(o.update),
        Weight::Low(u) => "p"@ + decimal(u as nat) + " : "@ + update_text(o.update),
        Weight::High(u) => "(1-p"@ + decimal(u as nat) + ") : "@ + update_text(o.update),
    }
}

/// The condition that tells the two commands of a sequence apart.
pub open spec fn hand_text<N: Number>(t: &Tree<N>, u: int) -> Seq<char> {
    var(t.nodes@[u].low as int) + "=-2 & "@ + var(t.nodes@[u].high as int) + "=-1"@
}

pub open spec fn guard_text<N: Number>(t: &Tree<N>, b: Guard) -> Seq<char> {
    match b {
        Guard::Ranked(i, u) => guard_v(i, u),
        Guard::Handing(u) => guard_v(3, u) + " & ("@ + hand_text(t, u) + ")"@,
        Guard::Closing(u) => guard_v(3, u) + " & !("@ + hand_text(t, u) + ")"@,
        Guard::Ended => var(t.root as int) + "=-2"@,
    }
}

/// The line of a command.
pub open spec fn command_text<N: Number>(t: &Tree<N>, c: Command) -> Seq<char> {
    c.head + guard_text(t, c.guard) + " -> "@ + joined(
        Seq::new(c.outcomes.len(), |i: int| outcome_text(c.outcomes[i])),
        " + "@,
    ) + ";"@ + c.note
}

pub open spec fn command_texts<N: Number>(t: &Tree<N>, cs: Seq<Command>) -> Seq<Seq<char>> {
    Seq::new(cs.len(), |i: int| command_text(t, cs[i]))
}

// ---------------------------------------------------------------------------
// what a command does
// ---------------------------------------------------------------------------

/// The guard of a command, read in a valuation.
pub open spec fn enabled<N: Number>(t: &Tree<N>, e: Seq<int>, b: Guard) -> bool {
    let g = t.net().nodes;
    let s = plain(g, e);
    match b {
        Guard::Ranked(i, u) => guard_holds(g, s, i, u),
        Guard::Handing(u) => guard_holds(g, s, 3, u) && s[g[u].low] == DONE && s[g[u].high] == IDLE,
        Guard::Closing(u) => guard_holds(g, s, 3, u) && !(s[g[u].low] == DONE && s[g[u].high] == IDLE),
        Guard::Ended => e[t.root as int] == DONE,
    }
}

/// An update, read in a valuation: the right sides are those before it.
pub open spec fn updated(n: Net, e: Seq<int>, s: Seq<Assign>) -> Seq<int>
    decreases s.len(),
{
    if s.len() == 0 {
        e
    } else {
        let f = updated(n, e, s.drop_last());
        match s.last() {
            Assign::Begin(u) => f.update(u, 0),
            Assign::Rest(u) => f.update(u, IDLE as int),
            Assign::Finish(u) => f.update(u, DONE as int),
            Assign::Forward(u) => f.update(u, ticked(n, e)[u]),
            Assign::Trail(u, low) => f,
        }
    }
}

/// The probability of an outcome.
pub open spec fn chance<N: Number>(t: &Tree<N>, w: Weight) -> N::Value {
    match w {
        Weight::Sure => N::one_v(),
        Weight::Low(u) => t.prob_v(u),
        Weight::High(u) => N::minus_v(N::one_v(), t.prob_v(u)),
    }
}

/// The reward of the fast forward in a component: the impacts of the closers
/// among the first `n` tasks.
pub open spec fn reward<N: Number>(t: &Tree<N>, e: Seq<int>, c: int, n: int) -> real
    decreases n,
{
    if n <= 0 {
        0 as real
    } else {
        let u = t.tasks@[n - 1] as int;
        reward(t, e, c, n - 1) + if closes(t.net().nodes, plain(t.net().nodes, e), u) {
            re::<N>(t.impact_v(u), c)
        } else {
            0 as real
        }
    }
}

// ---------------------------------------------------------------------------
// the commands of a process
// ---------------------------------------------------------------------------

/// A branch starts, with its mark where the history is encoded.
pub open spec fn branch_update<N: Number>(t: &Tree<N>, u: int, low: bool, history: bool) -> Seq<Assign> {
    let n = t.nodes@[u];
    let start = if low {
        Assign::Begin(n.low as int)
    } else {
        Assign::Begin(n.high as int)
    };
    if history {
        seq![start, Assign::Trail(u, low)]
    } else {
        seq![start]
    }
}

pub open spec fn choosing<N: Number>(t: &Tree<N>, u: int, low: bool, history: bool) -> Command {
    let d = decimal(u as nat);
    Command {
        head: "  [choice"@ + d + (if low {
            "low]  "@
        } else {
            "high] "@
        }),
        guard: Guard::Ranked(1, u),
        outcomes: seq![Outcome { weight: Weight::Sure, update: branch_update(t, u, low, history) }],
        note: Seq::empty(),
    }
}

pub open spec fn descending<N: Number>(t: &Tree<N>, u: int) -> Command {
    let n = t.nodes@[u];
    Command {
        head: "  [down"@ + decimal(u as nat) + "] "@,
        guard: Guard::Ranked(2, u),
        outcomes: seq![
            Outcome {
                weight: Weight::Sure,
                update: if n.kind == Kind::Sequence {
                    seq![Assign::Begin(n.low as int)]
                } else {
                    seq![Assign::Begin(n.low as int), Assign::Begin(n.high as int)]
                },
            },
        ],
        note: "  // "@ + kind_text(n.kind),
    }
}

pub open spec fn handing<N: Number>(t: &Tree<N>, u: int) -> Command {
    let n = t.nodes@[u];
    Command {
        head: "  [up"@ + decimal(u as nat) + "hand]  "@,
        guard: Guard::Handing(u),
        outcomes: seq![
            Outcome {
                weight: Weight::Sure,
                update: seq![Assign::Rest(n.low as int), Assign::Begin(n.high as int)],
            },
        ],
        note: Seq::empty(),
    }
}

pub open spec fn closing<N: Number>(t: &Tree<N>, u: int) -> Command {
    let n = t.nodes@[u];
    Command {
        head: "  [up"@ + decimal(u as nat) + "close] "@,
        guard: if n.kind == Kind::Sequence {
            Guard::Closing(u)
        } else {
            Guard::Ranked(3, u)
        },
        outcomes: seq![
            Outcome {
                weight: Weight::Sure,
                update: seq![
                    Assign::Rest(n.low as int),
                    Assign::Rest(n.high as int),
                    Assign::Finish(u),
                ],
            },
        ],
        note: if n.kind == Kind::Sequence {
            Seq::empty()
        } else {
            "  // "@ + kind_text(n.kind)
        },
    }
}

pub open spec fn drawing<N: Number>(t: &Tree<N>, u: int, history: bool) -> Command {
    Command {
        head: "  [nature"@ + decimal(u as nat) + "] "@,
        guard: Guard::Ranked(4, u),
        outcomes: seq![
            Outcome { weight: Weight::Low(u), update: branch_update(t, u, true, history) },
            Outcome { weight: Weight::High(u), update: branch_update(t, u, false, history) },
        ],
        note: Seq::empty(),
    }
}

/// Every node takes its successor.
pub open spec fn all_forward(n: nat) -> Seq<Assign> {
    Seq::new(n, |j: int| Assign::Forward(j + 1))
}

pub open spec fn forwarding<N: Number>(t: &Tree<N>, u: int) -> Command {
    Command {
        head: "  [ff] "@,
        guard: Guard::Ranked(5, u),
        outcomes: seq![Outcome { weight: Weight::Sure, update: all_forward(t.n_nodes as nat) }],
        note: Seq::empty(),
    }
}

/// The command of the end, which leaves it as it is.
pub open spec fn absorbing<N: Number>(t: &Tree<N>) -> Command {
    Command {
        head: "  [absorb] "@,
        guard: Guard::Ended,
        outcomes: seq![Outcome { weight: Weight::Sure, update: seq![Assign::Finish(t.root as int)] }],
        note: Seq::empty(),
    }
}

/// The commands of a trigger at a node.
pub open spec fn commands_at<N: Number>(t: &Tree<N>, i: int, u: int, history: bool) -> Seq<Command> {
    if i == 1 {
        seq![choosing(t, u, true, history), choosing(t, u, false, history)]
    } else if i == 2 {
        seq![descending(t, u)]
    } else if i == 3 {
        if t.nodes@[u].kind == Kind::Sequence {
            seq![handing(t, u), closing(t, u)]
        } else {
            seq![closing(t, u)]
        }
    } else if i == 4 {
        seq![drawing(t, u, history)]
    } else {
        seq![forwarding(t, u)]
    }
}

/// The commands of a trigger at the first `n` of these nodes.
pub open spec fn commands_upto<N: Number>(t: &Tree<N>, i: int, ids: Seq<u32>, n: int, history: bool) -> Seq<
    Command,
>
    decreases n,
{
    if n <= 0 {
        Seq::empty()
    } else {
        commands_upto(t, i, ids, n - 1, history) + commands_at(t, i, ids[n - 1] as int, history)
    }
}

/// The commands of a trigger.
pub open spec fn commands_of<N: Number>(t: &Tree<N>, i: int, history: bool) -> Seq<Command> {
    let ids = holders_v(t.net().nodes, i, t.n_nodes as int);
    commands_upto(t, i, ids, ids.len() as int, history)
}

/// All the commands of the model, in their order.
pub open spec fn all_commands<N: Number>(t: &Tree<N>, history: bool) -> Seq<Command> {
    (commands_of(t, 1, history) + commands_of(t, 2, history) + commands_of(t, 3, history)
        + commands_of(t, 4, history) + commands_of(t, 5, history)).push(absorbing(t))
}

// ---------------------------------------------------------------------------
// the lines are the commands
// ---------------------------------------------------------------------------

proof fn one(s: Seq<char>, sep: Seq<char>)
    ensures
        joined(seq![s], sep) == s,
{
}

proof fn two(a: Seq<char>, b: Seq<char>, sep: Seq<char>)
    ensures
        joined(seq![a, b], sep) == a + sep + b,
{
    assert(seq![a, b].drop_last() =~= seq![a]);
    one(a, sep);
}

proof fn three(a: Seq<char>, b: Seq<char>, c: Seq<char>, sep: Seq<char>)
    ensures
        joined(seq![a, b, c], sep) == a + sep + b + sep + c,
{
    assert(seq![a, b, c].drop_last() =~= seq![a, b]);
    two(a, b, sep);
}

proof fn update_one(a: Assign)
    ensures
        update_text(seq![a]) == assign_text(a),
{
    assert(Seq::new(1, |i: int| assign_text(seq![a][i])) =~= seq![assign_text(a)]);
    one(assign_text(a), " & "@);
}

proof fn update_two(a: Assign, b: Assign)
    ensures
        update_text(seq![a, b]) == assign_text(a) + " & "@ + assign_text(b),
{
    assert(Seq::new(2, |i: int| assign_text(seq![a, b][i])) =~= seq![assign_text(a), assign_text(b)]);
    two(assign_text(a), assign_text(b), " & "@);
}

proof fn update_three(a: Assign, b: Assign, c: Assign)
    ensures
        update_text(seq![a, b, c]) == assign_text(a) + " & "@ + assign_text(b) + " & "@ + assign_text(c),
{
    assert(Seq::new(3, |i: int| assign_text(seq![a, b, c][i])) =~= seq![
        assign_text(a),
        assign_text(b),
        assign_text(c),
    ]);
    three(assign_text(a), assign_text(b), assign_text(c), " & "@);
}

/// A command with one sure outcome.
proof fn sure_text<N: Number>(t: &Tree<N>, c: Command, update: Seq<Assign>)
    requires
        c.outcomes == seq![Outcome { weight: Weight::Sure, update }],
    ensures
        command_text(t, c) == c.head + guard_text(t, c.guard) + " -> "@ + update_text(update) + ";"@
            + c.note,
{
    let o = Outcome { weight: Weight::Sure, update };
    assert(Seq::new(c.outcomes.len(), |i: int| outcome_text(c.outcomes[i])) =~= seq![outcome_text(o)]);
    one(outcome_text(o), " + "@);
}

proof fn choosing_text<N: Number>(t: &Tree<N>, u: int, low: bool, history: bool)
    ensures
        command_text(t, choosing(t, u, low, history)) == "  [choice"@ + decimal(u as nat) + (if low {
            "low]  "@
        } else {
            "high] "@
        }) + guard_v(1, u) + " -> "@ + start_v(
            if low {
                t.nodes@[u].low as int
            } else {
                t.nodes@[u].high as int
            },
        ) + mark_v(
            u,
            if low {
                "1"@
            } else {
                "2"@
            },
            history,
        ) + ";"@,
{
    let c = choosing(t, u, low, history);
    branch_text(t, u, low, history);
    sure_text(t, c, branch_update(t, u, low, history));
    let (a, x, m) = (
        c.head + guard_v(1, u) + " -> "@,
        start_v(
            if low {
                t.nodes@[u].low as int
            } else {
                t.nodes@[u].high as int
            },
        ),
        mark_v(
            u,
            if low {
                "1"@
            } else {
                "2"@
            },
            history,
        ),
    );
    assert(a + (x + m) + ";"@ + Seq::<char>::empty() =~= a + x + m + ";"@);
}

proof fn branch_text<N: Number>(t: &Tree<N>, u: int, low: bool, history: bool)
    ensures
        update_text(branch_update(t, u, low, history)) == start_v(
            if low {
                t.nodes@[u].low as int
            } else {
                t.nodes@[u].high as int
            },
        ) + mark_v(
            u,
            if low {
                "1"@
            } else {
                "2"@
            },
            history,
        ),
{
    let a = if low {
        Assign::Begin(t.nodes@[u].low as int)
    } else {
        Assign::Begin(t.nodes@[u].high as int)
    };
    if history {
        reveal_strlit(" & (d");
        reveal_strlit(" & ");
        reveal_strlit("(d");
        update_two(a, Assign::Trail(u, low));
        assert(" & (d"@ =~= " & "@ + "(d"@);
        let rest = decimal(u as nat) + "'="@ + (if low {
            "1"@
        } else {
            "2"@
        }) + ")"@;
        assert(assign_text(Assign::Trail(u, low)) =~= "(d"@ + rest);
        assert(mark_v(
            u,
            if low {
                "1"@
            } else {
                "2"@
            },
            history,
        ) =~= " & "@ + "(d"@ + rest);
        let x = assign_text(a);
        assert(x + " & "@ + ("(d"@ + rest) =~= x + (" & "@ + "(d"@ + rest));
    } else {
        reveal_strlit("");
        update_one(a);
        assert(assign_text(a) + ""@ =~= assign_text(a));
    }
}

proof fn descending_text<N: Number>(t: &Tree<N>, u: int)
    ensures
        command_text(t, descending(t, u)) == "  [down"@ + decimal(u as nat) + "] "@ + guard_v(2, u)
            + " -> "@ + down_v(t, u) + ";  // "@ + kind_text(t.nodes@[u].kind),
{
    let (c, n) = (descending(t, u), t.nodes@[u]);
    let (a, b) = (Assign::Begin(n.low as int), Assign::Begin(n.high as int));
    reveal_strlit(";  // ");
    reveal_strlit(";");
    reveal_strlit("  // ");
    assert(";  // "@ =~= ";"@ + "  // "@);
    let x = c.head + guard_v(2, u) + " -> "@ + down_v(t, u);
    let k = kind_text(n.kind);
    if n.kind == Kind::Sequence {
        update_one(a);
        sure_text(t, c, seq![a]);
    } else {
        update_two(a, b);
        sure_text(t, c, seq![a, b]);
    }
    assert(x + ";"@ + ("  // "@ + k) =~= x + (";"@ + "  // "@) + k);
}

proof fn handing_text<N: Number>(t: &Tree<N>, u: int)
    ensures
        ({
            let (low, high) = (var(t.nodes@[u].low as int), var(t.nodes@[u].high as int));
            command_text(t, handing(t, u)) == "  [up"@ + decimal(u as nat) + "hand]  "@ + guard_v(3, u)
                + " & ("@ + (low + "=-2 & "@ + high + "=-1"@) + ") -> ("@ + low + "'=-1) & ("@ + high
                + "'=0);"@
        }),
{
    let (c, n) = (handing(t, u), t.nodes@[u]);
    let (a, b) = (Assign::Rest(n.low as int), Assign::Begin(n.high as int));
    let (low, high) = (var(n.low as int), var(n.high as int));
    update_two(a, b);
    sure_text(t, c, seq![a, b]);
    reveal_strlit(") -> (");
    reveal_strlit(")");
    reveal_strlit(" -> ");
    reveal_strlit("(");
    reveal_strlit("'=-1) & (");
    reveal_strlit("'=-1)");
    reveal_strlit(" & ");
    reveal_strlit("'=0);");
    reveal_strlit("'=0)");
    reveal_strlit(";");
    assert(") -> ("@ =~= ")"@ + " -> "@ + "("@);
    assert("'=-1) & ("@ =~= "'=-1)"@ + " & "@ + "("@);
    assert("'=0);"@ =~= "'=0)"@ + ";"@);
    let x = c.head + guard_v(3, u);
    let h = hand_text(t, u);
    let y = x + " & ("@ + h;
    assert(x + (guard_text(t, c.guard).skip(guard_v(3, u).len() as int)) =~= c.head + guard_text(
        t,
        c.guard,
    ));
    assert(c.head + guard_text(t, c.guard) =~= y + ")"@);
    let left = y + ")"@ + " -> "@ + ("("@ + low + "'=-1)"@ + " & "@ + ("("@ + high + "'=0)"@)) + ";"@
        + Seq::<char>::empty();
    let right = y + (")"@ + " -> "@ + "("@) + low + ("'=-1)"@ + " & "@ + "("@) + high + ("'=0)"@ + ";"@);
    assert(left =~= right);
}

proof fn closing_text<N: Number>(t: &Tree<N>, u: int)
    ensures
        ({
            let n = t.nodes@[u];
            let (low, high, me) = (var(n.low as int), var(n.high as int), var(u));
            let head = "  [up"@ + decimal(u as nat) + "close] "@ + guard_v(3, u);
            command_text(t, closing(t, u)) == if n.kind == Kind::Sequence {
                head + " & !("@ + (low + "=-2 & "@ + high + "=-1"@) + ") -> "@ + close_v(low, high, me)
                    + ";"@
            } else {
                head + " -> "@ + close_v(low, high, me) + ";  // "@ + kind_text(n.kind)
            }
        }),
{
    let (c, n) = (closing(t, u), t.nodes@[u]);
    let (a, b, d) = (Assign::Rest(n.low as int), Assign::Rest(n.high as int), Assign::Finish(u));
    let (low, high, me) = (var(n.low as int), var(n.high as int), var(u));
    update_three(a, b, d);
    sure_text(t, c, seq![a, b, d]);
    reveal_strlit(") -> ");
    reveal_strlit(")");
    reveal_strlit(" -> ");
    reveal_strlit("(");
    reveal_strlit("'=-1) & (");
    reveal_strlit("'=-1)");
    reveal_strlit(" & ");
    assert(") -> "@ =~= ")"@ + " -> "@);
    assert("'=-1) & ("@ =~= "'=-1)"@ + " & "@ + "("@);
    let body = update_text(seq![a, b, d]);
    assert(body =~= close_v(low, high, me)) by {
        let l = "("@ + low + "'=-1)"@ + " & "@ + ("("@ + high + "'=-1)"@) + " & "@ + ("("@ + me + "'=-2)"@);
        let r = "("@ + low + ("'=-1)"@ + " & "@ + "("@) + high + ("'=-1)"@ + " & "@ + "("@) + me + "'=-2)"@;
        assert(l =~= r);
    }
    if n.kind == Kind::Sequence {
        let y = c.head + guard_v(3, u) + " & !("@ + hand_text(t, u);
        assert(c.head + guard_text(t, c.guard) =~= y + ")"@);
        assert(y + ")"@ + " -> "@ + body + ";"@ + Seq::<char>::empty() =~= y + (")"@ + " -> "@) + body
            + ";"@);
    } else {
        reveal_strlit(";  // ");
        reveal_strlit(";");
        reveal_strlit("  // ");
        assert(";  // "@ =~= ";"@ + "  // "@);
        let x = c.head + guard_v(3, u) + " -> "@ + body;
        let k = kind_text(n.kind);
        assert(x + ";"@ + ("  // "@ + k) =~= x + (";"@ + "  // "@) + k);
    }
}

proof fn drawing_text<N: Number>(t: &Tree<N>, u: int, history: bool)
    ensures
        ({
            let n = t.nodes@[u];
            let d = decimal(u as nat);
            command_text(t, drawing(t, u, history)) == "  [nature"@ + d + "] "@ + guard_v(4, u)
                + " -> p"@ + d + " : "@ + start_v(n.low as int) + mark_v(u, "1"@, history) + " + (1-p"@
                + d + ") : "@ + start_v(n.high as int) + mark_v(u, "2"@, history) + ";"@
        }),
{
    let c = drawing(t, u, history);
    let d = decimal(u as nat);
    let (x, y) = (branch_update(t, u, true, history), branch_update(t, u, false, history));
    branch_text(t, u, true, history);
    branch_text(t, u, false, history);
    let (o, q) = (c.outcomes[0], c.outcomes[1]);
    assert(Seq::new(c.outcomes.len(), |i: int| outcome_text(c.outcomes[i])) =~= seq![
        outcome_text(o),
        outcome_text(q),
    ]);
    two(outcome_text(o), outcome_text(q), " + "@);
    reveal_strlit(" -> p");
    reveal_strlit(" -> ");
    reveal_strlit("p");
    reveal_strlit(" + (1-p");
    reveal_strlit(" + ");
    reveal_strlit("(1-p");
    assert(" -> p"@ =~= " -> "@ + "p"@);
    assert(" + (1-p"@ =~= " + "@ + "(1-p"@);
    let a = c.head + guard_v(4, u);
    let (s, m) = (start_v(t.nodes@[u].low as int), mark_v(u, "1"@, history));
    let (r, k) = (start_v(t.nodes@[u].high as int), mark_v(u, "2"@, history));
    let first = "p"@ + d + " : "@ + (s + m);
    let second = "(1-p"@ + d + ") : "@ + (r + k);
    let w = a + " -> "@;
    let v = w + "p"@ + d + " : "@ + s + m;
    assert(w + (first + " + "@ + second) == w + first + " + "@ + second) by {
        glue(w, first + " + "@, second);
        glue(w, first, " + "@);
    }
    assert(w + first == v) by {
        spread(w, "p"@, d, " : "@, s, m);
    }
    assert(v + " + "@ + second == v + " + "@ + "(1-p"@ + d + ") : "@ + r + k) by {
        spread(v + " + "@, "(1-p"@, d, ") : "@, r, k);
    }
    glue(a, " -> "@, "p"@);
    glue(v, " + "@, "(1-p"@);
    let all = v + " + "@ + "(1-p"@ + d + ") : "@ + r + k + ";"@;
    assert(all + Seq::<char>::empty() =~= all);
}

proof fn glue(a: Seq<char>, b: Seq<char>, c: Seq<char>)
    ensures
        a + (b + c) == a + b + c,
{
    assert(a + (b + c) =~= a + b + c);
}

proof fn spread(w: Seq<char>, a: Seq<char>, b: Seq<char>, c: Seq<char>, d: Seq<char>, e: Seq<char>)
    ensures
        w + (a + b + c + (d + e)) == w + a + b + c + d + e,
{
    glue(w, a + b + c, d + e);
    glue(w, a + b, c);
    glue(w, a, b);
    glue(w + a + b + c, d, e);
}

proof fn forwarding_text<N: Number>(t: &Tree<N>, u: int)
    ensures
        command_text(t, forwarding(t, u)) == "  [ff] rank5 & wit5_"@ + decimal(u as nat) + " -> "@
            + updates_v(t.n_nodes as nat) + ";"@,
{
    let c = forwarding(t, u);
    let n = t.n_nodes as nat;
    let all = all_forward(n);
    sure_text(t, c, all);
    assert(update_text(all) == updates_v(n)) by {
        assert(Seq::new(all.len(), |i: int| assign_text(all[i])) =~= Seq::new(
            n,
            |j: int| "(n"@ + decimal((j + 1) as nat) + "'=ff"@ + decimal((j + 1) as nat) + ")"@,
        ));
    }
    reveal_strlit("  [ff] rank5 & wit5_");
    reveal_strlit("  [ff] ");
    reveal_strlit("rank");
    reveal_strlit(" & wit");
    reveal_strlit("_");
    assert(decimal(5) =~= seq!['5']);
    let d = decimal(u as nat);
    assert("  [ff] rank5 & wit5_"@ =~= "  [ff] "@ + "rank"@ + decimal(5) + " & wit"@ + decimal(5) + "_"@);
    assert(c.head + guard_v(5, u) =~= "  [ff] rank5 & wit5_"@ + d);
    let x = c.head + guard_v(5, u) + " -> "@ + updates_v(n) + ";"@;
    assert(x + Seq::<char>::empty() =~= x);
}

proof fn absorbing_text<N: Number>(t: &Tree<N>)
    ensures
        command_text(t, absorbing(t)) == "  [absorb] "@ + var(t.root as int) + "=-2 -> ("@ + var(
            t.root as int,
        ) + "'=-2);"@,
{
    let c = absorbing(t);
    let a = Assign::Finish(t.root as int);
    let r = var(t.root as int);
    update_one(a);
    sure_text(t, c, seq![a]);
    reveal_strlit("=-2 -> (");
    reveal_strlit("=-2");
    reveal_strlit(" -> ");
    reveal_strlit("(");
    reveal_strlit("'=-2);");
    reveal_strlit("'=-2)");
    reveal_strlit(";");
    assert("=-2 -> ("@ =~= "=-2"@ + " -> "@ + "("@);
    assert("'=-2);"@ =~= "'=-2)"@ + ";"@);
    let left = c.head + (r + "=-2"@) + " -> "@ + ("("@ + r + "'=-2)"@) + ";"@ + Seq::<char>::empty();
    let right = c.head + r + ("=-2"@ + " -> "@ + "("@) + r + ("'=-2)"@ + ";"@);
    assert(left =~= right);
}

/// The lines of the choices.
proof fn choices_rendered<N: Number>(t: &Tree<N>, ids: Seq<u32>, n: int, history: bool)
    requires
        0 <= n <= ids.len(),
    ensures
        choice_lines(t, ids, n, history) == command_texts(t, commands_upto(t, 1, ids, n, history)),
    decreases n,
{
    if n > 0 {
        let u = ids[n - 1] as int;
        choices_rendered(t, ids, n - 1, history);
        choosing_text(t, u, true, history);
        choosing_text(t, u, false, history);
        assert(choice_lines(t, ids, n, history) =~= command_texts(t, commands_upto(t, 1, ids, n, history)));
    } else {
        assert(command_texts(t, Seq::<Command>::empty()) =~= Seq::empty());
    }
}

/// The lines of the descents.
proof fn descents_rendered<N: Number>(t: &Tree<N>, ids: Seq<u32>, n: int, history: bool)
    requires
        0 <= n <= ids.len(),
    ensures
        down_lines(t, ids, n) == command_texts(t, commands_upto(t, 2, ids, n, history)),
    decreases n,
{
    if n > 0 {
        let u = ids[n - 1] as int;
        descents_rendered(t, ids, n - 1, history);
        descending_text(t, u);
        assert(down_lines(t, ids, n) =~= command_texts(t, commands_upto(t, 2, ids, n, history)));
    } else {
        assert(command_texts(t, Seq::<Command>::empty()) =~= Seq::empty());
    }
}

/// The lines of the closings.
proof fn closings_rendered<N: Number>(t: &Tree<N>, ids: Seq<u32>, n: int, history: bool)
    requires
        0 <= n <= ids.len(),
    ensures
        up_lines(t, ids, n) == command_texts(t, commands_upto(t, 3, ids, n, history)),
    decreases n,
{
    if n > 0 {
        let u = ids[n - 1] as int;
        closings_rendered(t, ids, n - 1, history);
        handing_text(t, u);
        closing_text(t, u);
        assert(up_lines(t, ids, n) =~= command_texts(t, commands_upto(t, 3, ids, n, history)));
    } else {
        assert(command_texts(t, Seq::<Command>::empty()) =~= Seq::empty());
    }
}

/// The lines of the draws.
proof fn draws_rendered<N: Number>(t: &Tree<N>, ids: Seq<u32>, n: int, history: bool)
    requires
        0 <= n <= ids.len(),
    ensures
        nature_lines(t, ids, n, history) == command_texts(t, commands_upto(t, 4, ids, n, history)),
    decreases n,
{
    if n > 0 {
        let u = ids[n - 1] as int;
        draws_rendered(t, ids, n - 1, history);
        drawing_text(t, u, history);
        assert(nature_lines(t, ids, n, history) =~= command_texts(t, commands_upto(t, 4, ids, n, history)));
    } else {
        assert(command_texts(t, Seq::<Command>::empty()) =~= Seq::empty());
    }
}

/// The lines of the fast forward.
proof fn forwards_rendered<N: Number>(t: &Tree<N>, ids: Seq<u32>, n: int, history: bool)
    requires
        0 <= n <= ids.len(),
        ids == t.tasks@,
    ensures
        forward_lines(t, n) == command_texts(t, commands_upto(t, 5, ids, n, history)),
    decreases n,
{
    if n > 0 {
        let u = ids[n - 1] as int;
        forwards_rendered(t, ids, n - 1, history);
        forwarding_text(t, u);
        assert(forward_lines(t, n) =~= command_texts(t, commands_upto(t, 5, ids, n, history)));
    } else {
        assert(command_texts(t, Seq::<Command>::empty()) =~= Seq::empty());
    }
}

proof fn tasks_hold(g: Seq<Vertex>, n: int)
    ensures
        holders_v(g, 5, n) == task_ids(g, n),
    decreases n,
{
    if n > 0 {
        tasks_hold(g, n - 1);
    }
}

/// The lines the module writes for its commands are the renderings of the
/// commands, trigger by trigger, each under its title; the command of the end
/// comes last.
pub proof fn commands_are_written<N: Number>(t: &Tree<N>, history: bool)
    requires
        t.wf(),
    ensures
        commands_v(t, history).push(
            "  [absorb] "@ + var(t.root as int) + "=-2 -> ("@ + var(t.root as int) + "'=-2);"@,
        ) == (section(choice_title_v(), command_texts(t, commands_of(t, 1, history))) + section(
            down_title_v(),
            command_texts(t, commands_of(t, 2, history)),
        ) + section(up_title_v(), command_texts(t, commands_of(t, 3, history))) + section(
            nature_title_v(),
            command_texts(t, commands_of(t, 4, history)),
        ) + ff_title_v() + command_texts(t, commands_of(t, 5, history)) + absorb_title_v()).push(
            command_text(t, absorbing(t)),
        ),
{
    let g = t.net().nodes;
    let n = t.n_nodes as int;
    let (a, b, c, d) = (holders_v(g, 1, n), holders_v(g, 2, n), holders_v(g, 3, n), holders_v(g, 4, n));
    choices_rendered(t, a, a.len() as int, history);
    descents_rendered(t, b, b.len() as int, history);
    closings_rendered(t, c, c.len() as int, history);
    draws_rendered(t, d, d.len() as int, history);
    tasks_hold(g, n);
    forwards_rendered(t, t.tasks@, t.tasks@.len() as int, history);
    absorbing_text(t);
}

// ---------------------------------------------------------------------------
// the model does what the process does
// ---------------------------------------------------------------------------

/// A command of a trigger at a node.
pub open spec fn belongs<N: Number>(t: &Tree<N>, history: bool, i: int, u: int, c: Command) -> bool {
    &&& 1 <= i <= 5
    &&& 1 <= u <= t.n_nodes
    &&& can_hold(t.net().nodes[u].kind, i)
    &&& commands_at(t, i, u, history).contains(c)
}

proof fn upto_members<N: Number>(
    t: &Tree<N>,
    i: int,
    ids: Seq<u32>,
    n: int,
    history: bool,
    c: Command,
)
    requires
        0 <= n <= ids.len(),
    ensures
        commands_upto(t, i, ids, n, history).contains(c) <==> exists|j: int|
            0 <= j < n && commands_at(t, i, #[trigger] ids[j] as int, history).contains(c),
    decreases n,
{
    if n > 0 {
        upto_members(t, i, ids, n - 1, history, c);
        let a = commands_upto(t, i, ids, n - 1, history);
        let b = commands_at(t, i, ids[n - 1] as int, history);
        if (a + b).contains(c) {
            let x = (a + b).index_of(c);
            if x < a.len() {
                assert(a[x] == c);
            } else {
                assert(b[x - a.len()] == c);
            }
        }
        if a.contains(c) {
            assert((a + b)[a.index_of(c)] == c);
        }
        if b.contains(c) {
            assert((a + b)[a.len() + b.index_of(c)] == c);
        }
    }
}

proof fn of_members<N: Number>(t: &Tree<N>, i: int, history: bool, c: Command)
    requires
        t.wf(),
        1 <= i <= 5,
    ensures
        commands_of(t, i, history).contains(c) <==> exists|u: int| belongs(t, history, i, u, c),
{
    let g = t.net().nodes;
    let n = t.n_nodes as int;
    let ids = holders_v(g, i, n);
    holders_range(g, i, n);
    upto_members(t, i, ids, ids.len() as int, history, c);
    if commands_of(t, i, history).contains(c) {
        let j = choose|j: int|
            0 <= j < ids.len() && commands_at(t, i, #[trigger] ids[j] as int, history).contains(c);
        assert(belongs(t, history, i, ids[j] as int, c));
    }
    if exists|u: int| belongs(t, history, i, u, c) {
        let u = choose|u: int| belongs(t, history, i, u, c);
        assert(can_hold(g[u].kind, i));
        let j = ids.index_of(u as u32);
        assert(ids[j] == u);
    }
}

/// The commands of the model are those of its triggers at their nodes, and the
/// one of the end.
proof fn all_members<N: Number>(t: &Tree<N>, history: bool, c: Command)
    requires
        t.wf(),
    ensures
        all_commands(t, history).contains(c) <==> c == absorbing(t) || exists|i: int, u: int|
            belongs(t, history, i, u, c),
{
    let parts = Seq::new(5, |i: int| commands_of(t, i + 1, history));
    let (a, b, d, e, f) = (parts[0], parts[1], parts[2], parts[3], parts[4]);
    let all = all_commands(t, history);
    of_members(t, 1, history, c);
    of_members(t, 2, history, c);
    of_members(t, 3, history, c);
    of_members(t, 4, history, c);
    of_members(t, 5, history, c);
    let (p, q, r) = (a.len() as int, (a.len() + b.len()) as int, (a.len() + b.len() + d.len()) as int);
    let (x, y) = (r + e.len(), r + e.len() + f.len());
    assert(all.len() == y + 1);
    assert(all[y] == absorbing(t));
    if all.contains(c) {
        let i = all.index_of(c);
        if i < p {
            assert(a[i] == c);
        } else if i < q {
            assert(b[i - p] == c);
        } else if i < r {
            assert(d[i - q] == c);
        } else if i < x {
            assert(e[i - r] == c);
        } else if i < y {
            assert(f[i - x] == c);
        }
    }
    if exists|i: int, u: int| belongs(t, history, i, u, c) {
        let (i, u) = choose|i: int, u: int| belongs(t, history, i, u, c);
        assert(belongs(t, history, i, u, c));
        let at = parts[i - 1].index_of(c);
        let base = if i == 1 {
            0
        } else if i == 2 {
            p
        } else if i == 3 {
            q
        } else if i == 4 {
            r
        } else {
            x
        };
        assert(parts[i - 1].contains(c));
        assert(all[base + at] == c);
    }
}

/// A command of the model fires with one of its outcomes.
pub open spec fn fires<N: Number>(
    t: &Tree<N>,
    history: bool,
    e: Seq<int>,
    c: Command,
    o: Outcome,
    f: Seq<int>,
) -> bool {
    &&& all_commands(t, history).contains(c)
    &&& enabled(t, e, c.guard)
    &&& c.outcomes.contains(o)
    &&& f == updated(t.net(), e, o.update)
}

proof fn forward_updates(n: Net, e: Seq<int>, m: nat)
    requires
        m < e.len(),
        e.len() == n.nodes.len(),
    ensures
        updated(n, e, all_forward(m)) == Seq::new(
            e.len(),
            |u: int| if 1 <= u <= m { ticked(n, e)[u] } else { e[u] },
        ),
    decreases m,
{
    let s = all_forward(m);
    if m == 0 {
        assert(updated(n, e, s) =~= Seq::new(e.len(), |u: int| e[u]));
        assert(Seq::new(e.len(), |u: int| if 1 <= u <= m { ticked(n, e)[u] } else { e[u] }) =~= e);
    } else {
        let k = (m - 1) as nat;
        forward_updates(n, e, k);
        assert(s.drop_last() =~= all_forward(k));
        assert(s.last() == Assign::Forward(m as int));
        assert(updated(n, e, s) =~= Seq::new(
            e.len(),
            |u: int| if 1 <= u <= m { ticked(n, e)[u] } else { e[u] },
        ));
    }
}

proof fn updated_one(n: Net, e: Seq<int>, a: Assign)
    ensures
        updated(n, e, seq![a]) == match a {
            Assign::Begin(u) => e.update(u, 0),
            Assign::Rest(u) => e.update(u, IDLE as int),
            Assign::Finish(u) => e.update(u, DONE as int),
            Assign::Forward(u) => e.update(u, ticked(n, e)[u]),
            Assign::Trail(u, low) => e,
        },
{
    assert(seq![a].drop_last() =~= Seq::empty());
    assert(updated(n, e, seq![a].drop_last()) == e);
}

proof fn updated_two(n: Net, e: Seq<int>, a: Assign, b: Assign)
    ensures
        updated(n, e, seq![a, b]) == match b {
            Assign::Begin(u) => updated(n, e, seq![a]).update(u, 0),
            Assign::Rest(u) => updated(n, e, seq![a]).update(u, IDLE as int),
            Assign::Finish(u) => updated(n, e, seq![a]).update(u, DONE as int),
            Assign::Forward(u) => updated(n, e, seq![a]).update(u, ticked(n, e)[u]),
            Assign::Trail(u, low) => updated(n, e, seq![a]),
        },
{
    assert(seq![a, b].drop_last() =~= seq![a]);
}

/// What the commands of a process make of a valuation.
proof fn effects<N: Number>(t: &Tree<N>, e: Seq<int>, u: int, history: bool)
    requires
        t.wf(),
        e.len() == t.net().nodes.len(),
        1 <= u <= t.n_nodes,
    ensures
        ({
            let n = t.net();
            let (l, h) = (n.nodes[u].low, n.nodes[u].high);
            &&& updated(n, e, branch_update(t, u, true, history)) == e.update(l, 0)
            &&& updated(n, e, branch_update(t, u, false, history)) == e.update(h, 0)
            &&& updated(n, e, descending(t, u).outcomes[0].update) == if n.nodes[u].kind
                == Kind::Sequence {
                e.update(l, 0)
            } else {
                e.update(l, 0).update(h, 0)
            }
            &&& updated(n, e, handing(t, u).outcomes[0].update) == e.update(l, IDLE as int).update(h, 0)
            &&& updated(n, e, closing(t, u).outcomes[0].update) == e.update(l, IDLE as int).update(
                h,
                IDLE as int,
            ).update(u, DONE as int)
            &&& updated(n, e, forwarding(t, u).outcomes[0].update) == ticked(n, e)
        }),
{
    let n = t.net();
    let (l, h) = (n.nodes[u].low, n.nodes[u].high);
    updated_one(n, e, Assign::Begin(l));
    updated_one(n, e, Assign::Begin(h));
    updated_one(n, e, Assign::Rest(l));
    updated_two(n, e, Assign::Begin(l), Assign::Begin(h));
    updated_two(n, e, Assign::Begin(l), Assign::Trail(u, true));
    updated_two(n, e, Assign::Begin(h), Assign::Trail(u, false));
    updated_two(n, e, Assign::Rest(l), Assign::Begin(h));
    updated_two(n, e, Assign::Rest(l), Assign::Rest(h));
    let s = seq![Assign::Rest(l), Assign::Rest(h), Assign::Finish(u)];
    assert(s.drop_last() =~= seq![Assign::Rest(l), Assign::Rest(h)]);
    forward_updates(n, e, t.n_nodes as nat);
    assert(updated(n, e, all_forward(t.n_nodes as nat)) =~= ticked(n, e));
}

/// The end is where no trigger holds.
proof fn ended<N: Number>(t: &Tree<N>, e: Seq<int>)
    requires
        t.wf(),
        tame(t.net(), e),
    ensures
        e[t.root as int] == DONE <==> rank(t.net().nodes, plain(t.net().nodes, e)) is None,
{
    let n = t.net();
    let (g, s) = (n.nodes, plain(n.nodes, e));
    plain_facts(n, e);
    net_durations(n);
    inside(g, n.root, 1, n.size());
    best_is_least(g, s, n.size());
    assert(s[n.root] == plain(g, e)[n.root]);
    if rank(g, s) is None {
        if s[n.root] >= 0 {
            some_psi(g, s, n.root, 1, n.size());
        }
    } else if e[n.root] == DONE {
        let (r, w) = rank(g, s).unwrap();
        net_children(n, w);
        descends(g, n.root, 1, n.size(), w);
        assert(psi(g, s, w) == r);
        assert(w != n.root ==> s[w] == IDLE);
        if g[w].kind != Kind::Task {
            assert(s[g[w].low] == IDLE);
            assert(s[g[w].high] == IDLE);
        }
    }
}

/// The commands that may fire are those of the rank and the witness.
proof fn enabled_at<N: Number>(t: &Tree<N>, e: Seq<int>, history: bool, c: Command)
    requires
        t.wf(),
        tame(t.net(), e),
    ensures
        ({
            let (g, s) = (t.net().nodes, plain(t.net().nodes, e));
            all_commands(t, history).contains(c) && enabled(t, e, c.guard) <==> match rank(g, s) {
                None => c == absorbing(t),
                Some(b) => {
                    &&& commands_at(t, b.0, b.1, history).contains(c)
                    &&& b.0 == 3 && c == handing(t, b.1) ==> hands_over(g, s, b.1)
                    &&& b.0 == 3 && c == closing(t, b.1) ==> !hands_over(g, s, b.1)
                },
            }
        }),
{
    let n = t.net();
    let (g, s) = (n.nodes, plain(n.nodes, e));
    all_members(t, history, c);
    ended(t, e);
    best_is_least(g, s, n.size());
    if exists|i: int, u: int| belongs(t, history, i, u, c) {
        let (i, u) = choose|i: int, u: int| belongs(t, history, i, u, c);
        assert(belongs(t, history, i, u, c));
        guard_is_rank(g, s, i, u);
        assert(c.guard == Guard::Ranked(i, u) || i == 3 && (c.guard == Guard::Handing(u) || c.guard
            == Guard::Closing(u)));
        if let Some(b) = rank(g, s) {
            guard_is_rank(g, s, b.0, b.1);
        }
    }
    if let Some(b) = rank(g, s) {
        guard_is_rank(g, s, b.0, b.1);
        formula_is_trigger(g, s, b.1, b.0);
        assert(can_hold(g[b.1].kind, b.0));
        if commands_at(t, b.0, b.1, history).contains(c) {
            assert(belongs(t, history, b.0, b.1, c));
        }
    }
}

/// A command that fires, at a valuation a run reaches.
proof fn fired<N: Number>(
    t: &Tree<N>,
    e: Seq<int>,
    history: bool,
    c: Command,
    o: Outcome,
    f: Seq<int>,
)
    requires
        t.wf(),
        tame(t.net(), e),
        fires(t, history, e, c, o, f),
    ensures
        command(t.net(), e, f),
{
    let n = t.net();
    let (g, s) = (n.nodes, plain(n.nodes, e));
    enabled_at(t, e, history, c);
    best_is_least(g, s, n.size());
    ended(t, e);
    match rank(g, s) {
        None => {
            updated_one(n, e, Assign::Finish(t.root as int));
            assert(e.update(n.root, DONE as int) =~= e);
        },
        Some(b) => {
            effects(t, e, b.1, history);
            formula_is_trigger(g, s, b.1, b.0);
        },
    }
}

/// The command and the outcome that make a valuation of another.
proof fn firing<N: Number>(t: &Tree<N>, e: Seq<int>, history: bool, f: Seq<int>) -> (r: (
    Command,
    Outcome,
))
    requires
        t.wf(),
        tame(t.net(), e),
        command(t.net(), e, f),
    ensures
        fires(t, history, e, r.0, r.1, f),
{
    let n = t.net();
    let (g, s) = (n.nodes, plain(n.nodes, e));
    best_is_least(g, s, n.size());
    ended(t, e);
    match rank(g, s) {
        None => {
            let c = absorbing(t);
            enabled_at(t, e, history, c);
            updated_one(n, e, Assign::Finish(t.root as int));
            assert(e.update(n.root, DONE as int) =~= e);
            assert(c.outcomes.contains(c.outcomes[0]));
            (c, c.outcomes[0])
        },
        Some(b) => {
            let (r, w) = b;
            effects(t, e, w, history);
            formula_is_trigger(g, s, w, r);
            let all = commands_at(t, r, w, history);
            let c = if r == 1 && f != e.update(g[w].low, 0) {
                all[1]
            } else if r == 3 && g[w].kind == Kind::Sequence && !hands_over(g, s, w) {
                all[1]
            } else {
                all[0]
            };
            assert(all.contains(c));
            let o = if r == 4 && f != e.update(g[w].low, 0) {
                c.outcomes[1]
            } else {
                c.outcomes[0]
            };
            enabled_at(t, e, history, c);
            assert(c.outcomes.contains(o));
            (c, o)
        },
    }
}

/// The steps of the model are those of its commands: on a valuation a run
/// reaches, one step leads to another valuation exactly where some command may
/// fire and one of its outcomes leads there. It makes no difference whether the
/// history is encoded.
pub proof fn steps_are_commands<N: Number>(
    t: &Tree<N>,
    run: Seq<Seq<int>>,
    history: bool,
    f: Seq<int>,
)
    requires
        t.wf(),
        model_run(t.net(), run),
    ensures
        command(t.net(), run.last(), f) <==> exists|c: Command, o: Outcome|
            fires(t, history, run.last(), c, o, f),
{
    let e = run.last();
    runs_tame(t.net(), run);
    if command(t.net(), e, f) {
        let (c, o) = firing(t, e, history, f);
        assert(fires(t, history, e, c, o, f));
    }
    if exists|c: Command, o: Outcome| fires(t, history, e, c, o, f) {
        let (c, o) = choose|c: Command, o: Outcome| fires(t, history, e, c, o, f);
        fired(t, e, history, c, o, f);
    }
}

/// The label the explored graph gives a move is that of a command with one of
/// its outcomes: a decision is a command of its own and starts the child, a draw
/// is one of two outcomes and has its probability, a descent and a closing are
/// commands at their node, and the fast forward is the command the rewards are
/// paid on, its cost being the reward in every component.
pub open spec fn labelled<N: Number>(
    t: &Tree<N>,
    e: Seq<int>,
    c: Command,
    o: Outcome,
    step: Step<N::Value>,
) -> bool {
    match step {
        Step::Action { child } => {
            &&& c.guard matches Guard::Ranked(i, u) && i == 1
            &&& c.outcomes.len() == 1
            &&& o.update[0] == Assign::Begin(child as int)
        },
        Step::Draw { child, prob } => {
            &&& c.guard matches Guard::Ranked(i, u) && i == 4
            &&& c.outcomes.len() == 2
            &&& o.update[0] == Assign::Begin(child as int)
            &&& chance(t, o.weight) == prob
        },
        Step::Down { at } => {
            &&& c.guard == Guard::Ranked(2, at as int)
            &&& c.outcomes.len() == 1
        },
        Step::Up { at } => {
            &&& c.guard == Guard::Ranked(3, at as int) || c.guard == Guard::Handing(at as int) || c.guard
                == Guard::Closing(at as int)
            &&& c.outcomes.len() == 1
        },
        Step::FastForward { t: time, cost } => {
            &&& c.guard matches Guard::Ranked(i, u) && i == 5
            &&& c.outcomes.len() == 1
            &&& c.head == "  [ff] "@
            &&& exact::<N>() ==> forall|j: int|
                0 <= j < t.k ==> #[trigger] re::<N>(cost, j) == reward(t, e, j, t.tasks@.len() as int)
        },
    }
}

/// What the rewards pay is what the tasks that complete cost.
proof fn reward_is_cost<N: Number>(t: &Tree<N>, e: Seq<int>, c: int, m: int)
    requires
        t.wf(),
        0 <= m <= t.n_nodes,
    ensures
        reward(t, e, c, task_ids(t.net().nodes, m).len() as int) == cost(
            t,
            plain(t.net().nodes, e),
            1,
            m,
            c,
        ),
    decreases m,
{
    let g = t.net().nodes;
    if m > 0 {
        reward_is_cost(t, e, c, m - 1);
        if g[m].kind == Kind::Task {
            tasks_first(g, m, t.n_nodes as int);
            let n = task_ids(g, m).len();
            assert(task_ids(g, m)[n - 1] == m as u32);
            assert(t.tasks@[n - 1] == m);
        }
    }
}

/// A move of the graph is a step of a command, and the other way round.
pub open spec fn agrees<N: Number>(
    t: &Tree<N>,
    e: Seq<int>,
    c: Command,
    o: Outcome,
    f: Seq<int>,
    q: int,
) -> bool {
    let g = t.net().nodes;
    let ms = moves_of(t, plain(g, e));
    &&& 0 <= q < ms.len()
    &&& plain(g, f) == ms[q].0
    &&& labelled(t, e, c, o, ms[q].1)
}

/// Some command performs a move of the graph.
pub open spec fn performed<N: Number>(t: &Tree<N>, history: bool, e: Seq<int>, q: int) -> bool {
    exists|c: Command, o: Outcome, f: Seq<int>|
        fires(t, history, e, c, o, f) && #[trigger] agrees(t, e, c, o, f, q)
}

proof fn move_of_command<N: Number>(
    t: &Tree<N>,
    e: Seq<int>,
    history: bool,
    c: Command,
    o: Outcome,
    f: Seq<int>,
) -> (q: int)
    requires
        t.wf(),
        tame(t.net(), e),
        fires(t, history, e, c, o, f),
        rank(t.net().nodes, plain(t.net().nodes, e)) is Some,
    ensures
        agrees(t, e, c, o, f, q),
{
    let n = t.net();
    let (g, s) = (n.nodes, plain(n.nodes, e));
    let (r, w) = rank(g, s).unwrap();
    best_is_least(g, s, n.size());
    enabled_at(t, e, history, c);
    effects(t, e, w, history);
    formula_is_trigger(g, s, w, r);
    net_children(n, w);
    plain_facts(n, e);
    fired(t, e, history, c, o, f);
    commands_move(n, e, f);
    let (l, h) = (g[w].low, g[w].high);
    if r == 1 || r == 4 {
        let low = o.update == branch_update(t, w, true, history);
        assert(low || o.update == branch_update(t, w, false, history));
        assert(o.update[0] == Assign::Begin(l) <==> low);
        if low {
            assert(plain(g, e.update(l, 0)) =~= started(s, l));
            0
        } else {
            assert(plain(g, e.update(h, 0)) =~= started(s, h));
            1
        }
    } else {
        if r == 5 {
            if exact::<N>() {
                let zero = zeros_v::<N>(t.k as nat);
                let all = paid(t, s, n.size(), zero);
                assert forall|j: int| 0 <= j < t.k implies #[trigger] re::<N>(all, j) == reward(
                    t,
                    e,
                    j,
                    t.tasks@.len() as int,
                ) by {
                    paid_re(t, s, n.size(), zero, j);
                    reward_is_cost(t, e, j, t.n_nodes as int);
                }
            }
        }
        0
    }
}

proof fn command_of_move<N: Number>(t: &Tree<N>, e: Seq<int>, history: bool, q: int) -> (r: (
    Command,
    Outcome,
    Seq<int>,
))
    requires
        t.wf(),
        tame(t.net(), e),
        0 <= q < moves_of(t, plain(t.net().nodes, e)).len(),
    ensures
        fires(t, history, e, r.0, r.1, r.2),
        agrees(t, e, r.0, r.1, r.2, q),
{
    let n = t.net();
    let (g, s) = (n.nodes, plain(n.nodes, e));
    let (r, w) = rank(g, s).unwrap();
    best_is_least(g, s, n.size());
    net_children(n, w);
    effects(t, e, w, history);
    formula_is_trigger(g, s, w, r);
    let (l, h) = (g[w].low, g[w].high);
    let all = commands_at(t, r, w, history);
    let c = if r == 1 && q == 1 {
        all[1]
    } else if r == 3 && g[w].kind == Kind::Sequence && !hands_over(g, s, w) {
        all[1]
    } else {
        all[0]
    };
    let o = if r == 4 && q == 1 {
        c.outcomes[1]
    } else {
        c.outcomes[0]
    };
    assert(all.contains(c));
    assert(c.outcomes.contains(o));
    enabled_at(t, e, history, c);
    let f = updated(n, e, o.update);
    let p = move_of_command(t, e, history, c, o, f);
    (c, o, f)
}

/// The model and the explored graph are the same: on every valuation a run of
/// the model reaches, each move the graph has for its state is a step of some
/// command with the same label, each step of a command is such a move, and at
/// the end, where the graph has no move, the one command left changes nothing.
pub proof fn model_is_graph<N: Number>(t: &Tree<N>, run: Seq<Seq<int>>, history: bool)
    requires
        t.wf(),
        model_run(t.net(), run),
    ensures
        ({
            let e = run.last();
            let s = plain(t.net().nodes, e);
            &&& forall|q: int|
                0 <= q < moves_of(t, s).len() ==> #[trigger] performed(t, history, e, q)
            &&& forall|c: Command, o: Outcome, f: Seq<int>| #[trigger]
                fires(t, history, e, c, o, f) ==> if moves_of(t, s).len() == 0 {
                    c == absorbing(t) && f == e
                } else {
                    exists|q: int| agrees(t, e, c, o, f, q)
                }
            &&& moves_of(t, s).len() == 0 ==> fires(
                t,
                history,
                e,
                absorbing(t),
                absorbing(t).outcomes[0],
                e,
            )
        }),
{
    let n = t.net();
    let e = run.last();
    let (g, s) = (n.nodes, plain(n.nodes, e));
    runs_tame(n, run);
    best_is_least(g, s, n.size());
    assert forall|q: int| 0 <= q < moves_of(t, s).len() implies #[trigger] performed(
        t,
        history,
        e,
        q,
    ) by {
        let (c, o, f) = command_of_move(t, e, history, q);
        assert(agrees(t, e, c, o, f, q));
    }
    assert forall|c: Command, o: Outcome, f: Seq<int>| #[trigger]
        fires(t, history, e, c, o, f) implies if moves_of(t, s).len() == 0 {
        c == absorbing(t) && f == e
    } else {
        exists|q: int| agrees(t, e, c, o, f, q)
    } by {
        enabled_at(t, e, history, c);
        fired(t, e, history, c, o, f);
        if rank(g, s) is Some {
            let q = move_of_command(t, e, history, c, o, f);
            assert(agrees(t, e, c, o, f, q));
        }
    }
    if moves_of(t, s).len() == 0 {
        let c = absorbing(t);
        enabled_at(t, e, history, c);
        ended(t, e);
        updated_one(n, e, Assign::Finish(t.root as int));
        assert(e.update(n.root, DONE as int) =~= e);
        assert(c.outcomes.contains(c.outcomes[0]));
    }
}

proof fn run_reaches<N: Number>(t: &Tree<N>, run: Seq<Seq<int>>)
    requires
        t.wf(),
        model_run(t.net(), run),
    ensures
        reachable(t, plain(t.net().nodes, run.last())),
    decreases run.len(),
{
    let n = t.net();
    if run.len() == 1 {
        initial_reachable(t);
        assert(plain(n.nodes, run[0]) =~= n.initial());
    } else {
        let before = run.drop_last();
        assert forall|i: int| 0 < i < before.len() implies command(
            n,
            before[i - 1],
            #[trigger] before[i],
        ) by {
            assert(command(n, run[i - 1], run[i]));
        }
        run_reaches(t, before);
        runs_tame(n, before);
        let (e, f) = (before.last(), run.last());
        assert(command(n, run[run.len() - 2], run[run.len() - 1]));
        if rank(n.nodes, plain(n.nodes, e)) is Some {
            let (c, o) = firing(t, e, false, f);
            let q = move_of_command(t, e, false, c, o, f);
            reachable_on(t, plain(n.nodes, e), q);
        }
    }
}

proof fn run_to<N: Number>(t: &Tree<N>, p: Seq<Seq<i8>>) -> (run: Seq<Seq<int>>)
    requires
        t.wf(),
        runs(t, p),
    ensures
        model_run(t.net(), run),
        plain(t.net().nodes, run.last()) == p.last(),
    decreases p.len(),
{
    let n = t.net();
    if p.len() == 1 {
        let run = seq![clocks_begin(n)];
        assert(plain(n.nodes, run[0]) =~= n.initial());
        run
    } else {
        let before = p.drop_last();
        assert forall|i: int| 0 <= i < before.len() - 1 implies #[trigger] follows(
            t,
            before[i],
            before[i + 1],
        ) by {
            assert(follows(t, p[i], p[i + 1]));
        }
        let run = run_to(t, before);
        let (s, x) = (before.last(), p.last());
        assert(follows(t, p[p.len() - 2], p[p.len() - 2 + 1]));
        let q = choose|q: int| 0 <= q < moves_of(t, s).len() && #[trigger] moves_of(t, s)[q].0 == x;
        runs_tame(n, run);
        let (c, o, f) = command_of_move(t, run.last(), false, q);
        fired(t, run.last(), false, c, o, f);
        let on = run.push(f);
        assert forall|i: int| 0 < i < on.len() implies command(n, on[i - 1], #[trigger] on[i]) by {
            if i < run.len() {
                assert(command(n, run[i - 1], run[i]));
            }
        }
        on
    }
}

/// A run of the model reaches the states of the explored graph, and no others.
pub proof fn model_reaches_graph<N: Number>(t: &Tree<N>, x: Seq<i8>)
    requires
        t.wf(),
    ensures
        reachable(t, x) <==> exists|run: Seq<Seq<int>>|
            #[trigger] model_run(t.net(), run) && plain(t.net().nodes, run.last()) == x,
{
    if reachable(t, x) {
        let p = choose|p: Seq<Seq<i8>>| runs(t, p) && p.last() == x;
        let run = run_to(t, p);
        assert(model_run(t.net(), run));
    }
    if exists|run: Seq<Seq<int>>| #[trigger]
        model_run(t.net(), run) && plain(t.net().nodes, run.last()) == x {
        let run = choose|run: Seq<Seq<int>>| #[trigger]
            model_run(t.net(), run) && plain(t.net().nodes, run.last()) == x;
        run_reaches(t, run);
    }
}

} // verus!
