//! What a reader of the dump learns from it.

use vstd::prelude::*;
use vstd::string::*;
use crate::decimal::{number_reads_back, shown_reads_back, Dec, Decimal};
use crate::layout::{digits_back, list_back, tidy, without};
use crate::mdp::{
    arrows, cost_text, dump_text, edge_line, edge_lines, moves_of, node_line, node_lines,
    number_texts, state_line, state_lines, state_views, step_text, value_texts, Arrow, Mdp, Step,
};
use crate::num::Number;
use crate::semantics::{advance, rank};
use crate::text::{decimal, joined, signed, texts};
use crate::tree::{Kind, Tree};
use crate::words::{is_digit, trim_v, split_v};

verus! {

// ---------------------------------------------------------------------------
// numerals
// ---------------------------------------------------------------------------

/// A numeral ends where its digits do, so a text tells which number it begins
/// with and what follows it.
pub proof fn numerals_end(n: nat, m: nat, u: Seq<char>, v: Seq<char>)
    requires
        decimal(n) + u == decimal(m) + v,
        u.len() == 0 || !is_digit(u[0]),
        v.len() == 0 || !is_digit(v[0]),
    ensures
        n == m,
        u == v,
{
    digits_back(n);
    digits_back(m);
    let (a, b) = (decimal(n), decimal(m));
    let (x, y) = (a + u, b + v);
    if a.len() < b.len() {
        assert(y[a.len() as int] == b[a.len() as int]);
        assert(is_digit(b[a.len() as int]));
        if u.len() > 0 {
            assert(x[a.len() as int] == u[0]);
        } else {
            assert(x.len() == a.len());
        }
    } else if b.len() < a.len() {
        assert(x[b.len() as int] == a[b.len() as int]);
        assert(is_digit(a[b.len() as int]));
        if v.len() > 0 {
            assert(y[b.len() as int] == v[0]);
        } else {
            assert(y.len() == b.len());
        }
    }
    assert(a =~= x.take(a.len() as int));
    assert(b =~= y.take(a.len() as int));
    assert(u =~= x.skip(a.len() as int));
    assert(v =~= y.skip(a.len() as int));
}

/// The same with a sign.
pub proof fn signed_numerals_end(n: int, m: int, u: Seq<char>, v: Seq<char>)
    requires
        signed(n) + u == signed(m) + v,
        u.len() == 0 || !is_digit(u[0]),
        v.len() == 0 || !is_digit(v[0]),
    ensures
        n == m,
        u == v,
{
    let (x, y) = (signed(n) + u, signed(m) + v);
    if n >= 0 {
        digits_back(n as nat);
        assert(x[0] == decimal(n as nat)[0]);
        assert(is_digit(decimal(n as nat)[0]));
    } else {
        assert(x[0] == '-');
        assert(x.skip(1) =~= decimal((-n) as nat) + u);
    }
    if m >= 0 {
        digits_back(m as nat);
        assert(y[0] == decimal(m as nat)[0]);
        assert(is_digit(decimal(m as nat)[0]));
    } else {
        assert(y[0] == '-');
        assert(y.skip(1) =~= decimal((-m) as nat) + v);
    }
    if n >= 0 {
        numerals_end(n as nat, m as nat, u, v);
    } else {
        numerals_end((-n) as nat, (-m) as nat, u, v);
    }
}

// ---------------------------------------------------------------------------
// transitions
// ---------------------------------------------------------------------------

/// The word a move out of a state of this rank goes by.
pub open spec fn move_word(rank: int) -> Seq<char> {
    if rank == 1 {
        " action "@
    } else if rank == 2 {
        " down "@
    } else if rank == 3 {
        " up "@
    } else if rank == 4 {
        " draw "@
    } else {
        " ff "@
    }
}

/// The rank a move is made at.
pub open spec fn step_rank<V>(step: Step<V>) -> int {
    match step {
        Step::Action { .. } => 1,
        Step::Down { .. } => 2,
        Step::Up { .. } => 3,
        Step::Draw { .. } => 4,
        Step::FastForward { .. } => 5,
    }
}

proof fn words_apart(i: int, j: int, u: Seq<char>, v: Seq<char>)
    requires
        1 <= i <= 5,
        1 <= j <= 5,
        move_word(i) + u == move_word(j) + v,
    ensures
        i == j,
        u == v,
{
    reveal_strlit(" action ");
    reveal_strlit(" down ");
    reveal_strlit(" up ");
    reveal_strlit(" draw ");
    reveal_strlit(" ff ");
    let (x, y) = (move_word(i) + u, move_word(j) + v);
    assert(x[1] == move_word(i)[1] && x[2] == move_word(i)[2]);
    assert(y[1] == move_word(j)[1] && y[2] == move_word(j)[2]);
    assert(" action "@[1] == 'a');
    assert(" down "@[1] == 'd' && " down "@[2] == 'o');
    assert(" up "@[1] == 'u');
    assert(" draw "@[1] == 'd' && " draw "@[2] == 'r');
    assert(" ff "@[1] == 'f');
    assert(u =~= x.skip(move_word(i).len() as int));
    assert(v =~= y.skip(move_word(i).len() as int));
}

proof fn step_opens<N: Number>(step: Step<N::Value>)
    ensures
        step_text::<N>(step) == move_word(step_rank(step)) + (match step {
            Step::Action { child } => decimal(child as nat),
            Step::Draw { child, prob } => decimal(child as nat) + (" "@ + N::show_v(prob)),
            Step::Down { at } => decimal(at as nat),
            Step::Up { at } => decimal(at as nat),
            Step::FastForward { t, cost } => signed(t as int) + (" "@ + cost_text::<N>(cost)),
        }),
        step_text::<N>(step).len() > 0,
        step_text::<N>(step)[0] == ' ',
{
    reveal_strlit(" action ");
    reveal_strlit(" down ");
    reveal_strlit(" up ");
    reveal_strlit(" draw ");
    reveal_strlit(" ff ");
    match step {
        Step::Draw { child, prob } => {
            assert(step_text::<N>(step) =~= " draw "@ + (decimal(child as nat) + (" "@ + N::show_v(
                prob,
            ))));
        },
        Step::FastForward { t, cost } => {
            assert(step_text::<N>(step) =~= " ff "@ + (signed(t as int) + (" "@ + cost_text::<N>(
                cost,
            ))));
        },
        _ => {},
    }
}

/// Two labels that read the same are of the same kind and carry the same node or
/// time, and their numbers are written alike.
pub open spec fn same_label<N: Number>(a: Step<N::Value>, b: Step<N::Value>) -> bool {
    match (a, b) {
        (Step::Action { child: c }, Step::Action { child: d }) => c == d,
        (Step::Draw { child: c, prob: p }, Step::Draw { child: d, prob: q }) => c == d && N::show_v(p)
            == N::show_v(q),
        (Step::Down { at: c }, Step::Down { at: d }) => c == d,
        (Step::Up { at: c }, Step::Up { at: d }) => c == d,
        (Step::FastForward { t: c, cost: p }, Step::FastForward { t: d, cost: q }) => c == d
            && cost_text::<N>(p) == cost_text::<N>(q),
        _ => false,
    }
}

proof fn labels_differ<N: Number>(a: Step<N::Value>, b: Step<N::Value>)
    requires
        step_text::<N>(a) == step_text::<N>(b),
    ensures
        same_label::<N>(a, b),
{
    step_opens::<N>(a);
    step_opens::<N>(b);
    reveal_strlit(" ");
    let none = Seq::<char>::empty();
    let (i, j) = (step_rank(a), step_rank(b));
    let x = step_text::<N>(a).skip(move_word(i).len() as int);
    let y = step_text::<N>(b).skip(move_word(j).len() as int);
    assert(step_text::<N>(a) =~= move_word(i) + x);
    assert(step_text::<N>(b) =~= move_word(j) + y);
    words_apart(i, j, x, y);
    match (a, b) {
        (Step::Action { child: c }, Step::Action { child: d }) => {
            assert(x =~= decimal(c as nat) + none && y =~= decimal(d as nat) + none);
            numerals_end(c as nat, d as nat, none, none);
        },
        (Step::Down { at: c }, Step::Down { at: d }) => {
            assert(x =~= decimal(c as nat) + none && y =~= decimal(d as nat) + none);
            numerals_end(c as nat, d as nat, none, none);
        },
        (Step::Up { at: c }, Step::Up { at: d }) => {
            assert(x =~= decimal(c as nat) + none && y =~= decimal(d as nat) + none);
            numerals_end(c as nat, d as nat, none, none);
        },
        (Step::Draw { child: c, prob: p }, Step::Draw { child: d, prob: q }) => {
            let (f, g) = (" "@ + N::show_v(p), " "@ + N::show_v(q));
            assert(x =~= decimal(c as nat) + f && y =~= decimal(d as nat) + g);
            numerals_end(c as nat, d as nat, f, g);
            assert(f.skip(1) =~= N::show_v(p) && g.skip(1) =~= N::show_v(q));
        },
        (Step::FastForward { t: c, cost: p }, Step::FastForward { t: d, cost: q }) => {
            let (f, g) = (" "@ + cost_text::<N>(p), " "@ + cost_text::<N>(q));
            assert(x =~= signed(c as int) + f && y =~= signed(d as int) + g);
            signed_numerals_end(c as int, d as int, f, g);
            assert(f.skip(1) =~= cost_text::<N>(p) && g.skip(1) =~= cost_text::<N>(q));
        },
        _ => {},
    }
}

/// The line of a transition tells it: two lines that read the same go between
/// the same states by the same move.
pub proof fn lines_tell_transitions<N: Number>(a: Arrow<N::Value>, b: Arrow<N::Value>)
    requires
        a.from >= 0,
        a.to >= 0,
        b.from >= 0,
        b.to >= 0,
        edge_line::<N>(a) == edge_line::<N>(b),
    ensures
        a.from == b.from,
        a.to == b.to,
        same_label::<N>(a.step, b.step),
{
    reveal_strlit("edge ");
    reveal_strlit(" ");
    reveal_strlit("\n");
    step_opens::<N>(a.step);
    step_opens::<N>(b.step);
    let (s, t) = (step_text::<N>(a.step), step_text::<N>(b.step));
    let (x, y) = (edge_line::<N>(a), edge_line::<N>(b));
    let (x2, y2) = (decimal(a.to as nat) + (s + "\n"@), decimal(b.to as nat) + (t + "\n"@));
    let (x1, y1) = (decimal(a.from as nat) + (" "@ + x2), decimal(b.from as nat) + (" "@ + y2));
    assert(x =~= "edge "@ + x1);
    assert(y =~= "edge "@ + y1);
    assert(x.skip(5) =~= x1 && y.skip(5) =~= y1);
    numerals_end(a.from as nat, b.from as nat, " "@ + x2, " "@ + y2);
    assert((" "@ + x2).skip(1) =~= x2 && (" "@ + y2).skip(1) =~= y2);
    numerals_end(a.to as nat, b.to as nat, s + "\n"@, t + "\n"@);
    assert((s + "\n"@).drop_last() =~= s && (t + "\n"@).drop_last() =~= t);
    labels_differ::<N>(a.step, b.step);
}

/// Every transition out of a state goes by the word of the rank of that state:
/// `action` at rank one, `down` at two, `up` at three, `draw` at four and `ff` at
/// five, and by no other.
pub proof fn words_tell_ranks<N: Number>(t: &Tree<N>, s: Seq<i8>, from: int, to: int, q: int, r: int)
    requires
        0 <= q < moves_of(t, s).len(),
        rank(t.net().nodes, s) is Some,
        1 <= (rank(t.net().nodes, s)->0).0 <= 5,
        1 <= r <= 5,
    ensures
        ({
            let line = edge_line::<N>(Arrow { from, to, step: moves_of(t, s)[q].1 });
            let head = "edge "@ + decimal(from as nat) + " "@ + decimal(to as nat) + move_word(r);
            (exists|rest: Seq<char>| line == #[trigger] (head + rest)) <==> (rank(
                t.net().nodes,
                s,
            )->0).0 == r
        }),
{
    let step = moves_of(t, s)[q].1;
    let line = edge_line::<N>(Arrow { from, to, step });
    let start = "edge "@ + decimal(from as nat) + " "@ + decimal(to as nat);
    let head = start + move_word(r);
    step_opens::<N>(step);
    assert(step_rank(step) == (rank(t.net().nodes, s)->0).0);
    let data = step_text::<N>(step).skip(move_word(step_rank(step)).len() as int);
    assert(step_text::<N>(step) =~= move_word(step_rank(step)) + data);
    let rest = data + "\n"@;
    assert(line =~= start + (move_word(step_rank(step)) + rest));
    if step_rank(step) == r {
        assert(line =~= head + rest);
    }
    if exists|other: Seq<char>| line == #[trigger] (head + other) {
        let other = choose|other: Seq<char>| line == #[trigger] (head + other);
        let n = start.len() as int;
        assert(line.skip(n) =~= move_word(step_rank(step)) + rest);
        assert(line.skip(n) =~= move_word(r) + other);
        words_apart(step_rank(step), r, rest, other);
    }
}

/// What a transition carries after its word: the child a decision or a draw
/// starts, with the probability of the draw; the node a descent or a closing is
/// at; the time a fast forward takes, with the cost of it.
pub proof fn labels_carry_moves<N: Number>(t: &Tree<N>, s: Seq<i8>, q: int)
    requires
        0 <= q < moves_of(t, s).len(),
        rank(t.net().nodes, s) is Some,
        1 <= (rank(t.net().nodes, s)->0).0 <= 5,
    ensures
        ({
            let g = t.net().nodes;
            let (r, w) = rank(g, s)->0;
            let (x, step) = moves_of(t, s)[q];
            let child = if q == 0 {
                g[w].low
            } else {
                g[w].high
            };
            &&& moves_of(t, s).len() == if r == 1 || r == 4 {
                2nat
            } else {
                1nat
            }
            &&& r == 1 ==> step_text::<N>(step) == " action "@ + decimal((child as u32) as nat)
            &&& r == 2 ==> step_text::<N>(step) == " down "@ + decimal((w as u32) as nat)
            &&& r == 3 ==> step_text::<N>(step) == " up "@ + decimal((w as u32) as nat)
            &&& r == 4 && q == 0 ==> step_text::<N>(step) == " draw "@ + decimal(
                (child as u32) as nat,
            ) + " "@ + N::show_v(t.prob_v(w))
            &&& r == 4 && q == 1 ==> step_text::<N>(step) == " draw "@ + decimal(
                (child as u32) as nat,
            ) + " "@ + N::show_v(N::minus_v(N::one_v(), t.prob_v(w)))
            &&& r == 5 ==> step is FastForward && step_text::<N>(step) == " ff "@ + signed(
                (advance(g, s) as i32) as int,
            ) + " "@ + cost_text::<N>(step->cost)
        }),
{
}

// ---------------------------------------------------------------------------
// numbers of a label
// ---------------------------------------------------------------------------

/// The costs of two labels that read the same are the same numbers.
pub proof fn costs_are_told(p: Seq<Dec>, q: Seq<Dec>)
    requires
        cost_text::<Decimal>(p) == cost_text::<Decimal>(q),
        p.len() > 0,
        q.len() > 0,
    ensures
        p.len() == q.len(),
        forall|c: int|
            0 <= c < p.len() ==> Decimal::real_of(#[trigger] p[c]) == Decimal::real_of(q[c]),
{
    reveal_strlit("[");
    reveal_strlit("]");
    reveal_strlit(", ");
    let (a, b) = (number_texts::<Decimal>(p), number_texts::<Decimal>(q));
    let sep = seq![',', ' '];
    assert(", "@ =~= sep);
    let (x, y) = (joined(a, sep), joined(b, sep));
    let (s, t) = (cost_text::<Decimal>(p), cost_text::<Decimal>(q));
    assert(x =~= s.subrange(1, s.len() - 1));
    assert(y =~= t.subrange(1, t.len() - 1));
    assert forall|i: int| 0 <= i < a.len() implies without(#[trigger] a[i], ',') && tidy(a[i]) by {
        number_reads_back(p[i]);
    }
    assert forall|i: int| 0 <= i < b.len() implies without(#[trigger] b[i], ',') && tidy(b[i]) by {
        number_reads_back(q[i]);
    }
    list_back(a);
    list_back(b);
    assert forall|c: int| 0 <= c < p.len() implies Decimal::real_of(#[trigger] p[c])
        == Decimal::real_of(q[c]) by {
        let cut = split_v(x, ',', 0);
        assert(trim_v(cut[c]) == a[c] && trim_v(cut[c]) == b[c]);
        number_reads_back(p[c]);
        number_reads_back(q[c]);
    }
}

/// The probabilities of two labels that read the same are the same number.
pub proof fn chances_are_told(p: Dec, q: Dec)
    requires
        Decimal::show_v(p) == Decimal::show_v(q),
    ensures
        Decimal::real_of(p) == Decimal::real_of(q),
{
    shown_reads_back(p);
    shown_reads_back(q);
}

// ---------------------------------------------------------------------------
// nodes and states
// ---------------------------------------------------------------------------

/// The line of a node says what kind of node it is, and what that kind carries:
/// a task its name, duration and impact, a nature node its probability, and
/// every node but a task its two children.
pub proof fn nodes_are_told<N: Number>(t: &Tree<N>, id: int)
    ensures
        ({
            let n = t.nodes@[id];
            let d = decimal(id as nat);
            let ends = " low "@ + decimal(n.low as nat) + " high "@ + decimal(n.high as nat) + "\n"@;
            match n.kind {
                Kind::Task => node_line(t, id) == "node "@ + d + " task "@ + t.task_names@[id]@
                    + " duration "@ + signed(n.duration as int) + " impact "@ + cost_text::<N>(
                    t.impact_v(id),
                ) + "\n"@,
                Kind::Nature => node_line(t, id) == "node "@ + d + " nature "@ + N::show_v(
                    n.prob.value(),
                ) + ends,
                Kind::Sequence => node_line(t, id) == "node "@ + d + " sequence"@ + ends,
                Kind::Parallel => node_line(t, id) == "node "@ + d + " parallel"@ + ends,
                Kind::Choice => node_line(t, id) == "node "@ + d + " choice"@ + ends,
            }
        }),
{
    reveal_strlit(" ");
    let n = t.nodes@[id];
    let d = decimal(id as nat);
    let ends = " low "@ + decimal(n.low as nat) + " high "@ + decimal(n.high as nat) + "\n"@;
    match n.kind {
        Kind::Task => {
            reveal_strlit("task");
            reveal_strlit(" task ");
            assert(" task "@ =~= " "@ + "task"@ + " "@);
            assert(node_line(t, id) =~= "node "@ + d + " task "@ + t.task_names@[id]@ + " duration "@
                + signed(n.duration as int) + " impact "@ + cost_text::<N>(t.impact_v(id)) + "\n"@);
        },
        Kind::Nature => {
            reveal_strlit("nature");
            reveal_strlit(" nature ");
            assert(" nature "@ =~= " "@ + "nature"@ + " "@);
            assert(node_line(t, id) =~= "node "@ + d + " nature "@ + N::show_v(n.prob.value()) + ends);
        },
        Kind::Sequence => {
            reveal_strlit("sequence");
            reveal_strlit(" sequence");
            assert(" sequence"@ =~= " "@ + "sequence"@);
            assert(node_line(t, id) =~= "node "@ + d + " sequence"@ + ends);
        },
        Kind::Parallel => {
            reveal_strlit("parallel");
            reveal_strlit(" parallel");
            assert(" parallel"@ =~= " "@ + "parallel"@);
            assert(node_line(t, id) =~= "node "@ + d + " parallel"@ + ends);
        },
        Kind::Choice => {
            reveal_strlit("choice");
            reveal_strlit(" choice");
            assert(" choice"@ =~= " "@ + "choice"@);
            assert(node_line(t, id) =~= "node "@ + d + " choice"@ + ends);
        },
    }
}

/// The values of a state, in the order of the nodes, with a blank between them.
pub open spec fn values_text(s: Seq<i8>) -> Seq<char> {
    joined(Seq::new((s.len() - 1) as nat, |i: int| signed(s[i + 1] as int)), " "@)
}

/// The line of a state says which state it is, whether it is final or else its
/// rank and its witness, and the value of every node.
pub proof fn states_are_told(i: int, s: Seq<i8>, found: Option<(u8, u32)>)
    ensures
        match found {
            None => state_line(i, s, found) == "state "@ + decimal(i as nat) + " final values "@
                + values_text(s) + "\n"@,
            Some((r, w)) => state_line(i, s, found) == "state "@ + decimal(i as nat) + " rank "@
                + decimal(r as nat) + " witness "@ + decimal(w as nat) + " values "@ + values_text(s)
                + "\n"@,
        },
{
    reveal_strlit(" final");
    reveal_strlit(" values ");
    reveal_strlit(" final values ");
    assert(" final values "@ =~= " final"@ + " values "@);
    assert(value_texts(s) =~= Seq::new((s.len() - 1) as nat, |j: int| signed(s[j + 1] as int)));
    match found {
        None => {
            assert(state_line(i, s, found) =~= "state "@ + decimal(i as nat) + " final values "@
                + values_text(s) + "\n"@);
        },
        Some((r, w)) => {
            assert(state_line(i, s, found) =~= "state "@ + decimal(i as nat) + " rank "@ + decimal(
                r as nat,
            ) + " witness "@ + decimal(w as nat) + " values "@ + values_text(s) + "\n"@);
        },
    }
}

// ---------------------------------------------------------------------------
// the whole of it
// ---------------------------------------------------------------------------

/// These texts, one after the other.
pub open spec fn run_on(ls: Seq<Seq<char>>) -> Seq<char>
    decreases ls.len(),
{
    if ls.len() == 0 {
        Seq::empty()
    } else {
        run_on(ls.drop_last()) + ls.last()
    }
}

proof fn nodes_run_on<N: Number>(t: &Tree<N>, n: int)
    ensures
        n >= 0 ==> node_lines(t, n) == run_on(Seq::new(n as nat, |i: int| node_line(t, i + 1))),
    decreases n,
{
    if n > 0 {
        nodes_run_on(t, n - 1);
        let (a, b) = (
            Seq::new((n - 1) as nat, |i: int| node_line(t, i + 1)),
            Seq::new(n as nat, |i: int| node_line(t, i + 1)),
        );
        assert(b.drop_last() =~= a);
    }
}

proof fn states_run_on(states: Seq<Seq<i8>>, ranks: Seq<Option<(u8, u32)>>, n: int)
    ensures
        n >= 0 ==> state_lines(states, ranks, n) == run_on(
            Seq::new(n as nat, |i: int| state_line(i, states[i], ranks[i])),
        ),
    decreases n,
{
    if n > 0 {
        states_run_on(states, ranks, n - 1);
        let (a, b) = (
            Seq::new((n - 1) as nat, |i: int| state_line(i, states[i], ranks[i])),
            Seq::new(n as nat, |i: int| state_line(i, states[i], ranks[i])),
        );
        assert(b.drop_last() =~= a);
    }
}

proof fn edges_run_on<N: Number>(s: Seq<Arrow<N::Value>>)
    ensures
        edge_lines::<N>(s) == run_on(Seq::new(s.len(), |i: int| edge_line::<N>(s[i]))),
    decreases s.len(),
{
    if s.len() > 0 {
        edges_run_on::<N>(s.drop_last());
        let (a, b) = (
            Seq::new(s.drop_last().len(), |i: int| edge_line::<N>(s.drop_last()[i])),
            Seq::new(s.len(), |i: int| edge_line::<N>(s[i])),
        );
        assert(b.drop_last() =~= a);
    }
}

/// The dump holds one line for every node, every state and every transition, in
/// their order, below how many there are, and nothing else.
pub proof fn everything_is_dumped<N: Number>(t: &Tree<N>, m: Mdp<N>)
    ensures
        ({
            let names = texts(t.meta.impact_names@);
            let list = if names.len() == 0 {
                Seq::empty()
            } else {
                "impact_names ["@ + joined(names, ", "@) + "]\n"@
            };
            dump_text(t, m) == "nodes "@ + decimal(t.n_nodes as nat) + "\n"@ + "dimensions "@ + decimal(
                t.k as nat,
            ) + "\n"@ + list + run_on(
                Seq::new(t.n_nodes as nat, |i: int| node_line(t, i + 1)),
            ) + ("states "@ + decimal(m.states@.len()) + "\n"@ + run_on(
                Seq::new(
                    m.states@.len(),
                    |i: int| state_line(i, state_views(m.states@)[i], m.ranks@[i]),
                ),
            )) + ("edges "@ + decimal(m.edges@.len()) + "\n"@ + run_on(
                Seq::new(m.edges@.len(), |i: int| edge_line::<N>(m.edges@[i].arrow())),
            ))
        }),
{
    nodes_run_on(t, t.n_nodes as int);
    states_run_on(state_views(m.states@), m.ranks@, m.states@.len() as int);
    edges_run_on::<N>(arrows(m.edges@));
    assert(Seq::new(m.edges@.len(), |i: int| edge_line::<N>(m.edges@[i].arrow())) =~= Seq::new(
        arrows(m.edges@).len(),
        |i: int| edge_line::<N>(arrows(m.edges@)[i]),
    ));
    reveal_strlit("\n");
}

} // verus!
