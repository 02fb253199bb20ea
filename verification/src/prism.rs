//! An instance as a PRISM model, mdp, following the semantics clause by
//! clause: one bounded integer variable per node (-1 idle, -2 done, otherwise
//! the elapsed progress), one named formula per node and per trigger, the
//! priority between the triggers and the least-identifier witness written by
//! hand as conjunctions of negations, a choice as two commands sharing a guard,
//! a nature node as one probabilistic command, the fast forward as a global
//! pointwise update, and k transition reward structures, one per component of
//! the impact vector, attached to the fast forward.
//!
//! With the history encoding each choice and each nature node carries one extra
//! variable recording the branch it took, written once and never cleared. The
//! plain model returns the branches of a closed region to the idle value, so
//! two runs that decided a choice differently meet again, and a memoryless
//! policy on it cannot react to a decision already closed; with the trail a
//! memoryless deterministic policy is a history-dependent one of the instance.

use vstd::prelude::*;
use vstd::string::*;
use crate::mdp::{kind_text, kind_word};
use crate::num::{vals, Number};
use crate::semantics::{best_is_least, both, either, psi, rank, spans, Net, Vertex};
use crate::state::{DONE, IDLE};
use crate::text::{
    cat2, cat3, cat5, chars_of, decimal, decimal_of, join, joined, signed, signed_of, text_of,
    texts,
};
use crate::tree::{task_ids_range, xor_ids_range, Kind, Tree};
use crate::words::{
    drop_zeros, has_char, holds_char, integer, integer_v, shed_end, split_once, split_once_v,
    trimmed, trimmed_v,
};
use crate::writer::{lined, unlines};

verus! {

// ---------------------------------------------------------------------------
// lines
// ---------------------------------------------------------------------------

fn fresh() -> (r: Vec<String>)
    ensures
        texts(r@) == Seq::<Seq<char>>::empty(),
{
    let r: Vec<String> = Vec::new();
    assert(texts(r@) =~= Seq::<Seq<char>>::empty());
    r
}

fn put(out: &mut Vec<String>, line: &str)
    ensures
        texts(final(out)@) == texts(old(out)@).push(line@),
{
    out.push(String::from_str(line));
    assert(texts(out@) =~= texts(old(out)@).push(line@));
}

fn more(out: &mut Vec<String>, extra: Vec<String>)
    ensures
        texts(final(out)@) == texts(old(out)@) + texts(extra@),
{
    let mut extra = extra;
    let ghost tail = extra@;
    out.append(&mut extra);
    assert(texts(out@) =~= texts(old(out)@) + texts(tail));
}

fn id_text(id: u32) -> (r: String)
    ensures
        r@ == decimal(id as nat),
{
    decimal_of(id as u128)
}

// ---------------------------------------------------------------------------
// numbers
// ---------------------------------------------------------------------------

/// The exponent a number in scientific notation carries.
pub open spec fn exponent_v(s: Seq<char>) -> Option<int> {
    match split_once_v(s, 'e') {
        Some((m, x)) => integer_v(x, i32::MAX as nat),
        None => None,
    }
}

/// The `%g` of C at twelve significant digits: fixed notation with the trailing
/// zeros stripped when the exponent allows it, the exponent form otherwise.
pub open spec fn general_v<N: Number>(x: N::Value) -> Seq<char> {
    let e = N::scientific_v(x, 11);
    if N::le_v(x, N::zero_v()) && N::le_v(N::zero_v(), x) {
        "0"@
    } else {
        match exponent_v(e) {
            Some(p) => if p < -4 || p >= 12 {
                e
            } else {
                trimmed_v(N::fixed_v(x, (11 - p) as usize))
            },
            None => e,
        }
    }
}

/// A literal of the model for a number.
pub open spec fn dbl_v<N: Number>(x: N::Value) -> Seq<char> {
    let g = general_v::<N>(x);
    let t = if has_char(g, 'e') || has_char(g, 'E') {
        let f = shed_end(N::fixed_v(x, 12), '0');
        if f.len() > 0 && f.last() == '.' {
            f.push('0')
        } else {
            f
        }
    } else {
        g
    };
    if has_char(t, '.') {
        t
    } else {
        t + ".0"@
    }
}

/// The `%g` of C at twelve significant digits.
pub fn format_g<N: Number>(x: &N) -> (r: String)
    ensures
        r@ == general_v::<N>(x.value()),
{
    if x.le(&N::zero()) && N::zero().le(x) {
        return String::from_str("0");
    }
    let e = x.scientific(11);
    let chars = chars_of(e.as_str());
    let power = match split_once(chars.as_slice(), 'e') {
        Some((m, p)) => integer(p, i32::MAX as u32),
        None => None,
    };
    match power {
        None => e,
        Some(p) => {
            if p < -4 || p >= 12 {
                return e;
            }
            let f = x.fixed((11 - p) as usize);
            text_of(trimmed(chars_of(f.as_str())).as_slice())
        },
    }
}

/// A literal of the model for a number.
pub fn dbl<N: Number>(x: &N) -> (r: String)
    ensures
        r@ == dbl_v::<N>(x.value()),
{
    let g = format_g(x);
    let mut t = chars_of(g.as_str());
    if holds_char(t.as_slice(), 'e') || holds_char(t.as_slice(), 'E') {
        let f = x.fixed(12);
        t = chars_of(f.as_str());
        drop_zeros(&mut t);
        if t.len() > 0 && t[t.len() - 1] == '.' {
            t.push('0');
        }
    }
    let mut s = text_of(t.as_slice());
    if !holds_char(t.as_slice(), '.') {
        s.append(".0");
    }
    s
}

// ---------------------------------------------------------------------------
// what the nodes can do
// ---------------------------------------------------------------------------

/// A static upper bound on the progress each node of a subtree can reach while
/// running, in the order of the identifiers: a task its duration, a sequence the
/// sum of its two regions, any other node the larger of its two branches.
pub open spec fn times_v(g: Seq<Vertex>, v: int, lo: int, hi: int) -> Seq<int>
    decreases hi - lo,
{
    if g[v].kind == Kind::Task || !(lo < v < hi) {
        seq![g[v].duration]
    } else {
        let low = times_v(g, g[v].low, lo, v - 1);
        let high = times_v(g, g[v].high, v + 1, hi);
        let a = low[g[v].low - lo];
        let b = high[g[v].high - (v + 1)];
        let top = if g[v].kind == Kind::Sequence {
            a + b
        } else if a >= b {
            a
        } else {
            b
        };
        low.push(top) + high
    }
}

/// The bound on the progress of a node.
pub open spec fn time_v(net: Net, id: int) -> int {
    times_v(net.nodes, net.root, 1, net.size())[id - 1]
}

pub proof fn times_facts(g: Seq<Vertex>, v: int, lo: int, hi: int)
    requires
        spans(g, v, lo, hi),
    ensures
        lo <= v <= hi,
        times_v(g, v, lo, hi).len() == hi - lo + 1,
        forall|i: int|
            0 <= i < times_v(g, v, lo, hi).len() ==> 0 <= #[trigger] times_v(g, v, lo, hi)[i] <= 127 * (hi
                - lo + 1),
    decreases hi - lo,
{
    if g[v].kind != Kind::Task {
        times_facts(g, g[v].low, lo, v - 1);
        times_facts(g, g[v].high, v + 1, hi);
    }
}

/// Fills in the bounds of a subtree whose identifiers follow those already there.
fn fill_times<N: Number>(tree: &Tree<N>, v: u32, lo: u32, hi: u32, out: &mut Vec<i64>) -> (r: i64)
    requires
        tree.wf(),
        1 <= lo,
        hi <= tree.n_nodes,
        spans(tree.net().nodes, v as int, lo as int, hi as int),
    ensures
        final(out)@.len() == old(out)@.len() + (hi - lo + 1),
        forall|i: int| 0 <= i < old(out)@.len() ==> final(out)@[i] == old(out)@[i],
        forall|i: int|
            0 <= i < hi - lo + 1 ==> #[trigger] final(out)@[old(out)@.len() + i] == times_v(
                tree.net().nodes,
                v as int,
                lo as int,
                hi as int,
            )[i],
        r == times_v(tree.net().nodes, v as int, lo as int, hi as int)[v - lo],
    decreases hi - lo,
{
    let ghost g = tree.net().nodes;
    let ghost start = out@;
    proof {
        times_facts(g, v as int, lo as int, hi as int);
        assert(g[v as int] == tree.nodes@[v as int].vertex());
    }
    let n = tree.node(v);
    if n.kind == Kind::Task {
        out.push(n.duration as i64);
        return n.duration as i64;
    }
    proof {
        times_facts(g, n.low as int, lo as int, v - 1);
        times_facts(g, n.high as int, v + 1, hi as int);
    }
    let a = fill_times(tree, n.low, lo, v - 1, out);
    let ghost after = out@;
    let place = out.len();
    out.push(0);
    let b = fill_times(tree, n.high, v + 1, hi, out);
    let top: i64 = if n.kind == Kind::Sequence {
        a + b
    } else if a >= b {
        a
    } else {
        b
    };
    let ghost filled = out@;
    out.set(place, top);
    proof {
        let ts = times_v(g, v as int, lo as int, hi as int);
        let low = times_v(g, n.low as int, lo as int, v - 1);
        let high = times_v(g, n.high as int, v + 1, hi as int);
        assert forall|i: int| 0 <= i < hi - lo + 1 implies #[trigger] out@[start.len() + i] == ts[i] by {
            if i < v - lo {
                assert(after[start.len() + i] == low[i]);
                assert(filled[start.len() + i] == after.push(0)[start.len() + i]);
                assert(ts[i] == low[i]);
            } else if i > v - lo {
                let j = i - (v - lo) - 1;
                assert(filled[after.push(0).len() + j] == high[j]);
                assert(ts[i] == high[j]);
            }
        }
        assert forall|i: int| 0 <= i < start.len() implies out@[i] == start[i] by {
            assert(after[i] == start[i]);
            assert(filled[i] == after.push(0)[i]);
        }
    }
    top
}

/// The bounds of every node, that of identifier `id` at `id - 1`.
fn compute_bounds<N: Number>(tree: &Tree<N>) -> (r: Vec<i64>)
    requires
        tree.wf(),
    ensures
        r@.len() == tree.n_nodes,
        forall|id: int| 1 <= id <= tree.n_nodes ==> #[trigger] r@[id - 1] == time_v(tree.net(), id),
{
    let mut out: Vec<i64> = Vec::new();
    let _ = fill_times(tree, tree.root, 1, tree.n_nodes, &mut out);
    proof {
        let ts = times_v(tree.net().nodes, tree.root as int, 1, tree.n_nodes as int);
        assert forall|id: int| 1 <= id <= tree.n_nodes implies #[trigger] out@[id - 1] == time_v(
            tree.net(),
            id,
        ) by {
            assert(out@[0 + (id - 1)] == ts[id - 1]);
        }
    }
    out
}

/// The label of a node lets the trigger hold: one the choices, two the
/// sequences and the parallel nodes, three every composition, four the nature
/// nodes, five the tasks.
pub open spec fn can_hold(k: Kind, i: int) -> bool {
    ||| i == 1 && k == Kind::Choice
    ||| i == 2 && (k == Kind::Sequence || k == Kind::Parallel)
    ||| i == 3 && k != Kind::Task
    ||| i == 4 && k == Kind::Nature
    ||| i == 5 && k == Kind::Task
}

/// The identifiers from one to `n` whose labels let the trigger hold.
pub open spec fn holders_v(g: Seq<Vertex>, i: int, n: int) -> Seq<u32>
    decreases n,
{
    if n <= 0 {
        Seq::empty()
    } else if can_hold(g[n].kind, i) {
        holders_v(g, i, n - 1).push(n as u32)
    } else {
        holders_v(g, i, n - 1)
    }
}

pub proof fn holders_range(g: Seq<Vertex>, i: int, n: int)
    requires
        n <= u32::MAX,
    ensures
        forall|j: int|
            0 <= j < holders_v(g, i, n).len() ==> 1 <= #[trigger] holders_v(g, i, n)[j] <= n && can_hold(
                g[holders_v(g, i, n)[j] as int].kind,
                i,
            ),
        forall|u: int|
            1 <= u <= n && can_hold((#[trigger] g[u]).kind, i) ==> holders_v(g, i, n).contains(u as u32),
        holders_v(g, i, n).len() <= n || n <= 0,
    decreases n,
{
    if n > 0 {
        holders_range(g, i, n - 1);
        let a = holders_v(g, i, n - 1);
        let b = holders_v(g, i, n);
        assert forall|u: int| 1 <= u <= n && can_hold((#[trigger] g[u]).kind, i) implies b.contains(
            u as u32,
        ) by {
            if u < n {
                let j = a.index_of(u as u32);
                assert(b[j] == u as u32);
            } else {
                assert(b[a.len() as int] == u as u32);
            }
        }
    }
}

fn may_hold(k: Kind, i: u8) -> (r: bool)
    ensures
        r == can_hold(k, i as int),
{
    match i {
        1 => k == Kind::Choice,
        2 => k == Kind::Sequence || k == Kind::Parallel,
        3 => k != Kind::Task,
        4 => k == Kind::Nature,
        5 => k == Kind::Task,
        _ => false,
    }
}

fn holders<N: Number>(tree: &Tree<N>, i: u8) -> (r: Vec<u32>)
    requires
        tree.wf(),
    ensures
        r@ == holders_v(tree.net().nodes, i as int, tree.n_nodes as int),
{
    let ghost g = tree.net().nodes;
    let mut out: Vec<u32> = Vec::new();
    for id in 1..tree.n_nodes + 1
        invariant
            tree.wf(),
            g == tree.net().nodes,
            out@ == holders_v(g, i as int, id - 1),
    {
        assert(g[id as int] == tree.nodes@[id as int].vertex());
        if may_hold(tree.kind(id), i) {
            out.push(id);
        }
    }
    out
}

/// The variable of a node.
pub open spec fn var(id: int) -> Seq<char> {
    "n"@ + decimal(id as nat)
}

fn var_text(id: u32) -> (r: String)
    ensures
        r@ == var(id as int),
{
    cat2("n", id_text(id).as_str())
}

/// The body of a trigger at a node. The conjunct on the label is decided by
/// [`can_hold`] and leaves no trace in the guard.
pub open spec fn trigger_v(g: Seq<Vertex>, id: int, i: int) -> Seq<char> {
    let (low, high) = (var(g[id].low), var(g[id].high));
    if i == 3 {
        if g[id].kind == Kind::Parallel {
            low + "=-2 & "@ + high + "=-2"@
        } else {
            low + "=-2 | "@ + high + "=-2"@
        }
    } else if i == 5 {
        var(id) + ">=0 & "@ + var(id) + "<d"@ + decimal(id as nat)
    } else {
        var(id) + ">=0 & "@ + low + "=-1 & "@ + high + "=-1"@
    }
}

fn trigger_text<N: Number>(tree: &Tree<N>, id: u32, i: u8) -> (r: String)
    requires
        tree.wf(),
        1 <= id <= tree.n_nodes,
    ensures
        r@ == trigger_v(tree.net().nodes, id as int, i as int),
{
    assert(tree.net().nodes[id as int] == tree.nodes@[id as int].vertex());
    let n = tree.node(id);
    let low = var_text(n.low);
    let high = var_text(n.high);
    let me = var_text(id);
    if i == 3 {
        let mut s = if n.kind == Kind::Parallel {
            cat2(low.as_str(), "=-2 & ")
        } else {
            cat2(low.as_str(), "=-2 | ")
        };
        s.append(high.as_str());
        s.append("=-2");
        s
    } else if i == 5 {
        cat5(me.as_str(), ">=0 & ", me.as_str(), "<d", id_text(id).as_str())
    } else {
        let mut s = cat5(me.as_str(), ">=0 & ", low.as_str(), "=-1 & ", high.as_str());
        s.append("=-1");
        s
    }
}

/// How a node reads in a comment of the model.
pub open spec fn label_v<N: Number>(t: &Tree<N>, id: int) -> Seq<char> {
    match t.nodes@[id].kind {
        Kind::Task => "task "@ + t.task_names@[id]@,
        Kind::Nature => "nature p="@ + dbl_v::<N>(t.prob_v(id)),
        k => kind_text(k),
    }
}

fn label_of<N: Number>(tree: &Tree<N>, id: u32) -> (r: String)
    requires
        tree.wf(),
        1 <= id <= tree.n_nodes,
    ensures
        r@ == label_v(tree, id as int),
{
    let n = tree.node(id);
    match n.kind {
        Kind::Task => cat2("task ", tree.task_names[id as usize].as_str()),
        Kind::Nature => cat2("nature p=", dbl(&n.prob).as_str()),
        k => String::from_str(kind_word(k)),
    }
}

// ---------------------------------------------------------------------------
// the header
// ---------------------------------------------------------------------------

/// How the model reads time, and how to check it.
pub open spec fn scaling_v() -> Seq<Seq<char>> {
    seq![
        "//"@,
        "// TIME SCALING"@,
        "//   Every duration of the instance is multiplied by 1.0 and rounded to"@,
        "//   the nearest integer, a PRISM variable being an integer while a duration of"@,
        "//   the instance is a real number. One time unit of this model is therefore"@,
        "//   1.0 time units of the instance, and every progress value, every"@,
        "//   duration constant and every variable bound below is read in the scaled unit."@,
        "//   The impact vectors are not scaled: they are carried unchanged as doubles."@,
        "//"@,
        "// HOW TO CHECK THIS MODEL"@,
        "//   prism <model> -pf 'R{\"impact0\"}min=? [ F \"final\" ]' -explicit"@,
        "//   prism <model> -pf 'multi(R{\"impact0\"}min=? [ C ], R{\"impact1\"}<=b [ C ])'"@,
        "//   The explicit engine builds the reachable states alone. Every other engine"@,
        "//   (the default one, sparse and hybrid) builds the transition relation"@,
        "//   symbolically, over the FULL cube of the declared ranges, so a large scale"@,
        "//   factor widens every range and exhausts CUDD long before the reachable part"@,
        "//   of the model becomes large. At scale 1 every engine builds this model."@,
        "//"@,
        "// The encoding follows Definitions 8 and 9 of semantics.tex clause by clause."@,
        "// Comments below mark the places where it departs from a literal reading."@,
        ""@,
        "mdp"@,
        ""@,
    ]
}

fn scaling() -> (r: Vec<String>)
    ensures
        texts(r@) == scaling_v(),
{
    let mut out = fresh();
    put(&mut out, "//");
    put(&mut out, "// TIME SCALING");
    put(&mut out, "//   Every duration of the instance is multiplied by 1.0 and rounded to");
    put(&mut out, "//   the nearest integer, a PRISM variable being an integer while a duration of");
    put(&mut out, "//   the instance is a real number. One time unit of this model is therefore");
    put(&mut out, "//   1.0 time units of the instance, and every progress value, every");
    put(&mut out, "//   duration constant and every variable bound below is read in the scaled unit.");
    put(&mut out, "//   The impact vectors are not scaled: they are carried unchanged as doubles.");
    put(&mut out, "//");
    put(&mut out, "// HOW TO CHECK THIS MODEL");
    put(&mut out, "//   prism <model> -pf 'R{\"impact0\"}min=? [ F \"final\" ]' -explicit");
    put(&mut out, "//   prism <model> -pf 'multi(R{\"impact0\"}min=? [ C ], R{\"impact1\"}<=b [ C ])'");
    put(&mut out, "//   The explicit engine builds the reachable states alone. Every other engine");
    put(&mut out, "//   (the default one, sparse and hybrid) builds the transition relation");
    put(&mut out, "//   symbolically, over the FULL cube of the declared ranges, so a large scale");
    put(&mut out, "//   factor widens every range and exhausts CUDD long before the reachable part");
    put(&mut out, "//   of the model becomes large. At scale 1 every engine builds this model.");
    put(&mut out, "//");
    put(&mut out, "// The encoding follows Definitions 8 and 9 of semantics.tex clause by clause.");
    put(&mut out, "// Comments below mark the places where it departs from a literal reading.");
    put(&mut out, "");
    put(&mut out, "mdp");
    put(&mut out, "");
    out
}

/// The keys of the instance, those of the grid only where it came from one.
pub open spec fn keys_v<N: Number>(t: &Tree<N>, stem: Seq<char>, file_name: Seq<char>) -> Seq<Seq<char>> {
    let m = t.meta;
    let grid = m.mode@.len() > 0;
    let a = seq![
        "// PRISM model of the BPMN+CPI instance "@ + stem,
        "// generated by sdcpi to_prism from "@ + file_name,
        "//"@,
        "// instance key"@,
    ];
    let b = if grid {
        a.push("//   nested: "@ + decimal(m.nested as nat)).push(
            "//   independent: "@ + decimal(m.independent as nat),
        ).push("//   process_number: "@ + decimal(m.process_number as nat))
    } else {
        a
    };
    let c = b.push("//   dimensions: "@ + decimal(t.k as nat));
    let d = if grid {
        c.push("//   mode: "@ + m.mode@).push("//   seed: "@ + decimal(m.seed as nat))
    } else {
        c
    };
    let e = d.push("//   tasks: "@ + decimal(t.n_tasks as nat)).push(
        "//   nodes: "@ + decimal(t.n_nodes as nat),
    );
    let f = if grid {
        e.push("//   max_duration: "@ + decimal(m.max_duration as nat)).push(
            "//   xor_root_kind: "@ + m.xor_root_kind@,
        )
    } else {
        e
    };
    if m.expression@.len() > 0 {
        f.push("//   expression: "@ + m.expression@)
    } else {
        f
    }
}

fn put2(out: &mut Vec<String>, a: &str, b: &str)
    ensures
        texts(final(out)@) == texts(old(out)@).push(a@ + b@),
{
    put(out, cat2(a, b).as_str());
}

fn is_empty(s: &String) -> (r: bool)
    ensures
        r == (s@.len() == 0),
{
    chars_of(s.as_str()).len() == 0
}

fn keys<N: Number>(tree: &Tree<N>, stem: &str, file_name: &str) -> (r: Vec<String>)
    ensures
        texts(r@) == keys_v(tree, stem@, file_name@),
{
    let m = &tree.meta;
    let grid = !is_empty(&m.mode);
    let mut out = fresh();
    put2(&mut out, "// PRISM model of the BPMN+CPI instance ", stem);
    put2(&mut out, "// generated by sdcpi to_prism from ", file_name);
    put(&mut out, "//");
    put(&mut out, "// instance key");
    if grid {
        put2(&mut out, "//   nested: ", id_text(m.nested).as_str());
        put2(&mut out, "//   independent: ", id_text(m.independent).as_str());
        put2(&mut out, "//   process_number: ", id_text(m.process_number).as_str());
    }
    put2(&mut out, "//   dimensions: ", decimal_of(tree.k as u128).as_str());
    if grid {
        put2(&mut out, "//   mode: ", m.mode.as_str());
        put2(&mut out, "//   seed: ", decimal_of(m.seed as u128).as_str());
    }
    put2(&mut out, "//   tasks: ", id_text(tree.n_tasks).as_str());
    put2(&mut out, "//   nodes: ", id_text(tree.n_nodes).as_str());
    if grid {
        put2(&mut out, "//   max_duration: ", id_text(m.max_duration).as_str());
        put2(&mut out, "//   xor_root_kind: ", m.xor_root_kind.as_str());
    }
    if !is_empty(&m.expression) {
        put2(&mut out, "//   expression: ", m.expression.as_str());
    }
    out
}

// ---------------------------------------------------------------------------
// the constants
// ---------------------------------------------------------------------------

/// Above the durations.
pub open spec fn durations_title_v() -> Seq<Seq<char>> {
    seq![
        "// ---------------------------------------------------------------------------"@,
        "// durations, scaled and rounded (D of Definition 3)"@,
        "// ---------------------------------------------------------------------------"@,
    ]
}

fn durations_title() -> (r: Vec<String>)
    ensures
        texts(r@) == durations_title_v(),
{
    let mut out = fresh();
    put(&mut out, "// ---------------------------------------------------------------------------");
    put(&mut out, "// durations, scaled and rounded (D of Definition 3)");
    put(&mut out, "// ---------------------------------------------------------------------------");
    out
}

/// Above the horizon.
pub open spec fn horizon_title_v() -> Seq<Seq<char>> {
    seq![
        ""@,
        "// larger than any remaining time, so that a task that is not running never wins"@,
        "// the minimum of the fast forward clause"@,
    ]
}

fn horizon_title() -> (r: Vec<String>)
    ensures
        texts(r@) == horizon_title_v(),
{
    let mut out = fresh();
    put(&mut out, "");
    put(&mut out, "// larger than any remaining time, so that a task that is not running never wins");
    put(&mut out, "// the minimum of the fast forward clause");
    out
}

/// Above the probabilities.
pub open spec fn chances_title_v() -> Seq<Seq<char>> {
    seq![
        ""@,
        "// ---------------------------------------------------------------------------"@,
        "// nature probabilities (P_phi of Definition 3), each one the probability of"@,
        "// the LOW branch"@,
        "// ---------------------------------------------------------------------------"@,
    ]
}

fn chances_title() -> (r: Vec<String>)
    ensures
        texts(r@) == chances_title_v(),
{
    let mut out = fresh();
    put(&mut out, "");
    put(&mut out, "// ---------------------------------------------------------------------------");
    put(&mut out, "// nature probabilities (P_phi of Definition 3), each one the probability of");
    put(&mut out, "// the LOW branch");
    put(&mut out, "// ---------------------------------------------------------------------------");
    out
}

/// The constant of a task.
pub open spec fn duration_line<N: Number>(t: &Tree<N>, id: int) -> Seq<char> {
    let d = signed(t.nodes@[id].duration as int);
    "const int d"@ + decimal(id as nat) + " = "@ + d + ";  // "@ + t.task_names@[id]@
        + ", raw duration "@ + d + ".0"@
}

pub open spec fn duration_lines<N: Number>(t: &Tree<N>) -> Seq<Seq<char>> {
    Seq::new(t.tasks@.len(), |j: int| duration_line(t, t.tasks@[j] as int))
}

fn durations<N: Number>(tree: &Tree<N>) -> (r: Vec<String>)
    requires
        tree.wf(),
    ensures
        texts(r@) == duration_lines(tree),
{
    proof {
        task_ids_range(tree.net().nodes, tree.n_nodes as int);
    }
    let mut out = fresh();
    for j in 0..tree.tasks.len()
        invariant
            tree.wf(),
            forall|i: int|
                0 <= i < tree.tasks@.len() ==> 1 <= #[trigger] tree.tasks@[i] <= tree.n_nodes,
            texts(out@) =~= duration_lines(tree).take(j as int),
    {
        let t = tree.tasks[j];
        let d = signed_of(tree.node(t).duration as i64);
        let s = cat5("const int d", id_text(t).as_str(), " = ", d.as_str(), ";  // ");
        let s = cat3(s.as_str(), tree.task_names[t as usize].as_str(), ", raw duration ");
        let s = cat3(s.as_str(), d.as_str(), ".0");
        put(&mut out, s.as_str());
        assert(duration_lines(tree)[j as int] == s@);
    }
    out
}

/// The longest duration of the first `n` tasks.
pub open spec fn longest_v<N: Number>(t: &Tree<N>, n: int) -> int
    decreases n,
{
    if n <= 0 {
        0
    } else {
        let m = longest_v(t, n - 1);
        let d = t.nodes@[t.tasks@[n - 1] as int].duration as int;
        if d > m {
            d
        } else {
            m
        }
    }
}

fn longest<N: Number>(tree: &Tree<N>) -> (r: i64)
    requires
        tree.wf(),
    ensures
        r == longest_v(tree, tree.tasks@.len() as int),
        0 <= r <= i16::MAX,
{
    proof {
        task_ids_range(tree.net().nodes, tree.n_nodes as int);
    }
    let mut m: i64 = 0;
    for j in 0..tree.tasks.len()
        invariant
            tree.wf(),
            forall|i: int|
                0 <= i < tree.tasks@.len() ==> 1 <= #[trigger] tree.tasks@[i] <= tree.n_nodes,
            m == longest_v(tree, j as int),
            0 <= m <= i16::MAX,
    {
        let d = tree.node(tree.tasks[j]).duration as i64;
        if d > m {
            m = d;
        }
    }
    m
}

/// The probabilities of the nature nodes.
pub open spec fn chance_lines<N: Number>(t: &Tree<N>) -> Seq<Seq<char>> {
    let ids = holders_v(t.net().nodes, 4, t.n_nodes as int);
    Seq::new(
        ids.len(),
        |j: int|
            "const double p"@ + decimal(ids[j] as nat) + " = "@ + dbl_v::<N>(t.prob_v(ids[j] as int))
                + ";"@,
    )
}

fn chances<N: Number>(tree: &Tree<N>, ids: &Vec<u32>) -> (r: Vec<String>)
    requires
        tree.wf(),
        ids@ == holders_v(tree.net().nodes, 4, tree.n_nodes as int),
    ensures
        texts(r@) == chance_lines(tree),
{
    proof {
        holders_range(tree.net().nodes, 4, tree.n_nodes as int);
    }
    let mut out = fresh();
    for j in 0..ids.len()
        invariant
            tree.wf(),
            ids@ == holders_v(tree.net().nodes, 4, tree.n_nodes as int),
            forall|i: int| 0 <= i < ids@.len() ==> 1 <= #[trigger] ids@[i] <= tree.n_nodes,
            texts(out@) =~= chance_lines(tree).take(j as int),
    {
        let n = ids[j];
        let p = dbl(&tree.node(n).prob);
        let s = cat5("const double p", id_text(n).as_str(), " = ", p.as_str(), ";");
        put(&mut out, s.as_str());
        assert(chance_lines(tree)[j as int] == s@);
    }
    out
}

pub open spec fn constants_v<N: Number>(t: &Tree<N>) -> Seq<Seq<char>> {
    let a = durations_title_v() + duration_lines(t) + horizon_title_v();
    let b = a.push(
        "const int no_time = "@ + signed(longest_v(t, t.tasks@.len() as int) + 1) + ";"@,
    );
    let c = if holders_v(t.net().nodes, 4, t.n_nodes as int).len() > 0 {
        b + chances_title_v() + chance_lines(t)
    } else {
        b
    };
    c.push(""@)
}

fn constants<N: Number>(tree: &Tree<N>) -> (r: Vec<String>)
    requires
        tree.wf(),
    ensures
        texts(r@) == constants_v(tree),
{
    let mut out = durations_title();
    more(&mut out, durations(tree));
    more(&mut out, horizon_title());
    let s = cat3("const int no_time = ", signed_of(longest(tree) + 1).as_str(), ";");
    put(&mut out, s.as_str());
    let natures = holders(tree, 4);
    if natures.len() > 0 {
        more(&mut out, chances_title());
        more(&mut out, chances(tree, &natures));
    }
    put(&mut out, "");
    out
}

// ---------------------------------------------------------------------------
// triggers, rank and witness
// ---------------------------------------------------------------------------

/// Above the triggers.
pub open spec fn triggers_title_v() -> Seq<Seq<char>> {
    seq![
        "// ---------------------------------------------------------------------------"@,
        "// the five triggers of Definition 8, one formula per node and per trigger."@,
        "// The conjunct on the label of the node is decided here and leaves no trace:"@,
        "// a formula is emitted only for a node whose label lets the trigger hold."@,
        "// ---------------------------------------------------------------------------"@,
    ]
}

fn triggers_title() -> (r: Vec<String>)
    ensures
        texts(r@) == triggers_title_v(),
{
    let mut out = fresh();
    put(&mut out, "// ---------------------------------------------------------------------------");
    put(&mut out, "// the five triggers of Definition 8, one formula per node and per trigger.");
    put(&mut out, "// The conjunct on the label of the node is decided here and leaves no trace:");
    put(&mut out, "// a formula is emitted only for a node whose label lets the trigger hold.");
    put(&mut out, "// ---------------------------------------------------------------------------");
    out
}

/// Above the ranks.
pub open spec fn rank_title_v() -> Seq<Seq<char>> {
    seq![
        "// ---------------------------------------------------------------------------"@,
        "// the rank r(s) of Definition 8. DEPARTURE: PRISM offers every command whose"@,
        "// guard holds and has no notion of priority, so the priority order of the"@,
        "// triggers is written by hand, each rank negating the ranks above it."@,
        "// ---------------------------------------------------------------------------"@,
    ]
}

fn rank_title() -> (r: Vec<String>)
    ensures
        texts(r@) == rank_title_v(),
{
    let mut out = fresh();
    put(&mut out, "// ---------------------------------------------------------------------------");
    put(&mut out, "// the rank r(s) of Definition 8. DEPARTURE: PRISM offers every command whose");
    put(&mut out, "// guard holds and has no notion of priority, so the priority order of the");
    put(&mut out, "// triggers is written by hand, each rank negating the ranks above it.");
    put(&mut out, "// ---------------------------------------------------------------------------");
    out
}

/// The ranks.
pub open spec fn ranks_v() -> Seq<Seq<char>> {
    seq![
        "formula rank1 = some_psi1;"@,
        "formula rank2 = !some_psi1 & some_psi2;"@,
        "formula rank3 = !some_psi1 & !some_psi2 & some_psi3;"@,
        "formula rank4 = !some_psi1 & !some_psi2 & !some_psi3 & some_psi4;"@,
        "formula rank5 = !some_psi1 & !some_psi2 & !some_psi3 & !some_psi4 & some_psi5;"@,
        ""@,
    ]
}

fn ranks() -> (r: Vec<String>)
    ensures
        texts(r@) == ranks_v(),
{
    let mut out = fresh();
    put(&mut out, "formula rank1 = some_psi1;");
    put(&mut out, "formula rank2 = !some_psi1 & some_psi2;");
    put(&mut out, "formula rank3 = !some_psi1 & !some_psi2 & some_psi3;");
    put(&mut out, "formula rank4 = !some_psi1 & !some_psi2 & !some_psi3 & some_psi4;");
    put(&mut out, "formula rank5 = !some_psi1 & !some_psi2 & !some_psi3 & !some_psi4 & some_psi5;");
    put(&mut out, "");
    out
}

/// Above the witnesses.
pub open spec fn witness_title_v() -> Seq<Seq<char>> {
    seq![
        "// ---------------------------------------------------------------------------"@,
        "// the witness w(s) of Definition 8, the node of LEAST identifier among those"@,
        "// satisfying the trigger of the rank. DEPARTURE: the argmin is written by hand"@,
        "// as well, by negating the same trigger at every node of smaller identifier."@,
        "// The identifiers are fixed by the instance, so these conjuncts are static."@,
        "// ---------------------------------------------------------------------------"@,
    ]
}

fn witness_title() -> (r: Vec<String>)
    ensures
        texts(r@) == witness_title_v(),
{
    let mut out = fresh();
    put(&mut out, "// ---------------------------------------------------------------------------");
    put(&mut out, "// the witness w(s) of Definition 8, the node of LEAST identifier among those");
    put(&mut out, "// satisfying the trigger of the rank. DEPARTURE: the argmin is written by hand");
    put(&mut out, "// as well, by negating the same trigger at every node of smaller identifier.");
    put(&mut out, "// The identifiers are fixed by the instance, so these conjuncts are static.");
    put(&mut out, "// ---------------------------------------------------------------------------");
    out
}

/// Above the fast forward.
pub open spec fn forward_title_v() -> Seq<Seq<char>> {
    seq![
        "// ---------------------------------------------------------------------------"@,
        "// the fast forward clause of Definition 9: the step t is the least remaining"@,
        "// time over the running tasks, and the closers are the tasks that reach it."@,
        "// ---------------------------------------------------------------------------"@,
    ]
}

fn forward_title() -> (r: Vec<String>)
    ensures
        texts(r@) == forward_title_v(),
{
    let mut out = fresh();
    put(&mut out, "// ---------------------------------------------------------------------------");
    put(&mut out, "// the fast forward clause of Definition 9: the step t is the least remaining");
    put(&mut out, "// time over the running tasks, and the closers are the tasks that reach it.");
    put(&mut out, "// ---------------------------------------------------------------------------");
    out
}

/// Above the successor of the fast forward.
pub open spec fn successor_title_v() -> Seq<Seq<char>> {
    seq![
        "// the successor of the fast forward clause, given pointwise: a closer is"@,
        "// completed, every other running node advances by t, and a node that is not"@,
        "// running keeps its value."@,
        "// DEPARTURE: every sum is clamped with min. PRISM builds the transition relation"@,
        "// over the full cube of the declared ranges and not over the reachable states"@,
        "// alone, and it rejects a model in which some valuation, reachable or not, sends"@,
        "// an update out of range. The clamp is a no-op on every reachable state, by the"@,
        "// bound each variable carries, so the transition relation of the semantics is"@,
        "// untouched: it only gives the unreachable part of the cube a defined value."@,
    ]
}

fn successor_title() -> (r: Vec<String>)
    ensures
        texts(r@) == successor_title_v(),
{
    let mut out = fresh();
    put(&mut out, "// the successor of the fast forward clause, given pointwise: a closer is");
    put(&mut out, "// completed, every other running node advances by t, and a node that is not");
    put(&mut out, "// running keeps its value.");
    put(&mut out, "// DEPARTURE: every sum is clamped with min. PRISM builds the transition relation");
    put(&mut out, "// over the full cube of the declared ranges and not over the reachable states");
    put(&mut out, "// alone, and it rejects a model in which some valuation, reachable or not, sends");
    put(&mut out, "// an update out of range. The clamp is a no-op on every reachable state, by the");
    put(&mut out, "// bound each variable carries, so the transition relation of the semantics is");
    put(&mut out, "// untouched: it only gives the unreachable part of the cube a defined value.");
    out
}

/// Above the variables.
pub open spec fn module_title_v() -> Seq<Seq<char>> {
    seq![
        "// ---------------------------------------------------------------------------"@,
        "// the state of Definition 6: one variable per node, -1 idle, -2 done, and a"@,
        "// non-negative value the elapsed progress. The initial state s_0 puts the root"@,
        "// at 0 and every other node at -1."@,
        "// DEPARTURE: Definition 6 lets the progress range over the whole of N. A PRISM"@,
        "// variable is bounded, so each node carries a static bound on the time it can"@,
        "// be running: a task stops one below its duration, as well formedness demands,"@,
        "// a sequence adds the bounds of its two regions, and a parallel or an XOR node"@,
        "// takes the larger of the two branches."@,
        "// ---------------------------------------------------------------------------"@,
        "module process"@,
        ""@,
    ]
}

fn module_title() -> (r: Vec<String>)
    ensures
        texts(r@) == module_title_v(),
{
    let mut out = fresh();
    put(&mut out, "// ---------------------------------------------------------------------------");
    put(&mut out, "// the state of Definition 6: one variable per node, -1 idle, -2 done, and a");
    put(&mut out, "// non-negative value the elapsed progress. The initial state s_0 puts the root");
    put(&mut out, "// at 0 and every other node at -1.");
    put(&mut out, "// DEPARTURE: Definition 6 lets the progress range over the whole of N. A PRISM");
    put(&mut out, "// variable is bounded, so each node carries a static bound on the time it can");
    put(&mut out, "// be running: a task stops one below its duration, as well formedness demands,");
    put(&mut out, "// a sequence adds the bounds of its two regions, and a parallel or an XOR node");
    put(&mut out, "// takes the larger of the two branches.");
    put(&mut out, "// ---------------------------------------------------------------------------");
    put(&mut out, "module process");
    put(&mut out, "");
    out
}

/// Above the choices.
pub open spec fn choice_title_v() -> Seq<Seq<char>> {
    seq![
        "  // ---- (choice), r(s) = 1 ------------------------------------------------"@,
        "  // A(s) = {low(v), high(v)}: two commands sharing a guard, which is how a"@,
        "  // decision is handed to the scheduler. The two effects differ, so the two"@,
        "  // distributions do not merge in Steps(s)."@,
    ]
}

fn choice_title() -> (r: Vec<String>)
    ensures
        texts(r@) == choice_title_v(),
{
    let mut out = fresh();
    put(&mut out, "  // ---- (choice), r(s) = 1 ------------------------------------------------");
    put(&mut out, "  // A(s) = {low(v), high(v)}: two commands sharing a guard, which is how a");
    put(&mut out, "  // decision is handed to the scheduler. The two effects differ, so the two");
    put(&mut out, "  // distributions do not merge in Steps(s).");
    out
}

/// Above the descents.
pub open spec fn down_title_v() -> Seq<Seq<char>> {
    seq![
        "  // ---- (down), r(s) = 2 --------------------------------------------------"@,
        "  // tau starts the low child of a sequence and both children of a parallel."@,
    ]
}

fn down_title() -> (r: Vec<String>)
    ensures
        texts(r@) == down_title_v(),
{
    let mut out = fresh();
    put(&mut out, "  // ---- (down), r(s) = 2 --------------------------------------------------");
    put(&mut out, "  // tau starts the low child of a sequence and both children of a parallel.");
    out
}

/// Above the closings.
pub open spec fn up_title_v() -> Seq<Seq<char>> {
    seq![
        "  // ---- (up), r(s) = 3 ----------------------------------------------------"@,
        "  // DEPARTURE: the clause has two cases. They are conditions on the source"@,
        "  // state that exclude one another, so they become two commands with"@,
        "  // disjoint guards, and only a sequence node receives both. The first hands"@,
        "  // a sequence over from its first region to its second; the second closes"@,
        "  // the node above the branches that are done."@,
    ]
}

fn up_title() -> (r: Vec<String>)
    ensures
        texts(r@) == up_title_v(),
{
    let mut out = fresh();
    put(&mut out, "  // ---- (up), r(s) = 3 ----------------------------------------------------");
    put(&mut out, "  // DEPARTURE: the clause has two cases. They are conditions on the source");
    put(&mut out, "  // state that exclude one another, so they become two commands with");
    put(&mut out, "  // disjoint guards, and only a sequence node receives both. The first hands");
    put(&mut out, "  // a sequence over from its first region to its second; the second closes");
    put(&mut out, "  // the node above the branches that are done.");
    out
}

/// Above the draws.
pub open spec fn nature_title_v() -> Seq<Seq<char>> {
    seq![
        "  // ---- (nature), r(s) = 4 ------------------------------------------------"@,
        "  // one command with a probabilistic update, the low branch carrying p."@,
    ]
}

fn nature_title() -> (r: Vec<String>)
    ensures
        texts(r@) == nature_title_v(),
{
    let mut out = fresh();
    put(&mut out, "  // ---- (nature), r(s) = 4 ------------------------------------------------");
    put(&mut out, "  // one command with a probabilistic update, the low branch carrying p.");
    out
}

/// Above the fast forward commands.
pub open spec fn ff_title_v() -> Seq<Seq<char>> {
    seq![
        "  // ---- (fast forward), r(s) = 5 ------------------------------------------"@,
        "  // The clause completes every closer and advances every other running node by"@,
        "  // t, tasks and internal nodes alike; the successor is given pointwise, so"@,
        "  // every node is assigned."@,
        "  // DEPARTURE: the effect never mentions the witness, the clause being global."@,
        "  // One command per task is emitted all the same, so that commands and clause"@,
        "  // instances stay in bijection; the guards exclude one another, so at most one"@,
        "  // is enabled, and identical distributions would in any case merge in Steps(s)."@,
    ]
}

fn ff_title() -> (r: Vec<String>)
    ensures
        texts(r@) == ff_title_v(),
{
    let mut out = fresh();
    put(&mut out, "  // ---- (fast forward), r(s) = 5 ------------------------------------------");
    put(&mut out, "  // The clause completes every closer and advances every other running node by");
    put(&mut out, "  // t, tasks and internal nodes alike; the successor is given pointwise, so");
    put(&mut out, "  // every node is assigned.");
    put(&mut out, "  // DEPARTURE: the effect never mentions the witness, the clause being global.");
    put(&mut out, "  // One command per task is emitted all the same, so that commands and clause");
    put(&mut out, "  // instances stay in bijection; the guards exclude one another, so at most one");
    put(&mut out, "  // is enabled, and identical distributions would in any case merge in Steps(s).");
    out
}

/// Above the absorption.
pub open spec fn absorb_title_v() -> Seq<Seq<char>> {
    seq![
        ""@,
        "  // ---- (absorption) ------------------------------------------------------"@,
        "  // s = s_F, the final state, where no trigger holds. DEPARTURE: the self loop"@,
        "  // is written out, since PRISM would otherwise report a deadlock and patch it."@,
    ]
}

fn absorb_title() -> (r: Vec<String>)
    ensures
        texts(r@) == absorb_title_v(),
{
    let mut out = fresh();
    put(&mut out, "");
    put(&mut out, "  // ---- (absorption) ------------------------------------------------------");
    put(&mut out, "  // s = s_F, the final state, where no trigger holds. DEPARTURE: the self loop");
    put(&mut out, "  // is written out, since PRISM would otherwise report a deadlock and patch it.");
    out
}

/// Above the final state.
pub open spec fn final_title_v() -> Seq<Seq<char>> {
    seq![
        ""@,
        "endmodule"@,
        ""@,
        "// the final state of Definition 7: the root is done"@,
    ]
}

fn final_title() -> (r: Vec<String>)
    ensures
        texts(r@) == final_title_v(),
{
    let mut out = fresh();
    put(&mut out, "");
    put(&mut out, "endmodule");
    put(&mut out, "");
    put(&mut out, "// the final state of Definition 7: the root is done");
    out
}

/// Above the rewards.
pub open spec fn rewards_title_v() -> Seq<Seq<char>> {
    seq![
        ""@,
        "// ---------------------------------------------------------------------------"@,
        "// the cost of Definition 3, one vector-valued function, becomes k reward"@,
        "// structures, k being the dimension of the instance. They are TRANSITION"@,
        "// rewards, attached to the fast forward transitions, which are the only ones"@,
        "// that pay: a multi-objective query over an MDP accepts transition rewards"@,
        "// only. Each structure is a single item summing one conditional term per task,"@,
        "// rather than one item per task, because the manual documents the summing of"@,
        "// several matching items for state rewards and does not repeat the statement"@,
        "// for transition rewards. The guard of an item is read in the SOURCE state,"@,
        "// which is where Closers(s) is read as well."@,
        "// ---------------------------------------------------------------------------"@,
    ]
}

fn rewards_title() -> (r: Vec<String>)
    ensures
        texts(r@) == rewards_title_v(),
{
    let mut out = fresh();
    put(&mut out, "");
    put(&mut out, "// ---------------------------------------------------------------------------");
    put(&mut out, "// the cost of Definition 3, one vector-valued function, becomes k reward");
    put(&mut out, "// structures, k being the dimension of the instance. They are TRANSITION");
    put(&mut out, "// rewards, attached to the fast forward transitions, which are the only ones");
    put(&mut out, "// that pay: a multi-objective query over an MDP accepts transition rewards");
    put(&mut out, "// only. Each structure is a single item summing one conditional term per task,");
    put(&mut out, "// rather than one item per task, because the manual documents the summing of");
    put(&mut out, "// several matching items for state rewards and does not repeat the statement");
    put(&mut out, "// for transition rewards. The guard of an item is read in the SOURCE state,");
    put(&mut out, "// which is where Closers(s) is read as well.");
    put(&mut out, "// ---------------------------------------------------------------------------");
    out
}

/// The name of the formula of a trigger at a node.
pub open spec fn psi_name(i: int, id: int) -> Seq<char> {
    "psi"@ + decimal(i as nat) + "_"@ + decimal(id as nat)
}

fn psi_text(i: u8, id: u32) -> (r: String)
    ensures
        r@ == psi_name(i as int, id as int),
{
    let s = cat3("psi", decimal_of(i as u128).as_str(), "_");
    cat2(s.as_str(), id_text(id).as_str())
}

pub open spec fn trigger_title(i: int) -> Seq<char> {
    let name = if i == 1 {
        "choice"@
    } else if i == 2 {
        "down"@
    } else if i == 3 {
        "up"@
    } else if i == 4 {
        "nature"@
    } else {
        "fast forward"@
    };
    "// Psi_"@ + decimal(i as nat) + ", the "@ + name + " trigger"@
}

/// The formulas of a trigger at the first `n` of these nodes.
pub open spec fn trigger_lines<N: Number>(t: &Tree<N>, i: int, ids: Seq<u32>, n: int) -> Seq<Seq<char>>
    decreases n,
{
    if n <= 0 {
        Seq::empty()
    } else {
        let id = ids[n - 1] as int;
        trigger_lines(t, i, ids, n - 1).push(
            "formula "@ + psi_name(i, id) + " = "@ + trigger_v(t.net().nodes, id, i) + ";  // node "@
                + decimal(id as nat) + ", "@ + label_v(t, id),
        )
    }
}

/// The formulas of these triggers, or `false` where there are none.
pub open spec fn some_v(i: int, ids: Seq<u32>) -> Seq<char> {
    if ids.len() == 0 {
        "false"@
    } else {
        joined(Seq::new(ids.len(), |j: int| psi_name(i, ids[j] as int)), " | "@)
    }
}

/// The formulas of a trigger.
pub open spec fn trigger_block<N: Number>(t: &Tree<N>, i: int) -> Seq<Seq<char>> {
    let ids = holders_v(t.net().nodes, i, t.n_nodes as int);
    (seq![trigger_title(i)] + trigger_lines(t, i, ids, ids.len() as int)).push(
        "formula some_psi"@ + decimal(i as nat) + " = "@ + some_v(i, ids) + ";"@,
    ).push(""@)
}

spec fn in_range(ids: Seq<u32>, n: u32) -> bool {
    forall|i: int| 0 <= i < ids.len() ==> 1 <= #[trigger] ids[i] <= n
}

fn triggers_at<N: Number>(tree: &Tree<N>, i: u8, ids: &Vec<u32>) -> (r: Vec<String>)
    requires
        tree.wf(),
        in_range(ids@, tree.n_nodes),
    ensures
        texts(r@) == trigger_lines(tree, i as int, ids@, ids@.len() as int),
{
    let mut out = fresh();
    for j in 0..ids.len()
        invariant
            tree.wf(),
            in_range(ids@, tree.n_nodes),
            texts(out@) == trigger_lines(tree, i as int, ids@, j as int),
    {
        let id = ids[j];
        let s = cat5(
            "formula ",
            psi_text(i, id).as_str(),
            " = ",
            trigger_text(tree, id, i).as_str(),
            ";  // node ",
        );
        let s = cat3(s.as_str(), id_text(id).as_str(), ", ");
        put2(&mut out, s.as_str(), label_of(tree, id).as_str());
    }
    out
}

fn some_of(i: u8, ids: &Vec<u32>) -> (r: String)
    ensures
        r@ == some_v(i as int, ids@),
{
    if ids.len() == 0 {
        return String::from_str("false");
    }
    let mut parts = fresh();
    for j in 0..ids.len()
        invariant
            texts(parts@) =~= Seq::new(j as nat, |l: int| psi_name(i as int, ids@[l] as int)),
    {
        put(&mut parts, psi_text(i, ids[j]).as_str());
    }
    join(&parts, " | ")
}

fn title_of(i: u8) -> (r: String)
    ensures
        r@ == trigger_title(i as int),
{
    let name = if i == 1 {
        "choice"
    } else if i == 2 {
        "down"
    } else if i == 3 {
        "up"
    } else if i == 4 {
        "nature"
    } else {
        "fast forward"
    };
    cat5("// Psi_", decimal_of(i as u128).as_str(), ", the ", name, " trigger")
}

fn write_triggers<N: Number>(tree: &Tree<N>, i: u8, ids: &Vec<u32>) -> (r: Vec<String>)
    requires
        tree.wf(),
        ids@ == holders_v(tree.net().nodes, i as int, tree.n_nodes as int),
    ensures
        texts(r@) == trigger_block(tree, i as int),
{
    proof {
        holders_range(tree.net().nodes, i as int, tree.n_nodes as int);
    }
    let mut out = fresh();
    put(&mut out, title_of(i).as_str());
    more(&mut out, triggers_at(tree, i, ids));
    let s = cat5(
        "formula some_psi",
        decimal_of(i as u128).as_str(),
        " = ",
        some_of(i, ids).as_str(),
        ";",
    );
    put(&mut out, s.as_str());
    put(&mut out, "");
    out
}

/// The conjunction that makes one of these nodes the witness: the trigger holds
/// there and at none before it.
pub open spec fn witness_body(i: int, ids: Seq<u32>, pos: int) -> Seq<char> {
    joined(
        Seq::new(
            (pos + 1) as nat,
            |j: int|
                if j == 0 {
                    psi_name(i, ids[pos] as int)
                } else {
                    "!"@ + psi_name(i, ids[j - 1] as int)
                },
        ),
        " & "@,
    )
}

/// The witness formulas of a trigger at the first `n` of these nodes.
pub open spec fn witness_lines(i: int, ids: Seq<u32>, n: int) -> Seq<Seq<char>>
    decreases n,
{
    if n <= 0 {
        Seq::empty()
    } else {
        witness_lines(i, ids, n - 1).push(
            "formula wit"@ + decimal(i as nat) + "_"@ + decimal(ids[n - 1] as nat) + " = "@
                + witness_body(i, ids, n - 1) + ";"@,
        )
    }
}

pub open spec fn witness_block<N: Number>(t: &Tree<N>, i: int) -> Seq<Seq<char>> {
    let ids = holders_v(t.net().nodes, i, t.n_nodes as int);
    let lines = witness_lines(i, ids, ids.len() as int);
    if ids.len() > 0 {
        lines.push(""@)
    } else {
        lines
    }
}

fn write_witnesses(i: u8, ids: &Vec<u32>) -> (r: Vec<String>)
    ensures
        texts(r@) == (if ids@.len() > 0 {
            witness_lines(i as int, ids@, ids@.len() as int).push(""@)
        } else {
            witness_lines(i as int, ids@, ids@.len() as int)
        }),
{
    let mut out = fresh();
    for pos in 0..ids.len()
        invariant
            texts(out@) == witness_lines(i as int, ids@, pos as int),
    {
        let mut parts = fresh();
        put(&mut parts, psi_text(i, ids[pos]).as_str());
        let ghost body = |j: int|
            if j == 0 {
                psi_name(i as int, ids@[pos as int] as int)
            } else {
                "!"@ + psi_name(i as int, ids@[j - 1] as int)
            };
        assert(texts(parts@) =~= Seq::new(1, body));
        for j in 0..pos
            invariant
                pos < ids@.len(),
                body == (|j: int|
                    if j == 0 {
                        psi_name(i as int, ids@[pos as int] as int)
                    } else {
                        "!"@ + psi_name(i as int, ids@[j - 1] as int)
                    }),
                texts(parts@) == Seq::new((j + 1) as nat, body),
        {
            put2(&mut parts, "!", psi_text(i, ids[j]).as_str());
            assert(texts(parts@) =~= Seq::new((j + 2) as nat, body));
        }
        let s = cat5(
            "formula wit",
            decimal_of(i as u128).as_str(),
            "_",
            id_text(ids[pos]).as_str(),
            " = ",
        );
        let s = cat3(s.as_str(), join(&parts, " & ").as_str(), ";");
        put(&mut out, s.as_str());
    }
    if ids.len() > 0 {
        put(&mut out, "");
    }
    out
}

// ---------------------------------------------------------------------------
// the fast forward
// ---------------------------------------------------------------------------

/// The time a task still needs, past the horizon where it is not running.
pub open spec fn remaining_v(id: int) -> Seq<char> {
    let n = decimal(id as nat);
    "n"@ + n + ">=0 ? d"@ + n + "-n"@ + n + " : no_time"@
}

/// The step of the fast forward.
pub open spec fn step_line(tasks: Seq<u32>) -> Seq<char> {
    if tasks.len() == 1 {
        "formula t_step = "@ + remaining_v(tasks[0] as int) + ";"@
    } else {
        "formula t_step = min("@ + joined(
            Seq::new(tasks.len(), |j: int| remaining_v(tasks[j] as int)),
            ",\n                     "@,
        ) + ");"@
    }
}

fn remaining(id: u32) -> (r: String)
    ensures
        r@ == remaining_v(id as int),
{
    let n = id_text(id);
    let s = cat5("n", n.as_str(), ">=0 ? d", n.as_str(), "-n");
    cat3(s.as_str(), n.as_str(), " : no_time")
}

fn write_step(tasks: &Vec<u32>) -> (r: String)
    ensures
        r@ == step_line(tasks@),
{
    if tasks.len() == 1 {
        return cat3("formula t_step = ", remaining(tasks[0]).as_str(), ";");
    }
    let mut parts = fresh();
    for j in 0..tasks.len()
        invariant
            texts(parts@) =~= Seq::new(j as nat, |l: int| remaining_v(tasks@[l] as int)),
    {
        put(&mut parts, remaining(tasks[j]).as_str());
    }
    cat3("formula t_step = min(", join(&parts, ",\n                     ").as_str(), ");")
}

/// The closers among the first `n` tasks.
pub open spec fn closer_lines<N: Number>(t: &Tree<N>, n: int) -> Seq<Seq<char>>
    decreases n,
{
    if n <= 0 {
        Seq::empty()
    } else {
        let id = t.tasks@[n - 1] as int;
        let d = decimal(id as nat);
        closer_lines(t, n - 1).push(
            "formula closes"@ + d + " = n"@ + d + ">=0 & d"@ + d + "-n"@ + d + "=t_step;  // "@
                + t.task_names@[id]@,
        )
    }
}

fn write_closers<N: Number>(tree: &Tree<N>) -> (r: Vec<String>)
    requires
        tree.wf(),
    ensures
        texts(r@) == closer_lines(tree, tree.tasks@.len() as int),
{
    proof {
        task_ids_range(tree.net().nodes, tree.n_nodes as int);
    }
    let mut out = fresh();
    for j in 0..tree.tasks.len()
        invariant
            tree.wf(),
            in_range(tree.tasks@, tree.n_nodes),
            texts(out@) == closer_lines(tree, j as int),
    {
        let t = tree.tasks[j];
        let d = id_text(t);
        let s = cat5("formula closes", d.as_str(), " = n", d.as_str(), ">=0 & d");
        let s = cat5(s.as_str(), d.as_str(), "-n", d.as_str(), "=t_step;  // ");
        put2(&mut out, s.as_str(), tree.task_names[t as usize].as_str());
    }
    out
}

/// The largest value of the variable of a node.
pub open spec fn top_v<N: Number>(t: &Tree<N>, id: int) -> int {
    if t.nodes@[id].kind == Kind::Task {
        t.nodes@[id].duration - 1
    } else {
        time_v(t.net(), id)
    }
}

/// The value of a node after a fast forward.
pub open spec fn successor_v<N: Number>(t: &Tree<N>, id: int) -> Seq<char> {
    let u = var(id);
    if t.nodes@[id].kind == Kind::Task {
        u + "<0 ? "@ + u + " : (closes"@ + decimal(id as nat) + " ? -2 : min("@ + u + "+t_step, "@
            + signed(top_v(t, id)) + "))"@
    } else {
        u + "<0 ? "@ + u + " : min("@ + u + "+t_step, "@ + signed(top_v(t, id)) + ")"@
    }
}

/// The successors of the first `n` nodes.
pub open spec fn successor_lines<N: Number>(t: &Tree<N>, n: int) -> Seq<Seq<char>>
    decreases n,
{
    if n <= 0 {
        Seq::empty()
    } else {
        successor_lines(t, n - 1).push(
            "formula ff"@ + decimal(n as nat) + " = "@ + successor_v(t, n) + ";  // node "@ + decimal(
                n as nat,
            ) + ", "@ + label_v(t, n),
        )
    }
}

/// The variables of the first `n` nodes.
pub open spec fn variable_lines<N: Number>(t: &Tree<N>, n: int) -> Seq<Seq<char>>
    decreases n,
{
    if n <= 0 {
        Seq::empty()
    } else {
        let init = if n == t.root {
            "0"@
        } else {
            "-1"@
        };
        variable_lines(t, n - 1).push(
            "  n"@ + decimal(n as nat) + " : [-2.."@ + signed(top_v(t, n)) + "] init "@ + init
                + ";  // node "@ + decimal(n as nat) + ", "@ + label_v(t, n),
        )
    }
}

spec fn timed<N: Number>(t: &Tree<N>, times: Seq<i64>) -> bool {
    &&& times.len() == t.n_nodes
    &&& forall|id: int| 1 <= id <= t.n_nodes ==> #[trigger] times[id - 1] == time_v(t.net(), id)
}

fn top_of<N: Number>(tree: &Tree<N>, times: &Vec<i64>, id: u32) -> (r: i64)
    requires
        tree.wf(),
        timed(tree, times@),
        1 <= id <= tree.n_nodes,
    ensures
        r == top_v(tree, id as int),
{
    let n = tree.node(id);
    if n.kind == Kind::Task {
        n.duration as i64 - 1
    } else {
        assert(times@[id - 1] == time_v(tree.net(), id as int));
        times[id as usize - 1]
    }
}

fn write_successors<N: Number>(tree: &Tree<N>, times: &Vec<i64>) -> (r: Vec<String>)
    requires
        tree.wf(),
        timed(tree, times@),
    ensures
        texts(r@) == successor_lines(tree, tree.n_nodes as int),
{
    let mut out = fresh();
    for id in 1..tree.n_nodes + 1
        invariant
            tree.wf(),
            timed(tree, times@),
            texts(out@) == successor_lines(tree, id - 1),
    {
        let u = var_text(id);
        let top = signed_of(top_of(tree, times, id));
        let body = if tree.kind(id) == Kind::Task {
            let s = cat5(u.as_str(), "<0 ? ", u.as_str(), " : (closes", id_text(id).as_str());
            let s = cat5(s.as_str(), " ? -2 : min(", u.as_str(), "+t_step, ", top.as_str());
            cat2(s.as_str(), "))")
        } else {
            let s = cat5(u.as_str(), "<0 ? ", u.as_str(), " : min(", u.as_str());
            let s = cat3(s.as_str(), "+t_step, ", top.as_str());
            cat2(s.as_str(), ")")
        };
        let s = cat5("formula ff", id_text(id).as_str(), " = ", body.as_str(), ";  // node ");
        let s = cat3(s.as_str(), id_text(id).as_str(), ", ");
        put2(&mut out, s.as_str(), label_of(tree, id).as_str());
    }
    out
}

fn write_variables<N: Number>(tree: &Tree<N>, times: &Vec<i64>) -> (r: Vec<String>)
    requires
        tree.wf(),
        timed(tree, times@),
    ensures
        texts(r@) == variable_lines(tree, tree.n_nodes as int),
{
    let mut out = fresh();
    for id in 1..tree.n_nodes + 1
        invariant
            tree.wf(),
            timed(tree, times@),
            texts(out@) == variable_lines(tree, id - 1),
    {
        let top = signed_of(top_of(tree, times, id));
        let init = if id == tree.root {
            "0"
        } else {
            "-1"
        };
        let s = cat5("  n", id_text(id).as_str(), " : [-2..", top.as_str(), "] init ");
        let s = cat5(s.as_str(), init, ";  // node ", id_text(id).as_str(), ", ");
        put2(&mut out, s.as_str(), label_of(tree, id).as_str());
    }
    out
}

/// The trail of the first `n` choice and nature nodes.
pub open spec fn trail_lines<N: Number>(t: &Tree<N>, n: int) -> Seq<Seq<char>>
    decreases n,
{
    if n <= 0 {
        Seq::empty()
    } else {
        let id = t.xors@[n - 1] as int;
        trail_lines(t, n - 1).push(
            "  d"@ + decimal(id as nat) + " : [0..2] init 0;  // node "@ + decimal(id as nat) + ", "@
                + label_v(t, id),
        )
    }
}

/// The decision trail, where the history is encoded and there are decisions.
pub open spec fn trail_v<N: Number>(t: &Tree<N>, history: bool) -> Seq<Seq<char>> {
    if history && t.xors@.len() > 0 {
        (seq!["  // the decision trail: 0 not yet decided, 1 the low branch, 2 the high one"@]
            + trail_lines(t, t.xors@.len() as int)).push(""@)
    } else {
        Seq::empty()
    }
}

fn write_trail<N: Number>(tree: &Tree<N>, history: bool) -> (r: Vec<String>)
    requires
        tree.wf(),
    ensures
        texts(r@) == trail_v(tree, history),
{
    if !history || tree.xors.len() == 0 {
        return fresh();
    }
    proof {
        xor_ids_range(tree.net().nodes, tree.n_nodes as int);
    }
    let mut lines = fresh();
    for j in 0..tree.xors.len()
        invariant
            tree.wf(),
            in_range(tree.xors@, tree.n_nodes),
            texts(lines@) == trail_lines(tree, j as int),
    {
        let id = tree.xors[j];
        let s = cat5(
            "  d",
            id_text(id).as_str(),
            " : [0..2] init 0;  // node ",
            id_text(id).as_str(),
            ", ",
        );
        put2(&mut lines, s.as_str(), label_of(tree, id).as_str());
    }
    let mut out = fresh();
    put(&mut out, "  // the decision trail: 0 not yet decided, 1 the low branch, 2 the high one");
    more(&mut out, lines);
    put(&mut out, "");
    out
}

// ---------------------------------------------------------------------------
// the commands
// ---------------------------------------------------------------------------

/// The mark a decision leaves on the trail.
pub open spec fn mark_v(id: int, branch: Seq<char>, history: bool) -> Seq<char> {
    if history {
        " & (d"@ + decimal(id as nat) + "'="@ + branch + ")"@
    } else {
        ""@
    }
}

fn mark(id: u32, branch: &str, history: bool) -> (r: String)
    ensures
        r@ == mark_v(id as int, branch@, history),
{
    if history {
        cat5(" & (d", id_text(id).as_str(), "'=", branch, ")")
    } else {
        String::from_str("")
    }
}

/// The guard of a command.
pub open spec fn guard_v(i: int, id: int) -> Seq<char> {
    "rank"@ + decimal(i as nat) + " & wit"@ + decimal(i as nat) + "_"@ + decimal(id as nat)
}

fn guard(i: u8, id: u32) -> (r: String)
    ensures
        r@ == guard_v(i as int, id as int),
{
    let n = decimal_of(i as u128);
    let s = cat5("rank", n.as_str(), " & wit", n.as_str(), "_");
    cat2(s.as_str(), id_text(id).as_str())
}

/// A node starts.
pub open spec fn start_v(id: int) -> Seq<char> {
    "("@ + var(id) + "'=0)"@
}

fn start(id: u32) -> (r: String)
    ensures
        r@ == start_v(id as int),
{
    cat3("(", var_text(id).as_str(), "'=0)")
}

/// The commands of the first `n` choices.
pub open spec fn choice_lines<N: Number>(t: &Tree<N>, ids: Seq<u32>, n: int, history: bool) -> Seq<
    Seq<char>,
>
    decreases n,
{
    if n <= 0 {
        Seq::empty()
    } else {
        let id = ids[n - 1] as int;
        let node = t.nodes@[id];
        choice_lines(t, ids, n - 1, history).push(
            "  [choice"@ + decimal(id as nat) + "low]  "@ + guard_v(1, id) + " -> "@ + start_v(
                node.low as int,
            ) + mark_v(id, "1"@, history) + ";"@,
        ).push(
            "  [choice"@ + decimal(id as nat) + "high] "@ + guard_v(1, id) + " -> "@ + start_v(
                node.high as int,
            ) + mark_v(id, "2"@, history) + ";"@,
        )
    }
}

fn write_choices<N: Number>(tree: &Tree<N>, ids: &Vec<u32>, history: bool) -> (r: Vec<String>)
    requires
        tree.wf(),
        in_range(ids@, tree.n_nodes),
    ensures
        texts(r@) == choice_lines(tree, ids@, ids@.len() as int, history),
{
    let mut out = fresh();
    for j in 0..ids.len()
        invariant
            tree.wf(),
            in_range(ids@, tree.n_nodes),
            texts(out@) == choice_lines(tree, ids@, j as int, history),
    {
        let id = ids[j];
        let node = tree.node(id);
        let g = guard(1, id);
        let s = cat5("  [choice", id_text(id).as_str(), "low]  ", g.as_str(), " -> ");
        let s = cat3(s.as_str(), start(node.low).as_str(), mark(id, "1", history).as_str());
        put2(&mut out, s.as_str(), ";");
        let s = cat5("  [choice", id_text(id).as_str(), "high] ", g.as_str(), " -> ");
        let s = cat3(s.as_str(), start(node.high).as_str(), mark(id, "2", history).as_str());
        put2(&mut out, s.as_str(), ";");
    }
    out
}

/// The effect of a descent.
pub open spec fn down_v<N: Number>(t: &Tree<N>, id: int) -> Seq<char> {
    let node = t.nodes@[id];
    if node.kind == Kind::Sequence {
        start_v(node.low as int)
    } else {
        start_v(node.low as int) + " & "@ + start_v(node.high as int)
    }
}

/// The commands of the first `n` descents.
pub open spec fn down_lines<N: Number>(t: &Tree<N>, ids: Seq<u32>, n: int) -> Seq<Seq<char>>
    decreases n,
{
    if n <= 0 {
        Seq::empty()
    } else {
        let id = ids[n - 1] as int;
        down_lines(t, ids, n - 1).push(
            "  [down"@ + decimal(id as nat) + "] "@ + guard_v(2, id) + " -> "@ + down_v(t, id)
                + ";  // "@ + kind_text(t.nodes@[id].kind),
        )
    }
}

fn write_downs<N: Number>(tree: &Tree<N>, ids: &Vec<u32>) -> (r: Vec<String>)
    requires
        tree.wf(),
        in_range(ids@, tree.n_nodes),
    ensures
        texts(r@) == down_lines(tree, ids@, ids@.len() as int),
{
    let mut out = fresh();
    for j in 0..ids.len()
        invariant
            tree.wf(),
            in_range(ids@, tree.n_nodes),
            texts(out@) == down_lines(tree, ids@, j as int),
    {
        let id = ids[j];
        let node = tree.node(id);
        let effect = if node.kind == Kind::Sequence {
            start(node.low)
        } else {
            cat3(start(node.low).as_str(), " & ", start(node.high).as_str())
        };
        let s = cat5("  [down", id_text(id).as_str(), "] ", guard(2, id).as_str(), " -> ");
        let s = cat3(s.as_str(), effect.as_str(), ";  // ");
        put2(&mut out, s.as_str(), kind_word(node.kind));
    }
    out
}

/// The effect of a closing.
pub open spec fn close_v(low: Seq<char>, high: Seq<char>, me: Seq<char>) -> Seq<char> {
    "("@ + low + "'=-1) & ("@ + high + "'=-1) & ("@ + me + "'=-2)"@
}

fn close(low: &str, high: &str, me: &str) -> (r: String)
    ensures
        r@ == close_v(low@, high@, me@),
{
    let s = cat5("(", low, "'=-1) & (", high, "'=-1) & (");
    cat3(s.as_str(), me, "'=-2)")
}

/// The commands of the first `n` closings; a sequence has one more, which hands
/// over from its first region to its second.
pub open spec fn up_lines<N: Number>(t: &Tree<N>, ids: Seq<u32>, n: int) -> Seq<Seq<char>>
    decreases n,
{
    if n <= 0 {
        Seq::empty()
    } else {
        let id = ids[n - 1] as int;
        let node = t.nodes@[id];
        let (low, high, me) = (var(node.low as int), var(node.high as int), var(id));
        let d = decimal(id as nat);
        let g = guard_v(3, id);
        let before = up_lines(t, ids, n - 1);
        if node.kind == Kind::Sequence {
            let hand = low + "=-2 & "@ + high + "=-1"@;
            before.push(
                "  [up"@ + d + "hand]  "@ + g + " & ("@ + hand + ") -> ("@ + low + "'=-1) & ("@ + high
                    + "'=0);"@,
            ).push(
                "  [up"@ + d + "close] "@ + g + " & !("@ + hand + ") -> "@ + close_v(low, high, me)
                    + ";"@,
            )
        } else {
            before.push(
                "  [up"@ + d + "close] "@ + g + " -> "@ + close_v(low, high, me) + ";  // "@
                    + kind_text(node.kind),
            )
        }
    }
}

fn write_ups<N: Number>(tree: &Tree<N>, ids: &Vec<u32>) -> (r: Vec<String>)
    requires
        tree.wf(),
        in_range(ids@, tree.n_nodes),
    ensures
        texts(r@) == up_lines(tree, ids@, ids@.len() as int),
{
    let mut out = fresh();
    for j in 0..ids.len()
        invariant
            tree.wf(),
            in_range(ids@, tree.n_nodes),
            texts(out@) == up_lines(tree, ids@, j as int),
    {
        let id = ids[j];
        let node = tree.node(id);
        let low = var_text(node.low);
        let high = var_text(node.high);
        let me = var_text(id);
        let d = id_text(id);
        let g = guard(3, id);
        let end = close(low.as_str(), high.as_str(), me.as_str());
        if node.kind == Kind::Sequence {
            let hand = cat3(low.as_str(), "=-2 & ", high.as_str());
            let hand = cat2(hand.as_str(), "=-1");
            let s = cat5("  [up", d.as_str(), "hand]  ", g.as_str(), " & (");
            let s = cat5(s.as_str(), hand.as_str(), ") -> (", low.as_str(), "'=-1) & (");
            let s = cat3(s.as_str(), high.as_str(), "'=0);");
            put(&mut out, s.as_str());
            let s = cat5("  [up", d.as_str(), "close] ", g.as_str(), " & !(");
            let s = cat5(s.as_str(), hand.as_str(), ") -> ", end.as_str(), ";");
            put(&mut out, s.as_str());
        } else {
            let s = cat5("  [up", d.as_str(), "close] ", g.as_str(), " -> ");
            let s = cat3(s.as_str(), end.as_str(), ";  // ");
            put2(&mut out, s.as_str(), kind_word(node.kind));
        }
    }
    out
}

/// The commands of the first `n` nature nodes.
pub open spec fn nature_lines<N: Number>(t: &Tree<N>, ids: Seq<u32>, n: int, history: bool) -> Seq<
    Seq<char>,
>
    decreases n,
{
    if n <= 0 {
        Seq::empty()
    } else {
        let id = ids[n - 1] as int;
        let node = t.nodes@[id];
        let d = decimal(id as nat);
        nature_lines(t, ids, n - 1, history).push(
            "  [nature"@ + d + "] "@ + guard_v(4, id) + " -> p"@ + d + " : "@ + start_v(
                node.low as int,
            ) + mark_v(id, "1"@, history) + " + (1-p"@ + d + ") : "@ + start_v(node.high as int)
                + mark_v(id, "2"@, history) + ";"@,
        )
    }
}

fn write_natures<N: Number>(tree: &Tree<N>, ids: &Vec<u32>, history: bool) -> (r: Vec<String>)
    requires
        tree.wf(),
        in_range(ids@, tree.n_nodes),
    ensures
        texts(r@) == nature_lines(tree, ids@, ids@.len() as int, history),
{
    let mut out = fresh();
    for j in 0..ids.len()
        invariant
            tree.wf(),
            in_range(ids@, tree.n_nodes),
            texts(out@) == nature_lines(tree, ids@, j as int, history),
    {
        let id = ids[j];
        let node = tree.node(id);
        let d = id_text(id);
        let s = cat5("  [nature", d.as_str(), "] ", guard(4, id).as_str(), " -> p");
        let s = cat3(s.as_str(), d.as_str(), " : ");
        let s = cat3(s.as_str(), start(node.low).as_str(), mark(id, "1", history).as_str());
        let s = cat3(s.as_str(), " + (1-p", d.as_str());
        let s = cat3(s.as_str(), ") : ", start(node.high).as_str());
        let s = cat3(s.as_str(), mark(id, "2", history).as_str(), ";");
        put(&mut out, s.as_str());
    }
    out
}

/// The update of the fast forward, which assigns every node.
pub open spec fn updates_v(n: nat) -> Seq<char> {
    joined(
        Seq::new(n, |j: int| "(n"@ + decimal((j + 1) as nat) + "'=ff"@ + decimal((j + 1) as nat) + ")"@),
        " & "@,
    )
}

fn updates(n: u32) -> (r: String)
    requires
        n < u32::MAX,
    ensures
        r@ == updates_v(n as nat),
{
    let mut parts = fresh();
    for id in 1..n + 1
        invariant
            n < u32::MAX,
            texts(parts@) =~= Seq::new(
                (id - 1) as nat,
                |j: int| "(n"@ + decimal((j + 1) as nat) + "'=ff"@ + decimal((j + 1) as nat) + ")"@,
            ),
    {
        let d = id_text(id);
        put(&mut parts, cat5("(n", d.as_str(), "'=ff", d.as_str(), ")").as_str());
    }
    join(&parts, " & ")
}

/// The commands of the fast forward at the first `n` tasks.
pub open spec fn forward_lines<N: Number>(t: &Tree<N>, n: int) -> Seq<Seq<char>>
    decreases n,
{
    if n <= 0 {
        Seq::empty()
    } else {
        forward_lines(t, n - 1).push(
            "  [ff] rank5 & wit5_"@ + decimal(t.tasks@[n - 1] as nat) + " -> "@ + updates_v(
                t.n_nodes as nat,
            ) + ";"@,
        )
    }
}

fn write_forwards<N: Number>(tree: &Tree<N>) -> (r: Vec<String>)
    requires
        tree.wf(),
    ensures
        texts(r@) == forward_lines(tree, tree.tasks@.len() as int),
{
    let all = updates(tree.n_nodes);
    let mut out = fresh();
    for j in 0..tree.tasks.len()
        invariant
            all@ == updates_v(tree.n_nodes as nat),
            texts(out@) == forward_lines(tree, j as int),
    {
        let s = cat5(
            "  [ff] rank5 & wit5_",
            id_text(tree.tasks[j]).as_str(),
            " -> ",
            all.as_str(),
            ";",
        );
        put(&mut out, s.as_str());
    }
    out
}

// ---------------------------------------------------------------------------
// the rewards
// ---------------------------------------------------------------------------

/// What the first `n` tasks pay in a component.
pub open spec fn reward_lines<N: Number>(t: &Tree<N>, c: int, n: int) -> Seq<Seq<char>>
    decreases n,
{
    if n <= 0 {
        Seq::empty()
    } else {
        let id = t.tasks@[n - 1] as int;
        let plus = if n == 1 {
            "  "@
        } else {
            "+ "@
        };
        reward_lines(t, c, n - 1).push(
            "      "@ + plus + "(closes"@ + decimal(id as nat) + " ? "@ + dbl_v::<N>(t.impact_v(id)[c])
                + " : 0.0)   // "@ + t.task_names@[id]@,
        )
    }
}

fn write_reward<N: Number>(tree: &Tree<N>, c: usize) -> (r: Vec<String>)
    requires
        tree.wf(),
        c < tree.k,
    ensures
        texts(r@) == reward_lines(tree, c as int, tree.tasks@.len() as int),
{
    proof {
        task_ids_range(tree.net().nodes, tree.n_nodes as int);
    }
    let mut out = fresh();
    for j in 0..tree.tasks.len()
        invariant
            tree.wf(),
            c < tree.k,
            in_range(tree.tasks@, tree.n_nodes),
            texts(out@) == reward_lines(tree, c as int, j as int),
    {
        let t = tree.tasks[j];
        let plus = if j == 0 {
            "  "
        } else {
            "+ "
        };
        let row = tree.impact(t);
        assert(vals(row@)[c as int] == tree.impact_v(t as int)[c as int]);
        let s = cat5("      ", plus, "(closes", id_text(t).as_str(), " ? ");
        let s = cat3(s.as_str(), dbl(&row[c]).as_str(), " : 0.0)   // ");
        put2(&mut out, s.as_str(), tree.task_names[t as usize].as_str());
    }
    out
}

/// The reward structures of the first `n` components.
pub open spec fn rewards_v<N: Number>(t: &Tree<N>, n: int) -> Seq<Seq<char>>
    decreases n,
{
    if n <= 0 {
        Seq::empty()
    } else {
        (rewards_v(t, n - 1).push("rewards \"impact"@ + decimal((n - 1) as nat) + "\""@).push(
            "  [ff] true :"@,
        ) + reward_lines(t, n - 1, t.tasks@.len() as int)).push("  ;"@).push("endrewards"@).push(""@)
    }
}

fn write_rewards<N: Number>(tree: &Tree<N>) -> (r: Vec<String>)
    requires
        tree.wf(),
    ensures
        texts(r@) == rewards_v(tree, tree.k as int),
{
    let mut out = fresh();
    for c in 0..tree.k
        invariant
            tree.wf(),
            texts(out@) == rewards_v(tree, c as int),
    {
        put(&mut out, cat3("rewards \"impact", decimal_of(c as u128).as_str(), "\"").as_str());
        put(&mut out, "  [ff] true :");
        more(&mut out, write_reward(tree, c));
        put(&mut out, "  ;");
        put(&mut out, "endrewards");
        put(&mut out, "");
    }
    out
}

// ---------------------------------------------------------------------------
// the model
// ---------------------------------------------------------------------------

/// A block of commands below its title, where there are any.
pub open spec fn section(title: Seq<Seq<char>>, lines: Seq<Seq<char>>) -> Seq<Seq<char>> {
    if lines.len() > 0 {
        (title + lines).push(""@)
    } else {
        Seq::empty()
    }
}

fn sectioned(title: Vec<String>, lines: Vec<String>) -> (r: Vec<String>)
    ensures
        texts(r@) == section(texts(title@), texts(lines@)),
{
    if lines.len() == 0 {
        return fresh();
    }
    let mut out = title;
    more(&mut out, lines);
    put(&mut out, "");
    out
}

/// The triggers, the ranks and the witnesses.
pub open spec fn formulas_v<N: Number>(t: &Tree<N>) -> Seq<Seq<char>> {
    triggers_title_v() + trigger_block(t, 1) + trigger_block(t, 2) + trigger_block(t, 3)
        + trigger_block(t, 4) + trigger_block(t, 5) + rank_title_v() + ranks_v() + witness_title_v()
        + witness_block(t, 1) + witness_block(t, 2) + witness_block(t, 3) + witness_block(t, 4)
        + witness_block(t, 5)
}

/// The formulas of the fast forward.
pub open spec fn forward_v<N: Number>(t: &Tree<N>) -> Seq<Seq<char>> {
    let a = forward_title_v().push(step_line(t.tasks@)).push(""@) + closer_lines(
        t,
        t.tasks@.len() as int,
    );
    (a.push(""@) + successor_title_v() + successor_lines(t, t.n_nodes as int)).push(""@)
}

/// The commands.
pub open spec fn commands_v<N: Number>(t: &Tree<N>, history: bool) -> Seq<Seq<char>> {
    let g = t.net().nodes;
    let n = t.n_nodes as int;
    let choices = holders_v(g, 1, n);
    let downs = holders_v(g, 2, n);
    let ups = holders_v(g, 3, n);
    let natures = holders_v(g, 4, n);
    section(choice_title_v(), choice_lines(t, choices, choices.len() as int, history)) + section(
        down_title_v(),
        down_lines(t, downs, downs.len() as int),
    ) + section(up_title_v(), up_lines(t, ups, ups.len() as int)) + section(
        nature_title_v(),
        nature_lines(t, natures, natures.len() as int, history),
    ) + ff_title_v() + forward_lines(t, t.tasks@.len() as int) + absorb_title_v()
}

/// The module of the process.
pub open spec fn module_v<N: Number>(t: &Tree<N>, history: bool) -> Seq<Seq<char>> {
    let root = var(t.root as int);
    ((module_title_v() + variable_lines(t, t.n_nodes as int)).push(""@) + trail_v(t, history)
        + commands_v(t, history)).push(
        "  [absorb] "@ + root + "=-2 -> ("@ + root + "'=-2);"@,
    ) + final_title_v()
}

/// The lines of the model of an instance.
pub open spec fn model_lines<N: Number>(
    t: &Tree<N>,
    stem: Seq<char>,
    file_name: Seq<char>,
    history: bool,
) -> Seq<Seq<char>> {
    (keys_v(t, stem, file_name) + scaling_v() + constants_v(t) + formulas_v(t) + forward_v(t)
        + module_v(t, history)).push("label \"final\" = "@ + var(t.root as int) + "=-2;"@)
        + rewards_title_v() + rewards_v(t, t.k as int)
}

fn write_formulas<N: Number>(tree: &Tree<N>) -> (r: Vec<String>)
    requires
        tree.wf(),
    ensures
        texts(r@) == formulas_v(tree),
{
    let h1 = holders(tree, 1);
    let h2 = holders(tree, 2);
    let h3 = holders(tree, 3);
    let h4 = holders(tree, 4);
    let h5 = holders(tree, 5);
    let mut out = triggers_title();
    more(&mut out, write_triggers(tree, 1, &h1));
    more(&mut out, write_triggers(tree, 2, &h2));
    more(&mut out, write_triggers(tree, 3, &h3));
    more(&mut out, write_triggers(tree, 4, &h4));
    more(&mut out, write_triggers(tree, 5, &h5));
    more(&mut out, rank_title());
    more(&mut out, ranks());
    more(&mut out, witness_title());
    more(&mut out, write_witnesses(1, &h1));
    more(&mut out, write_witnesses(2, &h2));
    more(&mut out, write_witnesses(3, &h3));
    more(&mut out, write_witnesses(4, &h4));
    more(&mut out, write_witnesses(5, &h5));
    out
}

fn write_forward<N: Number>(tree: &Tree<N>, times: &Vec<i64>) -> (r: Vec<String>)
    requires
        tree.wf(),
        timed(tree, times@),
    ensures
        texts(r@) == forward_v(tree),
{
    let mut out = forward_title();
    put(&mut out, write_step(&tree.tasks).as_str());
    put(&mut out, "");
    more(&mut out, write_closers(tree));
    put(&mut out, "");
    more(&mut out, successor_title());
    more(&mut out, write_successors(tree, times));
    put(&mut out, "");
    out
}

fn write_commands<N: Number>(tree: &Tree<N>, history: bool) -> (r: Vec<String>)
    requires
        tree.wf(),
    ensures
        texts(r@) == commands_v(tree, history),
{
    proof {
        let g = tree.net().nodes;
        let n = tree.n_nodes as int;
        holders_range(g, 1, n);
        holders_range(g, 2, n);
        holders_range(g, 3, n);
        holders_range(g, 4, n);
    }
    let choices = holders(tree, 1);
    let downs = holders(tree, 2);
    let ups = holders(tree, 3);
    let natures = holders(tree, 4);
    let mut out = sectioned(choice_title(), write_choices(tree, &choices, history));
    more(&mut out, sectioned(down_title(), write_downs(tree, &downs)));
    more(&mut out, sectioned(up_title(), write_ups(tree, &ups)));
    more(&mut out, sectioned(nature_title(), write_natures(tree, &natures, history)));
    more(&mut out, ff_title());
    more(&mut out, write_forwards(tree));
    more(&mut out, absorb_title());
    out
}

fn write_module<N: Number>(tree: &Tree<N>, times: &Vec<i64>, history: bool) -> (r: Vec<String>)
    requires
        tree.wf(),
        timed(tree, times@),
    ensures
        texts(r@) == module_v(tree, history),
{
    let root = var_text(tree.root);
    let mut out = module_title();
    more(&mut out, write_variables(tree, times));
    put(&mut out, "");
    more(&mut out, write_trail(tree, history));
    more(&mut out, write_commands(tree, history));
    let s = cat5("  [absorb] ", root.as_str(), "=-2 -> (", root.as_str(), "'=-2);");
    put(&mut out, s.as_str());
    more(&mut out, final_title());
    out
}

/// The model of an instance.
pub fn emit<N: Number>(tree: &Tree<N>, stem: &str, file_name: &str, history: bool) -> (r: String)
    requires
        tree.wf(),
    ensures
        r@ == unlines(model_lines(tree, stem@, file_name@, history)),
{
    let times = compute_bounds(tree);
    let mut out = keys(tree, stem, file_name);
    more(&mut out, scaling());
    more(&mut out, constants(tree));
    more(&mut out, write_formulas(tree));
    more(&mut out, write_forward(tree, &times));
    more(&mut out, write_module(tree, &times, history));
    let s = cat3("label \"final\" = ", var_text(tree.root).as_str(), "=-2;");
    put(&mut out, s.as_str());
    more(&mut out, rewards_title());
    more(&mut out, write_rewards(tree));
    lined(&out)
}

// ---------------------------------------------------------------------------
// what the guards say
// ---------------------------------------------------------------------------

/// The formula of a trigger at a node, read in a state.
pub open spec fn formula_holds(g: Seq<Vertex>, s: Seq<i8>, id: int, i: int) -> bool {
    if i == 3 {
        if g[id].kind == Kind::Parallel {
            both(g, s, id, DONE)
        } else {
            either(g, s, id, DONE)
        }
    } else if i == 5 {
        0 <= s[id] < g[id].duration
    } else {
        s[id] >= 0 && both(g, s, id, IDLE)
    }
}

/// Some node whose label lets the trigger hold satisfies its formula.
pub open spec fn some_holds(g: Seq<Vertex>, s: Seq<i8>, i: int) -> bool {
    exists|v: int|
        1 <= v < g.len() && can_hold((#[trigger] g[v]).kind, i) && formula_holds(g, s, v, i)
}

/// The guard of a command, read in a state: the rank negates every trigger
/// above it, and the witness negates the same trigger at every holder of a
/// smaller identifier.
pub open spec fn guard_holds(g: Seq<Vertex>, s: Seq<i8>, i: int, id: int) -> bool {
    &&& can_hold(g[id].kind, i) && formula_holds(g, s, id, i)
    &&& forall|j: int| 1 <= j < i ==> !#[trigger] some_holds(g, s, j)
    &&& forall|v: int|
        1 <= v < id && can_hold((#[trigger] g[v]).kind, i) ==> !formula_holds(g, s, v, i)
}

/// A formula holds at a node whose label lets it exactly where the semantics
/// has the trigger.
pub proof fn formula_is_trigger(g: Seq<Vertex>, s: Seq<i8>, v: int, i: int)
    requires
        1 <= i <= 5,
    ensures
        can_hold(g[v].kind, i) && formula_holds(g, s, v, i) <==> psi(g, s, v) == i,
{
}

/// The guard of a command holds in a state exactly where the command is the
/// move of the semantics: its trigger is the rank of the state and its node the
/// witness.
pub proof fn guard_is_rank(g: Seq<Vertex>, s: Seq<i8>, i: int, id: int)
    requires
        1 <= i <= 5,
        1 <= id < g.len(),
    ensures
        guard_holds(g, s, i, id) <==> rank(g, s) == Some((i, id)),
{
    let n = g.len() - 1;
    best_is_least(g, s, n);
    formula_is_trigger(g, s, id, i);
    if guard_holds(g, s, i, id) {
        let b = rank(g, s)->0;
        assert(psi(g, s, id) == i);
        assert(rank(g, s) is Some);
        formula_is_trigger(g, s, b.1, b.0);
        if b.0 < i {
            assert(can_hold(g[b.1].kind, b.0));
            assert(some_holds(g, s, b.0));
        } else {
            assert(b.0 == i);
            if b.1 < id {
                assert(can_hold(g[b.1].kind, i));
            } else if id < b.1 {
                assert(psi(g, s, id) != b.0);
            }
        }
    }
    if rank(g, s) == Some((i, id)) {
        assert forall|j: int| 1 <= j < i implies !#[trigger] some_holds(g, s, j) by {
            if some_holds(g, s, j) {
                let v = choose|v: int|
                    1 <= v < g.len() && can_hold((#[trigger] g[v]).kind, j) && formula_holds(
                        g,
                        s,
                        v,
                        j,
                    );
                formula_is_trigger(g, s, v, j);
                assert(psi(g, s, v) == j);
            }
        }
        assert forall|v: int|
            1 <= v < id && can_hold((#[trigger] g[v]).kind, i) implies !formula_holds(g, s, v, i) by {
            formula_is_trigger(g, s, v, i);
            assert(psi(g, s, v) != i);
        }
    }
}

} // verus!
