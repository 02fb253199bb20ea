//! The two encodings of the emitted model. The one that keeps the history is the
//! plain one with the decision trail: a block of variables, and the marks the
//! decisions leave on them. All else is the same, letter by letter.

use vstd::prelude::*;
use crate::num::Number;
use crate::prism::{
    absorb_title_v, can_hold, choice_lines, choice_title_v, commands_v, constants_v, down_lines,
    down_title_v, ff_title_v, final_title_v, formulas_v, forward_lines, forward_v, guard_v,
    holders_range, holders_v, keys_v, mark_v, model_lines, module_title_v, nature_lines,
    nature_title_v, rewards_title_v, rewards_v, scaling_v, section, start_v, trail_v, up_lines,
    up_title_v, var, variable_lines,
};
use crate::text::decimal;
use crate::tree::{xor_ids, Kind, Tree};

verus! {

/// What stands above the decision trail.
pub open spec fn above_trail<N: Number>(t: &Tree<N>, stem: Seq<char>, file_name: Seq<char>) -> Seq<
    Seq<char>,
> {
    keys_v(t, stem, file_name) + scaling_v() + constants_v(t) + formulas_v(t) + forward_v(t) + (
    module_title_v() + variable_lines(t, t.n_nodes as int)).push(""@)
}

/// What stands below the decision trail.
pub open spec fn below_trail<N: Number>(t: &Tree<N>, history: bool) -> Seq<Seq<char>> {
    let root = var(t.root as int);
    (commands_v(t, history).push("  [absorb] "@ + root + "=-2 -> ("@ + root + "'=-2);"@)
        + final_title_v()).push("label \"final\" = "@ + root + "=-2;"@) + rewards_title_v() + rewards_v(
        t,
        t.k as int,
    )
}

/// What the trail holds for a branch.
pub open spec fn branch_mark(low: bool) -> Seq<char> {
    if low {
        "1"@
    } else {
        "2"@
    }
}

/// A line with the mark of one branch of a decision at its end.
pub open spec fn one_mark<N: Number>(t: &Tree<N>, line: Seq<char>, plain: Seq<char>) -> bool {
    exists|u: int, low: bool, x: Seq<char>|
        {
            &&& t.net().nodes[u].kind == Kind::Choice
            &&& line == x + #[trigger] mark_v(u, branch_mark(low), true) + ";"@
            &&& plain == #[trigger] (x + ";"@)
        }
}

/// A line with the marks of both branches of a draw, each after its branch.
pub open spec fn two_marks<N: Number>(t: &Tree<N>, line: Seq<char>, plain: Seq<char>) -> bool {
    exists|u: int, x: Seq<char>, y: Seq<char>|
        {
            &&& t.net().nodes[u].kind == Kind::Nature
            &&& line == x + #[trigger] mark_v(u, "1"@, true) + y + mark_v(u, "2"@, true) + ";"@
            &&& plain == #[trigger] (x + y + ";"@)
        }
}

/// A line is that of the plain model, but for the marks of a decision.
pub open spec fn marked<N: Number>(t: &Tree<N>, line: Seq<char>, plain: Seq<char>) -> bool {
    line == plain || one_mark(t, line, plain) || two_marks(t, line, plain)
}

pub open spec fn all_marked<N: Number>(t: &Tree<N>, a: Seq<Seq<char>>, b: Seq<Seq<char>>) -> bool {
    a.len() == b.len() && forall|i: int| 0 <= i < a.len() ==> #[trigger] marked(t, a[i], b[i])
}

proof fn marked_both<N: Number>(
    t: &Tree<N>,
    a: Seq<Seq<char>>,
    b: Seq<Seq<char>>,
    c: Seq<Seq<char>>,
    d: Seq<Seq<char>>,
)
    requires
        all_marked(t, a, b),
        all_marked(t, c, d),
    ensures
        all_marked(t, a + c, b + d),
{
    assert forall|i: int| 0 <= i < (a + c).len() implies #[trigger] marked(t, (a + c)[i], (b + d)[i]) by {
        if i < a.len() {
            assert(marked(t, a[i], b[i]));
        } else {
            assert(marked(t, c[i - a.len()], d[i - a.len()]));
        }
    }
}

proof fn marked_same<N: Number>(t: &Tree<N>, a: Seq<Seq<char>>)
    ensures
        all_marked(t, a, a),
{
}

proof fn marked_push<N: Number>(
    t: &Tree<N>,
    a: Seq<Seq<char>>,
    b: Seq<Seq<char>>,
    x: Seq<char>,
    y: Seq<char>,
)
    requires
        all_marked(t, a, b),
        marked(t, x, y),
    ensures
        all_marked(t, a.push(x), b.push(y)),
{
    let (p, q) = (a.push(x), b.push(y));
    assert forall|i: int| 0 <= i < p.len() implies #[trigger] marked(t, p[i], q[i]) by {
        if i < a.len() {
            assert(marked(t, a[i], b[i]));
        }
    }
}

proof fn marked_section<N: Number>(
    t: &Tree<N>,
    title: Seq<Seq<char>>,
    a: Seq<Seq<char>>,
    b: Seq<Seq<char>>,
)
    requires
        all_marked(t, a, b),
    ensures
        all_marked(t, section(title, a), section(title, b)),
{
    marked_same(t, title);
    marked_both(t, title, title, a, b);
    marked_push(t, title + a, title + b, ""@, ""@);
}

/// A choice leaves one mark.
proof fn choice_marked<N: Number>(t: &Tree<N>, u: int, low: bool, x: Seq<char>)
    requires
        t.net().nodes[u].kind == Kind::Choice,
    ensures
        marked(
            t,
            x + mark_v(u, branch_mark(low), true) + ";"@,
            x + mark_v(u, branch_mark(low), false) + ";"@,
        ),
{
    reveal_strlit("");
    let d = branch_mark(low);
    let (line, plain) = (x + mark_v(u, d, true) + ";"@, x + ";"@);
    assert(x + mark_v(u, d, false) =~= x);
    assert(line == x + mark_v(u, d, true) + ";"@ && plain == x + ";"@);
    assert(one_mark(t, line, plain));
}

/// A draw leaves two marks.
proof fn draw_marked<N: Number>(t: &Tree<N>, u: int, x: Seq<char>, y: Seq<char>)
    requires
        t.net().nodes[u].kind == Kind::Nature,
    ensures
        marked(
            t,
            x + mark_v(u, "1"@, true) + y + mark_v(u, "2"@, true) + ";"@,
            x + mark_v(u, "1"@, false) + y + mark_v(u, "2"@, false) + ";"@,
        ),
{
    reveal_strlit("");
    let (line, plain) = (
        x + mark_v(u, "1"@, true) + y + mark_v(u, "2"@, true) + ";"@,
        x + y + ";"@,
    );
    assert(x + mark_v(u, "1"@, false) =~= x);
    assert(x + y + mark_v(u, "2"@, false) =~= x + y);
    assert(line == x + mark_v(u, "1"@, true) + y + mark_v(u, "2"@, true) + ";"@ && plain == x + y + ";"@);
    assert(two_marks(t, line, plain));
}

proof fn choices_marked<N: Number>(t: &Tree<N>, ids: Seq<u32>, n: int)
    requires
        0 <= n <= ids.len(),
        forall|j: int| 0 <= j < ids.len() ==> t.net().nodes[#[trigger] ids[j] as int].kind == Kind::Choice,
    ensures
        all_marked(t, choice_lines(t, ids, n, true), choice_lines(t, ids, n, false)),
    decreases n,
{
    if n > 0 {
        choices_marked(t, ids, n - 1);
        let u = ids[n - 1] as int;
        let node = t.nodes@[u];
        let d = decimal(u as nat);
        let x = "  [choice"@ + d + "low]  "@ + guard_v(1, u) + " -> "@ + start_v(node.low as int);
        let y = "  [choice"@ + d + "high] "@ + guard_v(1, u) + " -> "@ + start_v(node.high as int);
        choice_marked(t, u, true, x);
        choice_marked(t, u, false, y);
        let (a, b) = (choice_lines(t, ids, n - 1, true), choice_lines(t, ids, n - 1, false));
        let (p, q) = (x + mark_v(u, "1"@, true) + ";"@, x + mark_v(u, "1"@, false) + ";"@);
        marked_push(t, a, b, p, q);
        marked_push(
            t,
            a.push(p),
            b.push(q),
            y + mark_v(u, "2"@, true) + ";"@,
            y + mark_v(u, "2"@, false) + ";"@,
        );
    }
}

proof fn draws_marked<N: Number>(t: &Tree<N>, ids: Seq<u32>, n: int)
    requires
        0 <= n <= ids.len(),
        forall|j: int| 0 <= j < ids.len() ==> t.net().nodes[#[trigger] ids[j] as int].kind == Kind::Nature,
    ensures
        all_marked(t, nature_lines(t, ids, n, true), nature_lines(t, ids, n, false)),
    decreases n,
{
    if n > 0 {
        draws_marked(t, ids, n - 1);
        let u = ids[n - 1] as int;
        let node = t.nodes@[u];
        let d = decimal(u as nat);
        let x = "  [nature"@ + d + "] "@ + guard_v(4, u) + " -> p"@ + d + " : "@ + start_v(
            node.low as int,
        );
        let y = " + (1-p"@ + d + ") : "@ + start_v(node.high as int);
        draw_marked(t, u, x, y);
        let (a, b) = (nature_lines(t, ids, n - 1, true), nature_lines(t, ids, n - 1, false));
        let p = x + mark_v(u, "1"@, true) + y + mark_v(u, "2"@, true) + ";"@;
        let q = x + mark_v(u, "1"@, false) + y + mark_v(u, "2"@, false) + ";"@;
        marked_push(t, a, b, p, q);
        four(x + mark_v(u, "1"@, true), " + (1-p"@, d, ") : "@, start_v(node.high as int));
        four(x + mark_v(u, "1"@, false), " + (1-p"@, d, ") : "@, start_v(node.high as int));
    }
}

proof fn four(w: Seq<char>, a: Seq<char>, b: Seq<char>, c: Seq<char>, d: Seq<char>)
    ensures
        w + (a + b + c + d) == w + a + b + c + d,
{
    assert(w + (a + b + c + d) =~= w + a + b + c + d);
}

proof fn none_hold<N: Number>(t: &Tree<N>, n: int)
    requires
        0 <= n <= t.n_nodes,
        xor_ids(t.net().nodes, n).len() == 0,
    ensures
        holders_v(t.net().nodes, 1, n).len() == 0,
        holders_v(t.net().nodes, 4, n).len() == 0,
    decreases n,
{
    if n > 0 {
        none_hold(t, n - 1);
    }
}

/// The model that keeps the history is the plain one with the decision trail
/// put in between: above it every line is the same, and below it every line is,
/// but for the marks in the commands of the choices and of the draws. Without a
/// choice or a draw the two models are the same.
pub proof fn history_adds_the_trail<N: Number>(t: &Tree<N>, stem: Seq<char>, file_name: Seq<char>)
    requires
        t.wf(),
    ensures
        model_lines(t, stem, file_name, true) == above_trail(t, stem, file_name) + trail_v(t, true)
            + below_trail(t, true),
        model_lines(t, stem, file_name, false) == above_trail(t, stem, file_name) + below_trail(t, false),
        all_marked(t, below_trail(t, true), below_trail(t, false)),
        t.xors@.len() == 0 ==> model_lines(t, stem, file_name, true) == model_lines(
            t,
            stem,
            file_name,
            false,
        ),
{
    let g = t.net().nodes;
    let n = t.n_nodes as int;
    split_at_trail(t, stem, file_name, true);
    split_at_trail(t, stem, file_name, false);
    let above = above_trail(t, stem, file_name);
    assert(above + Seq::<Seq<char>>::empty() =~= above);
    let (a, d) = (holders_v(g, 1, n), holders_v(g, 4, n));
    let (b, c) = (holders_v(g, 2, n), holders_v(g, 3, n));
    holders_range(g, 1, n);
    holders_range(g, 4, n);
    assert forall|j: int| 0 <= j < a.len() implies g[#[trigger] a[j] as int].kind == Kind::Choice by {
        assert(can_hold(g[a[j] as int].kind, 1));
    }
    assert forall|j: int| 0 <= j < d.len() implies g[#[trigger] d[j] as int].kind == Kind::Nature by {
        assert(can_hold(g[d[j] as int].kind, 4));
    }
    choices_marked(t, a, a.len() as int);
    draws_marked(t, d, d.len() as int);
    let (p, q) = (
        choice_lines(t, a, a.len() as int, true),
        choice_lines(t, a, a.len() as int, false),
    );
    let (x, y) = (
        nature_lines(t, d, d.len() as int, true),
        nature_lines(t, d, d.len() as int, false),
    );
    marked_section(t, choice_title_v(), p, q);
    marked_section(t, nature_title_v(), x, y);
    let downs = section(down_title_v(), down_lines(t, b, b.len() as int));
    let ups = section(up_title_v(), up_lines(t, c, c.len() as int));
    let (s1, s2) = (section(choice_title_v(), p), section(choice_title_v(), q));
    let (m1, m2) = (section(nature_title_v(), x), section(nature_title_v(), y));
    let ffs = forward_lines(t, t.tasks@.len() as int);
    joined_on(t, s1, s2, downs);
    joined_on(t, s1 + downs, s2 + downs, ups);
    marked_both(t, s1 + downs + ups, s2 + downs + ups, m1, m2);
    joined_on(t, s1 + downs + ups + m1, s2 + downs + ups + m2, ff_title_v());
    joined_on(t, s1 + downs + ups + m1 + ff_title_v(), s2 + downs + ups + m2 + ff_title_v(), ffs);
    joined_on(
        t,
        s1 + downs + ups + m1 + ff_title_v() + ffs,
        s2 + downs + ups + m2 + ff_title_v() + ffs,
        absorb_title_v(),
    );
    let root = var(t.root as int);
    let (k, l) = (commands_v(t, true), commands_v(t, false));
    let w = "  [absorb] "@ + root + "=-2 -> ("@ + root + "'=-2);"@;
    let z = "label \"final\" = "@ + root + "=-2;"@;
    marked_push(t, k, l, w, w);
    joined_on(t, k.push(w), l.push(w), final_title_v());
    marked_push(t, k.push(w) + final_title_v(), l.push(w) + final_title_v(), z, z);
    let (e, f) = ((k.push(w) + final_title_v()).push(z), (l.push(w) + final_title_v()).push(z));
    joined_on(t, e, f, rewards_title_v());
    joined_on(t, e + rewards_title_v(), f + rewards_title_v(), rewards_v(t, t.k as int));
    if t.xors@.len() == 0 {
        none_hold(t, n);
        assert(p =~= q);
        assert(x =~= y);
    }
}

proof fn joined_on<N: Number>(t: &Tree<N>, a: Seq<Seq<char>>, b: Seq<Seq<char>>, c: Seq<Seq<char>>)
    requires
        all_marked(t, a, b),
    ensures
        all_marked(t, a + c, b + c),
{
    marked_same(t, c);
    marked_both(t, a, b, c, c);
}

/// The model around the trail.
proof fn split_at_trail<N: Number>(
    t: &Tree<N>,
    stem: Seq<char>,
    file_name: Seq<char>,
    history: bool,
)
    ensures
        model_lines(t, stem, file_name, history) == above_trail(t, stem, file_name) + trail_v(t, history)
            + below_trail(t, history),
{
    let root = var(t.root as int);
    let head = keys_v(t, stem, file_name) + scaling_v() + constants_v(t) + formulas_v(t) + forward_v(t);
    let vars = (module_title_v() + variable_lines(t, t.n_nodes as int)).push(""@);
    let tr = trail_v(t, history);
    let cs = commands_v(t, history);
    let w = "  [absorb] "@ + root + "=-2 -> ("@ + root + "'=-2);"@;
    let z = "label \"final\" = "@ + root + "=-2;"@;
    let (fin, rt, rw) = (final_title_v(), rewards_title_v(), rewards_v(t, t.k as int));
    regroup(head, vars, tr, cs, w, fin, z, rt, rw);
}

proof fn regroup(
    head: Seq<Seq<char>>,
    vars: Seq<Seq<char>>,
    tr: Seq<Seq<char>>,
    cs: Seq<Seq<char>>,
    w: Seq<char>,
    fin: Seq<Seq<char>>,
    z: Seq<char>,
    rt: Seq<Seq<char>>,
    rw: Seq<Seq<char>>,
)
    ensures
        (head + ((vars + tr + cs).push(w) + fin)).push(z) + rt + rw == head + vars + tr + ((cs.push(w)
            + fin).push(z) + rt + rw),
{
    let a = (head + ((vars + tr + cs).push(w) + fin)).push(z);
    let b = head + vars + tr + (cs.push(w) + fin).push(z);
    assert(a =~= b) by {
        assert((vars + tr + cs).push(w) =~= vars + tr + cs.push(w));
        assert(head + (vars + tr + cs.push(w) + fin) =~= head + vars + tr + (cs.push(w) + fin));
        let (x, y) = (head + vars + tr, cs.push(w) + fin);
        assert((x + y).push(z) =~= x + y.push(z));
    }
    let (x, y) = (head + vars + tr, (cs.push(w) + fin).push(z));
    assert(x + y + rt + rw =~= x + (y + rt + rw));
}

} // verus!
