//! The formulas of the emitted model: how they are written and what they are
//! worth.
//!
//! An expression is rendered as a text and worth a value, and one and the same
//! expression does both. The formulas of the model are renderings of
//! expressions, and wherever the variables show a state of the process, those
//! expressions are worth what the semantics says of it.

use vstd::prelude::*;
use vstd::string::*;
use crate::clocks::{clocks_begin, least, plain, plain_facts, tame, ticked, top};
use crate::num::Number;
use crate::prism::{
    can_hold, chance_lines, chances_title_v, closer_lines, commands_v, constants_v, dbl_v,
    duration_lines, durations_title_v, final_title_v, formula_holds, formulas_v, forward_title_v,
    forward_v, guard_holds, guard_v, horizon_title_v, keys_v, model_lines, module_title_v, module_v,
    rank_title_v, rewards_title_v, rewards_v, scaling_v, successor_title_v, trail_v,
    triggers_title_v, witness_title_v, holders_range, holders_v, label_v, longest_v, psi_name,
    ranks_v, remaining_v, reward_lines, some_holds, some_v, step_line, successor_lines, successor_v,
    top_v, trigger_block, trigger_lines, trigger_v, var, variable_lines, witness_block,
    witness_body, witness_lines,
};
use crate::progress::{least_left_bounds, net_children, net_durations};
use crate::semantics::{advance, busy, closes, least_left, left, Net, Vertex};
use crate::state::{DONE, IDLE};
use crate::text::{decimal, digit, joined, signed};
use crate::tree::{task_ids, task_ids_range, Kind, Tree};

verus! {

// ---------------------------------------------------------------------------
// expressions
// ---------------------------------------------------------------------------

/// An expression that is worth a number.
pub enum Num {
    Lit(int),
    Name(Seq<char>),
    Sum(Box<Num>, Box<Num>),
    Less(Box<Num>, Box<Num>),
    Min(Box<Num>, Box<Num>),
    Pick(Box<Test>, Box<Num>, Box<Num>),
    Paren(Box<Num>),
}

/// An expression that holds or does not.
pub enum Test {
    Never,
    Name(Seq<char>),
    Eq(Box<Num>, Box<Num>),
    Below(Box<Num>, Box<Num>),
    AtLeast(Box<Num>, Box<Num>),
    Not(Box<Test>),
    And(Box<Test>, Box<Test>),
    Or(Box<Test>, Box<Test>),
}

/// What the names are worth.
pub struct Env {
    pub nums: spec_fn(Seq<char>) -> int,
    pub tests: spec_fn(Seq<char>) -> bool,
}

pub open spec fn num_text(x: Num) -> Seq<char>
    decreases x,
{
    match x {
        Num::Lit(n) => signed(n),
        Num::Name(s) => s,
        Num::Sum(a, b) => num_text(*a) + "+"@ + num_text(*b),
        Num::Less(a, b) => num_text(*a) + "-"@ + num_text(*b),
        Num::Min(a, b) => "min("@ + num_text(*a) + ", "@ + num_text(*b) + ")"@,
        Num::Pick(c, a, b) => test_text(*c) + " ? "@ + num_text(*a) + " : "@ + num_text(*b),
        Num::Paren(a) => "("@ + num_text(*a) + ")"@,
    }
}

pub open spec fn test_text(x: Test) -> Seq<char>
    decreases x,
{
    match x {
        Test::Never => "false"@,
        Test::Name(s) => s,
        Test::Eq(a, b) => num_text(*a) + "="@ + num_text(*b),
        Test::Below(a, b) => num_text(*a) + "<"@ + num_text(*b),
        Test::AtLeast(a, b) => num_text(*a) + ">="@ + num_text(*b),
        Test::Not(a) => "!"@ + test_text(*a),
        Test::And(a, b) => test_text(*a) + " & "@ + test_text(*b),
        Test::Or(a, b) => test_text(*a) + " | "@ + test_text(*b),
    }
}

pub open spec fn num_value(x: Num, env: Env) -> int
    decreases x,
{
    match x {
        Num::Lit(n) => n,
        Num::Name(s) => (env.nums)(s),
        Num::Sum(a, b) => num_value(*a, env) + num_value(*b, env),
        Num::Less(a, b) => num_value(*a, env) - num_value(*b, env),
        Num::Min(a, b) => least(num_value(*a, env), num_value(*b, env)),
        Num::Pick(c, a, b) => if test_value(*c, env) {
            num_value(*a, env)
        } else {
            num_value(*b, env)
        },
        Num::Paren(a) => num_value(*a, env),
    }
}

pub open spec fn test_value(x: Test, env: Env) -> bool
    decreases x,
{
    match x {
        Test::Never => false,
        Test::Name(s) => (env.tests)(s),
        Test::Eq(a, b) => num_value(*a, env) == num_value(*b, env),
        Test::Below(a, b) => num_value(*a, env) < num_value(*b, env),
        Test::AtLeast(a, b) => num_value(*a, env) >= num_value(*b, env),
        Test::Not(a) => !test_value(*a, env),
        Test::And(a, b) => test_value(*a, env) && test_value(*b, env),
        Test::Or(a, b) => test_value(*a, env) || test_value(*b, env),
    }
}

// ---------------------------------------------------------------------------
// the names
// ---------------------------------------------------------------------------

/// The variable of a node.
pub open spec fn clock_name(u: int) -> Seq<char> {
    "n"@ + decimal(u as nat)
}

/// The duration of a task.
pub open spec fn span_name(u: int) -> Seq<char> {
    "d"@ + decimal(u as nat)
}

pub open spec fn trigger_name(i: int, u: int) -> Seq<char> {
    "psi"@ + decimal(i as nat) + "_"@ + decimal(u as nat)
}

pub open spec fn some_name(i: int) -> Seq<char> {
    "some_psi"@ + decimal(i as nat)
}

pub open spec fn rank_name(i: int) -> Seq<char> {
    "rank"@ + decimal(i as nat)
}

pub open spec fn witness_name(i: int, u: int) -> Seq<char> {
    "wit"@ + decimal(i as nat) + "_"@ + decimal(u as nat)
}

pub open spec fn closer_name(u: int) -> Seq<char> {
    "closes"@ + decimal(u as nat)
}

pub open spec fn next_name(u: int) -> Seq<char> {
    "ff"@ + decimal(u as nat)
}

pub open spec fn clock(u: int) -> Box<Num> {
    Box::new(Num::Name(clock_name(u)))
}

pub open spec fn lit(n: int) -> Box<Num> {
    Box::new(Num::Lit(n))
}

pub open spec fn is(u: int, n: int) -> Box<Test> {
    Box::new(Test::Eq(clock(u), lit(n)))
}

pub open spec fn running(u: int) -> Box<Test> {
    Box::new(Test::AtLeast(clock(u), lit(0)))
}

// ---------------------------------------------------------------------------
// the formulas
// ---------------------------------------------------------------------------

/// A trigger at a node.
pub open spec fn trigger_test(g: Seq<Vertex>, u: int, i: int) -> Test {
    let (l, h) = (g[u].low, g[u].high);
    if i == 3 {
        if g[u].kind == Kind::Parallel {
            Test::And(is(l, -2), is(h, -2))
        } else {
            Test::Or(is(l, -2), is(h, -2))
        }
    } else if i == 5 {
        Test::And(running(u), Box::new(Test::Below(clock(u), Box::new(Num::Name(span_name(u))))))
    } else {
        Test::And(Box::new(Test::And(running(u), is(l, -1))), is(h, -1))
    }
}

/// The trigger holds at one of the first `n` of these nodes.
pub open spec fn some_test(i: int, ids: Seq<u32>, n: int) -> Test
    decreases n,
{
    if n <= 0 {
        Test::Never
    } else {
        let last = Test::Name(trigger_name(i, ids[n - 1] as int));
        if n == 1 {
            last
        } else {
            Test::Or(Box::new(some_test(i, ids, n - 1)), Box::new(last))
        }
    }
}

/// The rank: its trigger holds somewhere and none above it does.
pub open spec fn rank_test(i: int) -> Test {
    if i <= 1 {
        Test::Name(some_name(1))
    } else {
        Test::And(Box::new(none_above(i - 1)), Box::new(Test::Name(some_name(i))))
    }
}

/// None of the first `n` triggers holds anywhere.
pub open spec fn none_above(n: int) -> Test
    decreases n,
{
    let last = Test::Not(Box::new(Test::Name(some_name(n))));
    if n <= 1 {
        last
    } else {
        Test::And(Box::new(none_above(n - 1)), Box::new(last))
    }
}

/// The witness: the trigger holds at the node and at none of the first `n` of
/// these.
pub open spec fn witness_test(i: int, ids: Seq<u32>, u: int, n: int) -> Test
    decreases n,
{
    if n <= 0 {
        Test::Name(trigger_name(i, u))
    } else {
        Test::And(
            Box::new(witness_test(i, ids, u, n - 1)),
            Box::new(Test::Not(Box::new(Test::Name(trigger_name(i, ids[n - 1] as int))))),
        )
    }
}

/// The guard of a command.
pub open spec fn guard_test(i: int, u: int) -> Test {
    Test::And(Box::new(Test::Name(rank_name(i))), Box::new(Test::Name(witness_name(i, u))))
}

/// The time a task still needs, past the horizon where it is not running.
pub open spec fn left_num(u: int) -> Num {
    Num::Pick(
        running(u),
        Box::new(Num::Less(Box::new(Num::Name(span_name(u))), clock(u))),
        Box::new(Num::Name("no_time"@)),
    )
}

/// A task completes in the fast forward.
pub open spec fn closer_test(u: int) -> Test {
    Test::And(
        running(u),
        Box::new(
            Test::Eq(
                Box::new(Num::Less(Box::new(Num::Name(span_name(u))), clock(u))),
                Box::new(Num::Name("t_step"@)),
            ),
        ),
    )
}

/// The value of a node after the fast forward.
pub open spec fn next_num(n: Net, u: int) -> Num {
    let idle = Box::new(Test::Below(clock(u), lit(0)));
    let ahead = Box::new(
        Num::Min(
            Box::new(Num::Sum(clock(u), Box::new(Num::Name("t_step"@)))),
            lit(top(n, u)),
        ),
    );
    if n.nodes[u].kind == Kind::Task {
        Num::Pick(
            idle,
            clock(u),
            Box::new(
                Num::Paren(
                    Box::new(Num::Pick(Box::new(Test::Name(closer_name(u))), lit(-2), ahead)),
                ),
            ),
        )
    } else {
        Num::Pick(idle, clock(u), ahead)
    }
}

// ---------------------------------------------------------------------------
// what is written
// ---------------------------------------------------------------------------

/// A line defines a name by an expression, with a comment behind it or none.
pub open spec fn defines(line: Seq<char>, name: Seq<char>, body: Seq<char>) -> bool {
    let head = "formula "@ + name + " = "@ + body + ";"@;
    line == head || exists|note: Seq<char>| line == #[trigger] (head + "  // "@ + note)
}

proof fn small_literals()
    ensures
        signed(0) == "0"@,
        signed(-1) == "-1"@,
        signed(-2) == "-2"@,
{
    reveal_strlit("0");
    reveal_strlit("-1");
    reveal_strlit("-2");
    assert(digit(0) == '0' && digit(1) == '1' && digit(2) == '2');
    assert(decimal(0) =~= seq!['0']);
    assert(decimal(1) =~= seq!['1']);
    assert(decimal(2) =~= seq!['2']);
    assert(signed(0) =~= "0"@);
    assert(signed(-1) =~= "-1"@);
    assert(signed(-2) =~= "-2"@);
}

proof fn trigger_written(g: Seq<Vertex>, u: int, i: int)
    ensures
        trigger_v(g, u, i) == test_text(trigger_test(g, u, i)),
{
    small_literals();
    reveal_with_fuel(test_text, 4);
    reveal_with_fuel(num_text, 3);
    let (l, h, m) = (clock_name(g[u].low), clock_name(g[u].high), clock_name(u));
    reveal_strlit("=");
    reveal_strlit("-1");
    reveal_strlit("-2");
    reveal_strlit("0");
    reveal_strlit("<");
    reveal_strlit("d");
    reveal_strlit("<d");
    reveal_strlit(">=");
    reveal_strlit(" & ");
    reveal_strlit(" | ");
    reveal_strlit("=-2 & ");
    reveal_strlit("=-2 | ");
    reveal_strlit("=-2");
    reveal_strlit("=-1");
    reveal_strlit("=-1 & ");
    reveal_strlit(">=0 & ");
    assert("=-2 & "@ =~= "="@ + "-2"@ + " & "@);
    assert("=-2 | "@ =~= "="@ + "-2"@ + " | "@);
    assert("=-2"@ =~= "="@ + "-2"@);
    assert("=-1"@ =~= "="@ + "-1"@);
    assert("=-1 & "@ =~= "="@ + "-1"@ + " & "@);
    assert(">=0 & "@ =~= ">="@ + "0"@ + " & "@);
    assert("<d"@ =~= "<"@ + "d"@);
    if i == 3 {
        if g[u].kind == Kind::Parallel {
            assert(trigger_v(g, u, i) =~= (l + "="@ + "-2"@) + " & "@ + (h + "="@ + "-2"@));
        } else {
            assert(trigger_v(g, u, i) =~= (l + "="@ + "-2"@) + " | "@ + (h + "="@ + "-2"@));
        }
    } else if i == 5 {
        assert(trigger_v(g, u, i) =~= (m + ">="@ + "0"@) + " & "@ + (m + "<"@ + span_name(u)));
    } else {
        assert(trigger_v(g, u, i) =~= ((m + ">="@ + "0"@) + " & "@ + (l + "="@ + "-1"@)) + " & "@ + (h
            + "="@ + "-1"@));
    }
}

proof fn some_written(i: int, ids: Seq<u32>, n: int)
    requires
        0 < n <= ids.len(),
    ensures
        test_text(some_test(i, ids, n)) == joined(
            Seq::new(n as nat, |j: int| psi_name(i, ids[j] as int)),
            " | "@,
        ),
    decreases n,
{
    let all = Seq::new(n as nat, |j: int| psi_name(i, ids[j] as int));
    reveal_with_fuel(test_text, 2);
    if n > 1 {
        some_written(i, ids, n - 1);
        let less = Seq::new((n - 1) as nat, |j: int| psi_name(i, ids[j] as int));
        assert(all.drop_last() =~= less);
    }
}

proof fn witness_written(i: int, ids: Seq<u32>, pos: int, n: int)
    requires
        0 <= n <= pos < ids.len(),
    ensures
        test_text(witness_test(i, ids, ids[pos] as int, n)) == joined(
            Seq::new(
                (n + 1) as nat,
                |j: int|
                    if j == 0 {
                        psi_name(i, ids[pos] as int)
                    } else {
                        "!"@ + psi_name(i, ids[j - 1] as int)
                    },
            ),
            " & "@,
        ),
    decreases n,
{
    reveal_with_fuel(test_text, 3);
    let all = Seq::new(
        (n + 1) as nat,
        |j: int|
            if j == 0 {
                psi_name(i, ids[pos] as int)
            } else {
                "!"@ + psi_name(i, ids[j - 1] as int)
            },
    );
    if n > 0 {
        witness_written(i, ids, pos, n - 1);
        let less = Seq::new(
            n as nat,
            |j: int|
                if j == 0 {
                    psi_name(i, ids[pos] as int)
                } else {
                    "!"@ + psi_name(i, ids[j - 1] as int)
                },
        );
        assert(all.drop_last() =~= less);
    }
}

/// The formulas of the triggers are written at every node that can hold them,
/// in the order of the nodes.
pub proof fn triggers_are_written<N: Number>(t: &Tree<N>, i: int, ids: Seq<u32>, n: int)
    requires
        0 <= n <= ids.len(),
    ensures
        trigger_lines(t, i, ids, n).len() == n,
        forall|j: int|
            0 <= j < n ==> defines(
                #[trigger] trigger_lines(t, i, ids, n)[j],
                trigger_name(i, ids[j] as int),
                test_text(trigger_test(t.net().nodes, ids[j] as int, i)),
            ),
    decreases n,
{
    if n > 0 {
        triggers_are_written(t, i, ids, n - 1);
        let u = ids[n - 1] as int;
        let g = t.net().nodes;
        trigger_written(g, u, i);
        let line = trigger_lines(t, i, ids, n)[n - 1];
        let head = "formula "@ + trigger_name(i, u) + " = "@ + test_text(trigger_test(g, u, i)) + ";"@;
        let note = "node "@ + decimal(u as nat) + ", "@ + label_v(t, u);
        reveal_strlit(";  // node ");
        reveal_strlit(";");
        reveal_strlit("  // ");
        reveal_strlit("node ");
        assert(";  // node "@ =~= ";"@ + "  // "@ + "node "@);
        assert(line =~= head + "  // "@ + note);
        assert forall|j: int| 0 <= j < n implies defines(
            #[trigger] trigger_lines(t, i, ids, n)[j],
            trigger_name(i, ids[j] as int),
            test_text(trigger_test(g, ids[j] as int, i)),
        ) by {
            if j < n - 1 {
                assert(trigger_lines(t, i, ids, n)[j] == trigger_lines(t, i, ids, n - 1)[j]);
            }
        }
    }
}

/// Below the formulas of a trigger stands the one that says whether it holds
/// anywhere.
pub proof fn somewhere_is_written<N: Number>(t: &Tree<N>, i: int)
    ensures
        ({
            let ids = holders_v(t.net().nodes, i, t.n_nodes as int);
            let lines = trigger_block(t, i);
            &&& lines.len() == ids.len() + 3
            &&& forall|j: int|
                0 <= j < ids.len() ==> #[trigger] lines[1 + j] == trigger_lines(
                    t,
                    i,
                    ids,
                    ids.len() as int,
                )[j]
            &&& defines(
                lines[ids.len() as int + 1],
                some_name(i),
                test_text(some_test(i, ids, ids.len() as int)),
            )
        }),
{
    let ids = holders_v(t.net().nodes, i, t.n_nodes as int);
    let n = ids.len() as int;
    triggers_are_written(t, i, ids, n);
    if n > 0 {
        some_written(i, ids, n);
    }
    let lines = trigger_block(t, i);
    assert(test_text(some_test(i, ids, n)) == some_v(i, ids));
    reveal_strlit("formula some_psi");
    reveal_strlit("formula ");
    reveal_strlit("some_psi");
    assert("formula some_psi"@ =~= "formula "@ + "some_psi"@);
    let line = lines[n + 1];
    assert(line =~= "formula "@ + some_name(i) + " = "@ + test_text(some_test(i, ids, n)) + ";"@);
    assert forall|j: int| 0 <= j < n implies #[trigger] lines[1 + j] == trigger_lines(t, i, ids, n)[j] by {}
}

/// The witness formulas are written at every node that can hold the trigger.
pub proof fn witnesses_are_written(i: int, ids: Seq<u32>, n: int)
    requires
        0 <= n <= ids.len(),
    ensures
        witness_lines(i, ids, n).len() == n,
        forall|j: int|
            0 <= j < n ==> defines(
                #[trigger] witness_lines(i, ids, n)[j],
                witness_name(i, ids[j] as int),
                test_text(witness_test(i, ids, ids[j] as int, j)),
            ),
    decreases n,
{
    if n > 0 {
        witnesses_are_written(i, ids, n - 1);
        witness_written(i, ids, n - 1, n - 1);
        let u = ids[n - 1] as int;
        let line = witness_lines(i, ids, n)[n - 1];
        reveal_strlit("formula wit");
        reveal_strlit("formula ");
        reveal_strlit("wit");
        assert("formula wit"@ =~= "formula "@ + "wit"@);
        assert(test_text(witness_test(i, ids, u, n - 1)) == witness_body(i, ids, n - 1));
        assert(line =~= "formula "@ + witness_name(i, u) + " = "@ + test_text(
            witness_test(i, ids, u, n - 1),
        ) + ";"@);
        assert forall|j: int| 0 <= j < n implies defines(
            #[trigger] witness_lines(i, ids, n)[j],
            witness_name(i, ids[j] as int),
            test_text(witness_test(i, ids, ids[j] as int, j)),
        ) by {
            if j < n - 1 {
                assert(witness_lines(i, ids, n)[j] == witness_lines(i, ids, n - 1)[j]);
            }
        }
    }
}

proof fn small_numerals()
    ensures
        decimal(1) == seq!['1'],
        decimal(2) == seq!['2'],
        decimal(3) == seq!['3'],
        decimal(4) == seq!['4'],
        decimal(5) == seq!['5'],
{
    assert(digit(1) == '1' && digit(2) == '2' && digit(3) == '3' && digit(4) == '4' && digit(5) == '5');
}

/// The formulas of the five ranks.
#[verifier::rlimit(40)]
pub proof fn ranks_are_written(i: int)
    requires
        1 <= i <= 5,
    ensures
        defines(ranks_v()[i - 1], rank_name(i), test_text(rank_test(i))),
{
    small_numerals();
    reveal_with_fuel(test_text, 6);
    reveal_with_fuel(none_above, 5);
    reveal_strlit("formula ");
    reveal_strlit("rank");
    reveal_strlit(" = ");
    reveal_strlit(";");
    reveal_strlit("some_psi");
    reveal_strlit("!");
    reveal_strlit(" & ");
    reveal_strlit("formula rank1 = some_psi1;");
    reveal_strlit("formula rank2 = !some_psi1 & some_psi2;");
    reveal_strlit("formula rank3 = !some_psi1 & !some_psi2 & some_psi3;");
    reveal_strlit("formula rank4 = !some_psi1 & !some_psi2 & !some_psi3 & some_psi4;");
    reveal_strlit(
        "formula rank5 = !some_psi1 & !some_psi2 & !some_psi3 & !some_psi4 & some_psi5;",
    );
    let line = ranks_v()[i - 1];
    let want = "formula "@ + rank_name(i) + " = "@ + test_text(rank_test(i)) + ";"@;
    if i == 1 {
        assert(line =~= want);
    } else if i == 2 {
        assert(line =~= want);
    } else if i == 3 {
        assert(line =~= want);
    } else if i == 4 {
        assert(line =~= want);
    } else {
        assert(line =~= want);
    }
}

/// The guard of a command names its rank and its witness.
pub proof fn guards_are_written(i: int, u: int)
    ensures
        guard_v(i, u) == test_text(guard_test(i, u)),
{
    reveal_with_fuel(test_text, 2);
    reveal_strlit(" & wit");
    reveal_strlit(" & ");
    reveal_strlit("wit");
    assert(" & wit"@ =~= " & "@ + "wit"@);
    assert(guard_v(i, u) =~= test_text(guard_test(i, u)));
}

proof fn remaining_written(u: int)
    ensures
        remaining_v(u) == num_text(left_num(u)),
{
    small_literals();
    reveal_with_fuel(num_text, 4);
    reveal_with_fuel(test_text, 2);
    reveal_strlit("n");
    reveal_strlit("0");
    reveal_strlit("d");
    reveal_strlit(">=");
    reveal_strlit(" ? ");
    reveal_strlit("-");
    reveal_strlit(" : ");
    reveal_strlit("no_time");
    reveal_strlit(">=0 ? d");
    reveal_strlit("-n");
    reveal_strlit(" : no_time");
    assert(">=0 ? d"@ =~= ">="@ + "0"@ + " ? "@ + "d"@);
    assert("-n"@ =~= "-"@ + "n"@);
    assert(" : no_time"@ =~= " : "@ + "no_time"@);
    assert(remaining_v(u) =~= (clock_name(u) + ">="@ + "0"@) + " ? "@ + (span_name(u) + "-"@
        + clock_name(u)) + " : "@ + "no_time"@);
}

/// The step is the least of the times the tasks still need.
pub proof fn step_is_written(tasks: Seq<u32>)
    requires
        tasks.len() > 0,
    ensures
        ({
            let xs = Seq::new(tasks.len(), |j: int| num_text(left_num(tasks[j] as int)));
            defines(
                step_line(tasks),
                "t_step"@,
                if tasks.len() == 1 {
                    xs[0]
                } else {
                    "min("@ + joined(xs, ",\n                     "@) + ")"@
                },
            )
        }),
{
    let xs = Seq::new(tasks.len(), |j: int| num_text(left_num(tasks[j] as int)));
    let ys = Seq::new(tasks.len(), |j: int| remaining_v(tasks[j] as int));
    assert forall|j: int| 0 <= j < tasks.len() implies xs[j] == ys[j] by {
        remaining_written(tasks[j] as int);
    }
    assert(xs =~= ys);
    reveal_strlit("formula t_step = ");
    reveal_strlit("formula t_step = min(");
    reveal_strlit("formula ");
    reveal_strlit("t_step");
    reveal_strlit(" = ");
    reveal_strlit("min(");
    reveal_strlit(");");
    reveal_strlit(")");
    reveal_strlit(";");
    assert("formula t_step = "@ =~= "formula "@ + "t_step"@ + " = "@);
    assert("formula t_step = min("@ =~= "formula "@ + "t_step"@ + " = "@ + "min("@);
    assert(");"@ =~= ")"@ + ";"@);
    if tasks.len() == 1 {
        assert(step_line(tasks) =~= "formula "@ + "t_step"@ + " = "@ + xs[0] + ";"@);
    } else {
        assert(step_line(tasks) =~= "formula "@ + "t_step"@ + " = "@ + ("min("@ + joined(
            xs,
            ",\n                     "@,
        ) + ")"@) + ";"@);
    }
}

/// The closers are written at every task.
pub proof fn closers_are_written<N: Number>(t: &Tree<N>, n: int)
    requires
        0 <= n <= t.tasks@.len(),
    ensures
        closer_lines(t, n).len() == n,
        forall|j: int|
            0 <= j < n ==> defines(
                #[trigger] closer_lines(t, n)[j],
                closer_name(t.tasks@[j] as int),
                test_text(closer_test(t.tasks@[j] as int)),
            ),
    decreases n,
{
    if n > 0 {
        closers_are_written(t, n - 1);
        small_literals();
        reveal_with_fuel(num_text, 5);
        reveal_with_fuel(test_text, 5);
        let u = t.tasks@[n - 1] as int;
        let line = closer_lines(t, n)[n - 1];
        reveal_strlit("formula closes");
        reveal_strlit("formula ");
        reveal_strlit("closes");
        reveal_strlit(" = n");
        reveal_strlit(" = ");
        reveal_strlit("n");
        reveal_strlit(">=0 & d");
        reveal_strlit(">=");
        reveal_strlit("0");
        reveal_strlit(" & ");
        reveal_strlit("d");
        reveal_strlit("-n");
        reveal_strlit("-");
        reveal_strlit("=t_step;  // ");
        reveal_strlit("=");
        reveal_strlit("t_step");
        reveal_strlit(";");
        reveal_strlit("  // ");
        assert("formula closes"@ =~= "formula "@ + "closes"@);
        assert(" = n"@ =~= " = "@ + "n"@);
        assert(">=0 & d"@ =~= ">="@ + "0"@ + " & "@ + "d"@);
        assert("-n"@ =~= "-"@ + "n"@);
        assert("=t_step;  // "@ =~= "="@ + "t_step"@ + ";"@ + "  // "@);
        let body = (clock_name(u) + ">="@ + "0"@) + " & "@ + ((span_name(u) + "-"@ + clock_name(u)) + "="@
            + "t_step"@);
        let short = Num::Less(Box::new(Num::Name(span_name(u))), clock(u));
        assert(num_text(short) == span_name(u) + "-"@ + clock_name(u));
        assert(test_text(Test::Eq(Box::new(short), Box::new(Num::Name("t_step"@)))) == (span_name(u)
            + "-"@ + clock_name(u)) + "="@ + "t_step"@);
        assert(test_text(*running(u)) == clock_name(u) + ">="@ + "0"@);
        assert(test_text(closer_test(u)) == body);
        assert(line =~= ("formula "@ + closer_name(u) + " = "@ + body + ";"@) + "  // "@
            + t.task_names@[u]@);
        assert forall|j: int| 0 <= j < n implies defines(
            #[trigger] closer_lines(t, n)[j],
            closer_name(t.tasks@[j] as int),
            test_text(closer_test(t.tasks@[j] as int)),
        ) by {
            if j < n - 1 {
                assert(closer_lines(t, n)[j] == closer_lines(t, n - 1)[j]);
            }
        }
    }
}

proof fn successor_written<N: Number>(t: &Tree<N>, u: int)
    requires
        t.nodes@.len() == t.n_nodes + 1,
        1 <= u <= t.n_nodes,
    ensures
        successor_v(t, u) == num_text(next_num(t.net(), u)),
{
    small_literals();
    reveal_with_fuel(num_text, 6);
    reveal_with_fuel(test_text, 2);
    assert(t.net().nodes[u] == t.nodes@[u].vertex());
    assert(top_v(t, u) == top(t.net(), u));
    let m = clock_name(u);
    reveal_strlit("<0 ? ");
    reveal_strlit("<");
    reveal_strlit("0");
    reveal_strlit(" ? ");
    reveal_strlit(" : (closes");
    reveal_strlit(" : ");
    reveal_strlit("(");
    reveal_strlit("closes");
    reveal_strlit(" ? -2 : min(");
    reveal_strlit("-2");
    reveal_strlit("min(");
    reveal_strlit("+t_step, ");
    reveal_strlit("+");
    reveal_strlit("t_step");
    reveal_strlit(", ");
    reveal_strlit("))");
    reveal_strlit(")");
    reveal_strlit(" : min(");
    assert("<0 ? "@ =~= "<"@ + "0"@ + " ? "@);
    assert(" : (closes"@ =~= " : "@ + "("@ + "closes"@);
    assert(" ? -2 : min("@ =~= " ? "@ + "-2"@ + " : "@ + "min("@);
    assert("+t_step, "@ =~= "+"@ + "t_step"@ + ", "@);
    assert("))"@ =~= ")"@ + ")"@);
    assert(" : min("@ =~= " : "@ + "min("@);
    let ahead = "min("@ + (m + "+"@ + "t_step"@) + ", "@ + signed(top(t.net(), u)) + ")"@;
    if t.nodes@[u].kind == Kind::Task {
        assert(successor_v(t, u) =~= (m + "<"@ + "0"@) + " ? "@ + m + " : "@ + ("("@ + (closer_name(u)
            + " ? "@ + "-2"@ + " : "@ + ahead) + ")"@));
    } else {
        assert(successor_v(t, u) =~= (m + "<"@ + "0"@) + " ? "@ + m + " : "@ + ahead);
    }
}

/// The successors are written for every node.
pub proof fn successors_are_written<N: Number>(t: &Tree<N>, n: int)
    requires
        t.nodes@.len() == t.n_nodes + 1,
        0 <= n <= t.n_nodes,
    ensures
        successor_lines(t, n).len() == n,
        forall|u: int|
            1 <= u <= n ==> defines(
                #[trigger] successor_lines(t, n)[u - 1],
                next_name(u),
                num_text(next_num(t.net(), u)),
            ),
    decreases n,
{
    if n > 0 {
        successors_are_written(t, n - 1);
        successor_written(t, n);
        let line = successor_lines(t, n)[n - 1];
        let head = "formula "@ + next_name(n) + " = "@ + num_text(next_num(t.net(), n)) + ";"@;
        let note = "node "@ + decimal(n as nat) + ", "@ + label_v(t, n);
        reveal_strlit("formula ff");
        reveal_strlit("formula ");
        reveal_strlit("ff");
        reveal_strlit(";  // node ");
        reveal_strlit(";");
        reveal_strlit("  // ");
        reveal_strlit("node ");
        assert("formula ff"@ =~= "formula "@ + "ff"@);
        assert(";  // node "@ =~= ";"@ + "  // "@ + "node "@);
        assert(line =~= head + "  // "@ + note);
        assert forall|u: int| 1 <= u <= n implies defines(
            #[trigger] successor_lines(t, n)[u - 1],
            next_name(u),
            num_text(next_num(t.net(), u)),
        ) by {
            if u < n {
                assert(successor_lines(t, n)[u - 1] == successor_lines(t, n - 1)[u - 1]);
            }
        }
    }
}

// ---------------------------------------------------------------------------
// what it is worth
// ---------------------------------------------------------------------------

/// The names of the variables, of the durations and of the horizon are worth
/// what they stand for.
pub open spec fn shows<N: Number>(t: &Tree<N>, e: Seq<int>, env: Env) -> bool {
    let g = t.net().nodes;
    &&& forall|u: int| 1 <= u <= t.n_nodes ==> (env.nums)(#[trigger] clock_name(u)) == e[u]
    &&& forall|u: int|
        1 <= u <= t.n_nodes && g[u].kind == Kind::Task ==> (env.nums)(#[trigger] span_name(u))
            == g[u].duration
    &&& (env.nums)("no_time"@) == longest_v(t, t.tasks@.len() as int) + 1
}

/// A formula of a test is worth what its body is.
pub open spec fn tells(env: Env, name: Seq<char>, body: Test) -> bool {
    (env.tests)(name) == test_value(body, env)
}

/// The formulas of the triggers, the ranks and the witnesses are worth what
/// their bodies are.
pub open spec fn obeys<N: Number>(t: &Tree<N>, env: Env) -> bool {
    let g = t.net().nodes;
    let n = t.n_nodes as int;
    &&& forall|i: int, j: int|
        1 <= i <= 5 && 0 <= j < holders_v(g, i, n).len() ==> #[trigger] tells(
            env,
            trigger_name(i, holders_v(g, i, n)[j] as int),
            trigger_test(g, holders_v(g, i, n)[j] as int, i),
        )
    &&& forall|i: int|
        1 <= i <= 5 ==> #[trigger] tells(
            env,
            some_name(i),
            some_test(i, holders_v(g, i, n), holders_v(g, i, n).len() as int),
        )
    &&& forall|i: int| 1 <= i <= 5 ==> #[trigger] tells(env, rank_name(i), rank_test(i))
    &&& forall|i: int, j: int|
        1 <= i <= 5 && 0 <= j < holders_v(g, i, n).len() ==> #[trigger] tells(
            env,
            witness_name(i, holders_v(g, i, n)[j] as int),
            witness_test(i, holders_v(g, i, n), holders_v(g, i, n)[j] as int, j),
        )
}

/// A trigger of a node that can hold it is worth what its formula says of the
/// state.
proof fn trigger_worth<N: Number>(t: &Tree<N>, e: Seq<int>, env: Env, i: int, u: int)
    requires
        t.wf(),
        tame(t.net(), e),
        shows(t, e, env),
        1 <= i <= 5,
        1 <= u <= t.n_nodes,
        can_hold(t.net().nodes[u].kind, i),
    ensures
        test_value(trigger_test(t.net().nodes, u, i), env) == formula_holds(
            t.net().nodes,
            plain(t.net().nodes, e),
            u,
            i,
        ),
{
    let net = t.net();
    let g = net.nodes;
    let s = plain(g, e);
    plain_facts(net, e);
    net_children(net, u);
    reveal_with_fuel(test_value, 4);
    reveal_with_fuel(num_value, 2);
    assert((env.nums)(clock_name(u)) == e[u]);
    assert(s[u] == plain(g, e)[u]);
    if g[u].kind == Kind::Task {
        assert((env.nums)(span_name(u)) == g[u].duration);
    } else {
        let (l, h) = (g[u].low, g[u].high);
        assert((env.nums)(clock_name(l)) == e[l]);
        assert((env.nums)(clock_name(h)) == e[h]);
        assert(s[l] == plain(g, e)[l] && s[h] == plain(g, e)[h]);
        assert(DONE == -2 && IDLE == -1);
    }
}

/// A trigger holds somewhere exactly where the formula over the nodes says so.
proof fn some_worth<N: Number>(t: &Tree<N>, e: Seq<int>, env: Env, i: int, n: int)
    requires
        t.wf(),
        tame(t.net(), e),
        shows(t, e, env),
        obeys(t, env),
        1 <= i <= 5,
        0 <= n <= holders_v(t.net().nodes, i, t.n_nodes as int).len(),
    ensures
        ({
            let g = t.net().nodes;
            let ids = holders_v(g, i, t.n_nodes as int);
            test_value(some_test(i, ids, n), env) <==> exists|j: int|
                0 <= j < n && formula_holds(g, plain(g, e), #[trigger] ids[j] as int, i)
        }),
    decreases n,
{
    let g = t.net().nodes;
    let m = t.n_nodes as int;
    let ids = holders_v(g, i, m);
    let s = plain(g, e);
    reveal_with_fuel(test_value, 2);
    holders_range(g, i, m);
    if n > 0 {
        some_worth(t, e, env, i, n - 1);
        let u = ids[n - 1] as int;
        assert(can_hold(g[ids[n - 1] as int].kind, i));
        trigger_worth(t, e, env, i, u);
        assert(tells(env, trigger_name(i, u), trigger_test(g, u, i)));
        if test_value(some_test(i, ids, n), env) {
            if formula_holds(g, s, u, i) {
                assert(formula_holds(g, s, ids[n - 1] as int, i));
            } else {
                let j = choose|j: int|
                    0 <= j < n - 1 && formula_holds(g, s, #[trigger] ids[j] as int, i);
                assert(formula_holds(g, s, ids[j] as int, i));
            }
        }
        if exists|j: int| 0 <= j < n && formula_holds(g, s, #[trigger] ids[j] as int, i) {
            let j = choose|j: int| 0 <= j < n && formula_holds(g, s, #[trigger] ids[j] as int, i);
            if j < n - 1 {
                assert(formula_holds(g, s, ids[j] as int, i));
            }
        }
    }
}

proof fn somewhere_worth<N: Number>(t: &Tree<N>, e: Seq<int>, env: Env, i: int)
    requires
        t.wf(),
        tame(t.net(), e),
        shows(t, e, env),
        obeys(t, env),
        1 <= i <= 5,
    ensures
        (env.tests)(some_name(i)) == some_holds(t.net().nodes, plain(t.net().nodes, e), i),
{
    let g = t.net().nodes;
    let m = t.n_nodes as int;
    let ids = holders_v(g, i, m);
    let s = plain(g, e);
    some_worth(t, e, env, i, ids.len() as int);
    holders_range(g, i, m);
    assert(tells(env, some_name(i), some_test(i, ids, ids.len() as int)));
    if some_holds(g, s, i) {
        let v = choose|v: int|
            1 <= v < g.len() && can_hold((#[trigger] g[v]).kind, i) && formula_holds(g, s, v, i);
        assert(ids.contains(v as u32));
        let j = ids.index_of(v as u32);
        assert(formula_holds(g, s, ids[j] as int, i));
    }
    if exists|j: int| 0 <= j < ids.len() && formula_holds(g, s, #[trigger] ids[j] as int, i) {
        let j = choose|j: int| 0 <= j < ids.len() && formula_holds(g, s, #[trigger] ids[j] as int, i);
        let v = ids[j] as int;
        assert(can_hold(g[v].kind, i) && formula_holds(g, s, v, i));
    }
}

proof fn none_worth(env: Env, n: int)
    requires
        n >= 1,
    ensures
        test_value(none_above(n), env) <==> forall|j: int|
            1 <= j <= n ==> !(env.tests)(#[trigger] some_name(j)),
    decreases n,
{
    reveal_with_fuel(test_value, 3);
    if n > 1 {
        none_worth(env, n - 1);
        assert(test_value(none_above(n), env) == (test_value(none_above(n - 1), env) && !(env.tests)(
            some_name(n),
        )));
    } else {
        assert(test_value(none_above(n), env) == !(env.tests)(some_name(1)));
    }
}

proof fn witness_worth<N: Number>(t: &Tree<N>, e: Seq<int>, env: Env, i: int, u: int, n: int)
    requires
        t.wf(),
        tame(t.net(), e),
        shows(t, e, env),
        obeys(t, env),
        1 <= i <= 5,
        0 <= n <= holders_v(t.net().nodes, i, t.n_nodes as int).len(),
        1 <= u <= t.n_nodes,
        can_hold(t.net().nodes[u].kind, i),
    ensures
        ({
            let g = t.net().nodes;
            let ids = holders_v(g, i, t.n_nodes as int);
            let s = plain(g, e);
            test_value(witness_test(i, ids, u, n), env) <==> formula_holds(g, s, u, i) && forall|j: int|
                0 <= j < n ==> !formula_holds(g, s, #[trigger] ids[j] as int, i)
        }),
    decreases n,
{
    let g = t.net().nodes;
    let m = t.n_nodes as int;
    let ids = holders_v(g, i, m);
    let s = plain(g, e);
    reveal_with_fuel(test_value, 3);
    holders_range(g, i, m);
    if n <= 0 {
        trigger_worth(t, e, env, i, u);
        assert(ids.contains(u as u32));
        let j = ids.index_of(u as u32);
        assert(tells(env, trigger_name(i, ids[j] as int), trigger_test(g, ids[j] as int, i)));
    } else {
        witness_worth(t, e, env, i, u, n - 1);
        let v = ids[n - 1] as int;
        assert(can_hold(g[ids[n - 1] as int].kind, i));
        trigger_worth(t, e, env, i, v);
        assert(tells(env, trigger_name(i, v), trigger_test(g, v, i)));
    }
}

/// The guard of a command holds exactly where the semantics enables it: its
/// trigger is the first that holds anywhere, and its node the first that holds
/// it.
#[verifier::rlimit(40)]
pub proof fn guards_are_worth<N: Number>(t: &Tree<N>, e: Seq<int>, env: Env, i: int, u: int)
    requires
        t.wf(),
        tame(t.net(), e),
        shows(t, e, env),
        obeys(t, env),
        1 <= i <= 5,
        1 <= u <= t.n_nodes,
        can_hold(t.net().nodes[u].kind, i),
    ensures
        test_value(guard_test(i, u), env) == guard_holds(
            t.net().nodes,
            plain(t.net().nodes, e),
            i,
            u,
        ),
{
    let g = t.net().nodes;
    let m = t.n_nodes as int;
    let ids = holders_v(g, i, m);
    let s = plain(g, e);
    reveal_with_fuel(test_value, 3);
    holders_range(g, i, m);
    holders_sorted(g, i, m);
    assert(ids.contains(u as u32));
    let k = ids.index_of(u as u32);
    witness_worth(t, e, env, i, u, k);
    assert(tells(env, witness_name(i, ids[k] as int), witness_test(i, ids, ids[k] as int, k)));
    assert(tells(env, rank_name(i), rank_test(i)));
    somewhere_worth(t, e, env, i);
    assert forall|j: int| 1 <= j < i implies (env.tests)(#[trigger] some_name(j)) == some_holds(g, s, j) by {
        somewhere_worth(t, e, env, j);
    }
    if i > 1 {
        none_worth(env, i - 1);
    }
    assert((env.tests)(rank_name(i)) <==> some_holds(g, s, i) && forall|j: int|
        1 <= j < i ==> !#[trigger] some_holds(g, s, j)) by {
        if (env.tests)(rank_name(i)) {
            assert forall|j: int| 1 <= j < i implies !#[trigger] some_holds(g, s, j) by {
                assert(!(env.tests)(some_name(j)));
            }
        }
        if forall|j: int| 1 <= j < i ==> !#[trigger] some_holds(g, s, j) {
            assert forall|j: int| 1 <= j <= i - 1 implies !(env.tests)(#[trigger] some_name(j)) by {
                assert(!some_holds(g, s, j));
            }
        }
    }
    if guard_holds(g, s, i, u) {
        assert(can_hold(g[u].kind, i) && formula_holds(g, s, u, i));
        assert forall|j: int| 0 <= j < k implies !formula_holds(g, s, #[trigger] ids[j] as int, i) by {
            assert(can_hold(g[ids[j] as int].kind, i));
        }
    }
    if formula_holds(g, s, u, i) && (forall|j: int|
        0 <= j < k ==> !formula_holds(g, s, #[trigger] ids[j] as int, i)) {
        assert forall|v: int| 1 <= v < u && can_hold((#[trigger] g[v]).kind, i) implies !formula_holds(
            g,
            s,
            v,
            i,
        ) by {
            assert(ids.contains(v as u32));
            let j = ids.index_of(v as u32);
            assert(ids[j] as int == v);
            assert(j < k);
        }
    }
}

proof fn holders_sorted(g: Seq<Vertex>, i: int, n: int)
    requires
        n <= u32::MAX,
    ensures
        forall|a: int, b: int|
            0 <= a < b < holders_v(g, i, n).len() ==> holders_v(g, i, n)[a] < holders_v(g, i, n)[b],
    decreases n,
{
    if n > 0 {
        holders_sorted(g, i, n - 1);
        holders_range(g, i, n - 1);
    }
}

// ---------------------------------------------------------------------------
// the fast forward
// ---------------------------------------------------------------------------

/// The step is worth the least of the times the tasks still need.
pub open spec fn steps<N: Number>(t: &Tree<N>, env: Env) -> bool {
    &&& forall|j: int|
        0 <= j < t.tasks@.len() ==> (env.nums)("t_step"@) <= num_value(
            left_num(#[trigger] t.tasks@[j] as int),
            env,
        )
    &&& exists|j: int|
        0 <= j < t.tasks@.len() && (env.nums)("t_step"@) == num_value(
            left_num(#[trigger] t.tasks@[j] as int),
            env,
        )
}

proof fn left_worth<N: Number>(t: &Tree<N>, e: Seq<int>, env: Env, u: int)
    requires
        t.wf(),
        tame(t.net(), e),
        shows(t, e, env),
        1 <= u <= t.n_nodes,
        t.net().nodes[u].kind == Kind::Task,
    ensures
        ({
            let g = t.net().nodes;
            let s = plain(g, e);
            num_value(left_num(u), env) == if busy(g, s, u) {
                left(g, s, u)
            } else {
                (env.nums)("no_time"@)
            }
        }),
        e[u] == plain(t.net().nodes, e)[u],
{
    plain_facts(t.net(), e);
    reveal_with_fuel(num_value, 3);
    reveal_with_fuel(test_value, 2);
    assert((env.nums)(clock_name(u)) == e[u]);
    assert((env.nums)(span_name(u)) == t.net().nodes[u].duration);
    assert(plain(t.net().nodes, e)[u] == e[u]);
}

proof fn least_reached(g: Seq<Vertex>, s: Seq<i8>, n: int)
    ensures
        least_left(g, s, n) == 0x7fff_ffff || exists|u: int|
            1 <= u <= n && #[trigger] busy(g, s, u) && left(g, s, u) == least_left(g, s, n),
    decreases n,
{
    if n > 0 {
        least_reached(g, s, n - 1);
        let m = least_left(g, s, n - 1);
        if busy(g, s, n) && left(g, s, n) < m {
            assert(busy(g, s, n));
        } else if m != 0x7fff_ffff {
            let u = choose|u: int| 1 <= u <= n - 1 && #[trigger] busy(g, s, u) && left(g, s, u) == m;
            assert(busy(g, s, u));
        }
    }
}

proof fn task_listed(g: Seq<Vertex>, n: int, u: int)
    requires
        1 <= u <= n <= u32::MAX,
        g[u].kind == Kind::Task,
    ensures
        task_ids(g, n).contains(u as u32),
    decreases n,
{
    let all = task_ids(g, n);
    if u == n {
        assert(all[all.len() - 1] == u as u32);
    } else {
        task_listed(g, n - 1, u);
        let j = task_ids(g, n - 1).index_of(u as u32);
        assert(all[j] == u as u32);
    }
}

/// Where a task is under way, the step is the time of the fast forward, a closer
/// is a task that completes in it, and every node has the successor the fast
/// forward gives it.
pub proof fn forward_is_worth<N: Number>(t: &Tree<N>, e: Seq<int>, env: Env, w: int, u: int)
    requires
        t.wf(),
        tame(t.net(), e),
        shows(t, e, env),
        steps(t, env),
        1 <= w <= t.n_nodes,
        busy(t.net().nodes, plain(t.net().nodes, e), w),
        1 <= u <= t.n_nodes,
    ensures
        ({
            let net = t.net();
            let s = plain(net.nodes, e);
            &&& (env.nums)("t_step"@) == advance(net.nodes, s)
            &&& net.nodes[u].kind == Kind::Task ==> test_value(closer_test(u), env) == closes(
                net.nodes,
                s,
                u,
            )
            &&& (net.nodes[u].kind == Kind::Task ==> tells(env, closer_name(u), closer_test(u)))
                ==> num_value(next_num(net, u), env) == ticked(net, e)[u]
        }),
{
    let net = t.net();
    let g = net.nodes;
    let n = t.n_nodes as int;
    let s = plain(g, e);
    let step = (env.nums)("t_step"@);
    plain_facts(net, e);
    net_durations(net);
    least_left_bounds(g, s, n);
    least_reached(g, s, n);
    task_ids_range(g, n);
    assert(advance(g, s) == least_left(g, s, n));
    assert(advance(g, s) <= 127);
    let v = choose|v: int| 1 <= v <= n && #[trigger] busy(g, s, v) && left(g, s, v) == advance(g, s);
    task_listed(g, n, v);
    let jv = t.tasks@.index_of(v as u32);
    assert(t.tasks@[jv] as int == v);
    left_worth(t, e, env, v);
    assert(step <= num_value(left_num(t.tasks@[jv] as int), env));
    let j = choose|j: int|
        0 <= j < t.tasks@.len() && step == num_value(left_num(#[trigger] t.tasks@[j] as int), env);
    let x = t.tasks@[j] as int;
    left_worth(t, e, env, x);
    longest_is_longest(t, t.tasks@.len() as int);
    assert(t.nodes@[t.tasks@[jv] as int].duration <= longest_v(t, t.tasks@.len() as int));
    assert(g[v] == t.nodes@[v].vertex());
    if busy(g, s, x) {
        assert(advance(g, s) <= left(g, s, x));
    }
    assert(step == advance(g, s));
    reveal_with_fuel(num_value, 6);
    reveal_with_fuel(test_value, 4);
    assert((env.nums)(clock_name(u)) == e[u]);
    assert(s[u] == plain(g, e)[u]);
    if g[u].kind == Kind::Task {
        assert((env.nums)(span_name(u)) == g[u].duration);
        assert(DONE == -2);
    }
}

// ---------------------------------------------------------------------------
// constants, variables and rewards
// ---------------------------------------------------------------------------

proof fn longest_is_longest<N: Number>(t: &Tree<N>, n: int)
    requires
        0 <= n <= t.tasks@.len(),
    ensures
        forall|j: int|
            0 <= j < n ==> t.nodes@[#[trigger] t.tasks@[j] as int].duration <= longest_v(t, n),
        longest_v(t, n) >= 0,
        n > 0 ==> longest_v(t, n) == 0 || exists|j: int|
            0 <= j < n && t.nodes@[#[trigger] t.tasks@[j] as int].duration == longest_v(t, n),
    decreases n,
{
    if n > 0 {
        longest_is_longest(t, n - 1);
        let d = t.nodes@[t.tasks@[n - 1] as int].duration as int;
        if d > longest_v(t, n - 1) {
            assert(t.nodes@[t.tasks@[n - 1] as int].duration == longest_v(t, n));
        } else if n > 1 && longest_v(t, n - 1) != 0 {
            let j = choose|j: int|
                0 <= j < n - 1 && t.nodes@[#[trigger] t.tasks@[j] as int].duration == longest_v(
                    t,
                    n - 1,
                );
            assert(t.nodes@[t.tasks@[j] as int].duration == longest_v(t, n));
        }
    }
}

/// A line says this, with a comment behind it.
pub open spec fn commented(line: Seq<char>, head: Seq<char>) -> bool {
    exists|note: Seq<char>| line == #[trigger] (head + ";  // "@ + note)
}

/// The declaration of the variable of a node.
pub open spec fn declaration(n: Net, u: int) -> Seq<char> {
    "  "@ + clock_name(u) + " : ["@ + signed(DONE as int) + ".."@ + signed(top(n, u)) + "] init "@
        + signed(clocks_begin(n)[u])
}

/// The constants of the model: one for each task, worth its duration; one for
/// each nature node, the literal of its probability; and the horizon is past
/// every duration.
pub proof fn constants_are_written<N: Number>(t: &Tree<N>)
    ensures
        duration_lines(t).len() == t.tasks@.len(),
        forall|j: int|
            0 <= j < t.tasks@.len() ==> commented(
                #[trigger] duration_lines(t)[j],
                "const int "@ + span_name(t.tasks@[j] as int) + " = "@ + signed(
                    t.nodes@[t.tasks@[j] as int].duration as int,
                ),
            ),
        forall|j: int|
            0 <= j < t.tasks@.len() ==> t.nodes@[#[trigger] t.tasks@[j] as int].duration < longest_v(
                t,
                t.tasks@.len() as int,
            ) + 1,
        ({
            let ids = holders_v(t.net().nodes, 4, t.n_nodes as int);
            &&& chance_lines(t).len() == ids.len()
            &&& forall|j: int|
                0 <= j < ids.len() ==> #[trigger] chance_lines(t)[j] == "const double p"@ + decimal(
                    ids[j] as nat,
                ) + " = "@ + dbl_v::<N>(t.prob_v(ids[j] as int)) + ";"@
        }),
{
    longest_is_longest(t, t.tasks@.len() as int);
    reveal_strlit("const int d");
    reveal_strlit("const int ");
    reveal_strlit("d");
    assert("const int d"@ =~= "const int "@ + "d"@);
    assert forall|j: int| 0 <= j < t.tasks@.len() implies commented(
        #[trigger] duration_lines(t)[j],
        "const int "@ + span_name(t.tasks@[j] as int) + " = "@ + signed(
            t.nodes@[t.tasks@[j] as int].duration as int,
        ),
    ) by {
        let u = t.tasks@[j] as int;
        let d = signed(t.nodes@[u].duration as int);
        let note = t.task_names@[u]@ + ", raw duration "@ + d + ".0"@;
        assert(duration_lines(t)[j] =~= "const int "@ + span_name(u) + " = "@ + d + ";  // "@ + note);
    }
}

/// The variables of the model: one for each node, from done up to the top of its
/// range, and the one of the root alone starts at zero.
pub proof fn variables_are_written<N: Number>(t: &Tree<N>, n: int)
    requires
        t.nodes@.len() == t.n_nodes + 1,
        0 <= n <= t.n_nodes,
    ensures
        variable_lines(t, n).len() == n,
        forall|u: int|
            1 <= u <= n ==> commented(#[trigger] variable_lines(t, n)[u - 1], declaration(t.net(), u)),
    decreases n,
{
    if n > 0 {
        variables_are_written(t, n - 1);
        small_literals();
        reveal_strlit("  n");
        reveal_strlit("  ");
        reveal_strlit("n");
        reveal_strlit(" : [-2..");
        reveal_strlit(" : [");
        reveal_strlit("-2");
        reveal_strlit("..");
        reveal_strlit(";  // node ");
        reveal_strlit(";  // ");
        reveal_strlit("node ");
        assert("  n"@ =~= "  "@ + "n"@);
        assert(" : [-2.."@ =~= " : ["@ + "-2"@ + ".."@);
        assert(";  // node "@ =~= ";  // "@ + "node "@);
        assert(t.net().nodes[n] == t.nodes@[n].vertex());
        assert(DONE == -2 && IDLE == -1);
        let note = "node "@ + decimal(n as nat) + ", "@ + label_v(t, n);
        assert(variable_lines(t, n)[n - 1] =~= declaration(t.net(), n) + ";  // "@ + note);
        assert forall|u: int| 1 <= u <= n implies commented(
            #[trigger] variable_lines(t, n)[u - 1],
            declaration(t.net(), u),
        ) by {
            if u < n {
                assert(variable_lines(t, n)[u - 1] == variable_lines(t, n - 1)[u - 1]);
            }
        }
    }
}

/// The rewards of a component: a sum with one term for each task, which pays the
/// literal of its impact where the task completes and nothing otherwise.
pub proof fn rewards_are_written<N: Number>(t: &Tree<N>, c: int, n: int)
    requires
        0 <= n <= t.tasks@.len(),
    ensures
        reward_lines(t, c, n).len() == n,
        forall|j: int|
            0 <= j < n ==> {
                let u = t.tasks@[j] as int;
                #[trigger] reward_lines(t, c, n)[j] == "      "@ + (if j == 0 {
                    "  "@
                } else {
                    "+ "@
                }) + "("@ + closer_name(u) + " ? "@ + dbl_v::<N>(t.impact_v(u)[c]) + " : 0.0)   // "@
                    + t.task_names@[u]@
            },
    decreases n,
{
    if n > 0 {
        rewards_are_written(t, c, n - 1);
        reveal_strlit("(closes");
        reveal_strlit("(");
        reveal_strlit("closes");
        assert("(closes"@ =~= "("@ + "closes"@);
        assert forall|j: int| 0 <= j < n implies {
            let u = t.tasks@[j] as int;
            #[trigger] reward_lines(t, c, n)[j] == "      "@ + (if j == 0 {
                "  "@
            } else {
                "+ "@
            }) + "("@ + closer_name(u) + " ? "@ + dbl_v::<N>(t.impact_v(u)[c]) + " : 0.0)   // "@
                + t.task_names@[u]@
        } by {
            if j < n - 1 {
                assert(reward_lines(t, c, n)[j] == reward_lines(t, c, n - 1)[j]);
            } else {
                let u = t.tasks@[j] as int;
                let plus = if j == 0 {
                    "  "@
                } else {
                    "+ "@
                };
                assert(reward_lines(t, c, n)[j] =~= "      "@ + plus + "("@ + closer_name(u) + " ? "@
                    + dbl_v::<N>(t.impact_v(u)[c]) + " : 0.0)   // "@ + t.task_names@[u]@);
            }
        }
    }
}

// ---------------------------------------------------------------------------
// the whole model
// ---------------------------------------------------------------------------

/// These lines stand in a text, one after the other.
#[verifier::opaque]
pub open spec fn stands_in(b: Seq<Seq<char>>, all: Seq<Seq<char>>) -> bool {
    exists|x: Seq<Seq<char>>, y: Seq<Seq<char>>| all == #[trigger] (x + b + y)
}

proof fn in_itself(b: Seq<Seq<char>>)
    ensures
        stands_in(b, b),
{
    reveal(stands_in);
    let none = Seq::<Seq<char>>::empty();
    assert(b =~= none + b + none);
}

proof fn in_left(b: Seq<Seq<char>>, a: Seq<Seq<char>>, c: Seq<Seq<char>>)
    requires
        stands_in(b, a),
    ensures
        stands_in(b, a + c),
{
    reveal(stands_in);
    let (x, y) = choose|x: Seq<Seq<char>>, y: Seq<Seq<char>>| a == #[trigger] (x + b + y);
    assert(a + c =~= x + b + (y + c));
}

proof fn in_right(b: Seq<Seq<char>>, a: Seq<Seq<char>>, c: Seq<Seq<char>>)
    requires
        stands_in(b, c),
    ensures
        stands_in(b, a + c),
{
    reveal(stands_in);
    let (x, y) = choose|x: Seq<Seq<char>>, y: Seq<Seq<char>>| c == #[trigger] (x + b + y);
    assert(a + c =~= (a + x) + b + y);
}

proof fn in_pushed(b: Seq<Seq<char>>, a: Seq<Seq<char>>, l: Seq<char>)
    requires
        stands_in(b, a),
    ensures
        stands_in(b, a.push(l)),
{
    in_left(b, a, seq![l]);
    assert(a.push(l) =~= a + seq![l]);
}

/// What stands in a part stands in the whole.
proof fn in_through(b: Seq<Seq<char>>, a: Seq<Seq<char>>, c: Seq<Seq<char>>)
    requires
        stands_in(b, a),
        stands_in(a, c),
    ensures
        stands_in(b, c),
{
    reveal(stands_in);
    let (x, y) = choose|x: Seq<Seq<char>>, y: Seq<Seq<char>>| a == #[trigger] (x + b + y);
    let (v, w) = choose|v: Seq<Seq<char>>, w: Seq<Seq<char>>| c == #[trigger] (v + a + w);
    assert(c =~= (v + x) + b + (y + w));
}

/// The six parts of a model stand in it.
proof fn parts_stand<N: Number>(t: &Tree<N>, stem: Seq<char>, file_name: Seq<char>, history: bool)
    ensures
        ({
            let all = model_lines(t, stem, file_name, history);
            &&& stands_in(constants_v(t), all)
            &&& stands_in(formulas_v(t), all)
            &&& stands_in(forward_v(t), all)
            &&& stands_in(module_v(t, history), all)
            &&& stands_in(rewards_v(t, t.k as int), all)
        }),
{
    let (k, s, c, f, w, m) = (
        keys_v(t, stem, file_name),
        scaling_v(),
        constants_v(t),
        formulas_v(t),
        forward_v(t),
        module_v(t, history),
    );
    let last = "label \"final\" = "@ + var(t.root as int) + "=-2;"@;
    let head = (k + s + c + f + w + m).push(last);
    in_itself(c);
    in_itself(f);
    in_itself(w);
    in_itself(m);
    in_itself(rewards_v(t, t.k as int));
    in_right(c, k + s, c);
    in_left(c, k + s + c, f);
    in_left(c, k + s + c + f, w);
    in_left(c, k + s + c + f + w, m);
    in_right(f, k + s + c, f);
    in_left(f, k + s + c + f, w);
    in_left(f, k + s + c + f + w, m);
    in_right(w, k + s + c + f, w);
    in_left(w, k + s + c + f + w, m);
    in_right(m, k + s + c + f + w, m);
    let (title, pay) = (rewards_title_v(), rewards_v(t, t.k as int));
    in_pushed(c, k + s + c + f + w + m, last);
    in_pushed(f, k + s + c + f + w + m, last);
    in_pushed(w, k + s + c + f + w + m, last);
    in_pushed(m, k + s + c + f + w + m, last);
    in_left(c, head, title);
    in_left(f, head, title);
    in_left(w, head, title);
    in_left(m, head, title);
    in_left(c, head + title, pay);
    in_left(f, head + title, pay);
    in_left(w, head + title, pay);
    in_left(m, head + title, pay);
    in_right(pay, head + title, pay);
}

/// These blocks, one after the other.
spec fn strung(ps: Seq<Seq<Seq<char>>>) -> Seq<Seq<char>>
    decreases ps.len(),
{
    if ps.len() == 0 {
        Seq::empty()
    } else {
        strung(ps.drop_last()) + ps.last()
    }
}

proof fn strung_on(ps: Seq<Seq<Seq<char>>>, p: Seq<Seq<char>>)
    ensures
        strung(ps.push(p)) == strung(ps) + p,
{
    assert(ps.push(p).drop_last() =~= ps);
}

proof fn block_stands(ps: Seq<Seq<Seq<char>>>, k: int)
    requires
        0 <= k < ps.len(),
    ensures
        stands_in(ps[k], strung(ps)),
    decreases ps.len(),
{
    let before = strung(ps.drop_last());
    if k == ps.len() - 1 {
        in_itself(ps[k]);
        in_right(ps[k], before, ps[k]);
    } else {
        block_stands(ps.drop_last(), k);
        in_left(ps[k], before, ps.last());
    }
}

proof fn blocks_stand<N: Number>(t: &Tree<N>, i: int)
    requires
        1 <= i <= 5,
    ensures
        stands_in(trigger_block(t, i), formulas_v(t)),
        stands_in(ranks_v(), formulas_v(t)),
        stands_in(witness_block(t, i), formulas_v(t)),
{
    let s0 = seq![triggers_title_v()];
    let s1 = s0.push(trigger_block(t, 1));
    let s2 = s1.push(trigger_block(t, 2));
    let s3 = s2.push(trigger_block(t, 3));
    let s4 = s3.push(trigger_block(t, 4));
    let s5 = s4.push(trigger_block(t, 5));
    let s6 = s5.push(rank_title_v());
    let s7 = s6.push(ranks_v());
    let s8 = s7.push(witness_title_v());
    let s9 = s8.push(witness_block(t, 1));
    let s10 = s9.push(witness_block(t, 2));
    let s11 = s10.push(witness_block(t, 3));
    let s12 = s11.push(witness_block(t, 4));
    let s13 = s12.push(witness_block(t, 5));
    assert(s0.drop_last() =~= Seq::empty());
    reveal_with_fuel(strung, 2);
    assert(strung(s0) =~= triggers_title_v());
    strung_on(s0, trigger_block(t, 1));
    strung_on(s1, trigger_block(t, 2));
    strung_on(s2, trigger_block(t, 3));
    strung_on(s3, trigger_block(t, 4));
    strung_on(s4, trigger_block(t, 5));
    strung_on(s5, rank_title_v());
    strung_on(s6, ranks_v());
    strung_on(s7, witness_title_v());
    strung_on(s8, witness_block(t, 1));
    strung_on(s9, witness_block(t, 2));
    strung_on(s10, witness_block(t, 3));
    strung_on(s11, witness_block(t, 4));
    strung_on(s12, witness_block(t, 5));
    assert(strung(s13) == formulas_v(t));
    block_stands(s13, i);
    block_stands(s13, 7);
    block_stands(s13, 8 + i);
    assert(s13[i] == trigger_block(t, i)) by {
        if i == 1 {
        } else if i == 2 {
        } else if i == 3 {
        } else if i == 4 {
        } else {
        }
    }
    assert(s13[8 + i] == witness_block(t, i)) by {
        if i == 1 {
        } else if i == 2 {
        } else if i == 3 {
        } else if i == 4 {
        } else {
        }
    }
    assert(s13[7] == ranks_v());
}

proof fn constants_stand<N: Number>(t: &Tree<N>)
    ensures
        ({
            let cs = constants_v(t);
            let time = "const int no_time = "@ + signed(longest_v(t, t.tasks@.len() as int) + 1) + ";"@;
            &&& stands_in(duration_lines(t), cs)
            &&& stands_in(seq![time], cs)
            &&& stands_in(chance_lines(t), cs)
        }),
{
    let none = Seq::<Seq<char>>::empty();
    let cs = constants_v(t);
    let time = "const int no_time = "@ + signed(longest_v(t, t.tasks@.len() as int) + 1) + ";"@;
    let (a, d, h) = (durations_title_v(), duration_lines(t), horizon_title_v());
    let b = a + d + h;
    in_itself(d);
    in_right(d, a, d);
    in_left(d, a + d, h);
    in_pushed(d, b, time);
    in_itself(seq![time]);
    in_right(seq![time], b, seq![time]);
    assert(b.push(time) =~= b + seq![time]);
    let p = chance_lines(t);
    if holders_v(t.net().nodes, 4, t.n_nodes as int).len() > 0 {
        let q = chances_title_v();
        let c = b.push(time) + q;
        in_left(d, b.push(time), q);
        in_left(seq![time], b.push(time), q);
        in_left(d, c, p);
        in_left(seq![time], c, p);
        in_itself(p);
        in_right(p, c, p);
        in_pushed(d, c + p, ""@);
        in_pushed(seq![time], c + p, ""@);
        in_pushed(p, c + p, ""@);
    } else {
        in_pushed(d, b.push(time), ""@);
        in_pushed(seq![time], b.push(time), ""@);
        assert(p =~= none);
        reveal(stands_in);
        assert(cs =~= cs + p + none);
    }
}

proof fn forward_stands<N: Number>(t: &Tree<N>)
    ensures
        ({
            let w = forward_v(t);
            &&& stands_in(seq![step_line(t.tasks@)], w)
            &&& stands_in(closer_lines(t, t.tasks@.len() as int), w)
            &&& stands_in(successor_lines(t, t.n_nodes as int), w)
        }),
{
    let (f, s, c, z) = (
        forward_title_v(),
        step_line(t.tasks@),
        closer_lines(t, t.tasks@.len() as int),
        successor_lines(t, t.n_nodes as int),
    );
    let one = seq![s];
    in_itself(one);
    in_right(one, f, one);
    assert(f.push(s) =~= f + one);
    in_pushed(one, f.push(s), ""@);
    let g = f.push(s).push(""@);
    in_left(one, g, c);
    in_itself(c);
    in_right(c, g, c);
    in_pushed(one, g + c, ""@);
    in_pushed(c, g + c, ""@);
    let h = (g + c).push(""@);
    let st = successor_title_v();
    in_left(one, h, st);
    in_left(c, h, st);
    in_left(one, h + st, z);
    in_left(c, h + st, z);
    in_itself(z);
    in_right(z, h + st, z);
    in_pushed(one, h + st + z, ""@);
    in_pushed(c, h + st + z, ""@);
    in_pushed(z, h + st + z, ""@);
}

proof fn module_stands<N: Number>(t: &Tree<N>, history: bool)
    ensures
        ({
            let m = module_v(t, history);
            &&& stands_in(variable_lines(t, t.n_nodes as int), m)
            &&& stands_in(trail_v(t, history), m)
            &&& stands_in(commands_v(t, history), m)
        }),
{
    let root = var(t.root as int);
    let absorb = "  [absorb] "@ + root + "=-2 -> ("@ + root + "'=-2);"@;
    let (a, v, r, c, z) = (
        module_title_v(),
        variable_lines(t, t.n_nodes as int),
        trail_v(t, history),
        commands_v(t, history),
        final_title_v(),
    );
    in_itself(v);
    in_itself(r);
    in_itself(c);
    in_right(v, a, v);
    in_pushed(v, a + v, ""@);
    let b = (a + v).push(""@);
    in_left(v, b, r);
    in_right(r, b, r);
    in_left(v, b + r, c);
    in_left(r, b + r, c);
    in_right(c, b + r, c);
    let d = b + r + c;
    in_pushed(v, d, absorb);
    in_pushed(r, d, absorb);
    in_pushed(c, d, absorb);
    in_left(v, d.push(absorb), z);
    in_left(r, d.push(absorb), z);
    in_left(c, d.push(absorb), z);
}

proof fn label_stands<N: Number>(t: &Tree<N>, stem: Seq<char>, file_name: Seq<char>, history: bool)
    ensures
        stands_in(
            seq!["label \"final\" = "@ + clock_name(t.root as int) + "=-2;"@],
            model_lines(t, stem, file_name, history),
        ),
{
    let label = "label \"final\" = "@ + clock_name(t.root as int) + "=-2;"@;
    let head = keys_v(t, stem, file_name) + scaling_v() + constants_v(t) + formulas_v(t) + forward_v(t)
        + module_v(t, history);
    let one = seq![label];
    in_itself(one);
    in_right(one, head, one);
    assert(head.push(label) =~= head + one);
    in_left(one, head.push(label), rewards_title_v());
    in_left(one, head.push(label) + rewards_title_v(), rewards_v(t, t.k as int));
}

/// The reward structure of a component.
pub open spec fn structure<N: Number>(t: &Tree<N>, c: int) -> Seq<Seq<char>> {
    seq!["rewards \"impact"@ + decimal(c as nat) + "\""@, "  [ff] true :"@] + reward_lines(
        t,
        c,
        t.tasks@.len() as int,
    ) + seq!["  ;"@, "endrewards"@]
}

proof fn structure_next<N: Number>(t: &Tree<N>, n: int)
    requires
        n > 0,
    ensures
        rewards_v(t, n) == rewards_v(t, n - 1) + structure(t, n - 1) + seq![""@],
{
    assert(rewards_v(t, n) =~= rewards_v(t, n - 1) + structure(t, n - 1) + seq![""@]);
}

proof fn structures_stand<N: Number>(t: &Tree<N>, c: int, n: int)
    requires
        0 <= c < n,
    ensures
        stands_in(structure(t, c), rewards_v(t, n)),
    decreases n,
{
    let (before, last) = (rewards_v(t, n - 1), structure(t, n - 1));
    structure_next(t, n);
    if c == n - 1 {
        in_itself(last);
        in_right(last, before, last);
    } else {
        structures_stand(t, c, n - 1);
        in_left(structure(t, c), before, last);
    }
    in_left(structure(t, c), before + last, seq![""@]);
}

/// The formulas of every trigger, rank and witness stand in the model.
pub proof fn model_holds_triggers<N: Number>(
    t: &Tree<N>,
    stem: Seq<char>,
    file_name: Seq<char>,
    history: bool,
    i: int,
)
    requires
        1 <= i <= 5,
    ensures
        stands_in(trigger_block(t, i), model_lines(t, stem, file_name, history)),
        stands_in(ranks_v(), model_lines(t, stem, file_name, history)),
        stands_in(witness_block(t, i), model_lines(t, stem, file_name, history)),
{
    let all = model_lines(t, stem, file_name, history);
    parts_stand(t, stem, file_name, history);
    blocks_stand(t, i);
    in_through(trigger_block(t, i), formulas_v(t), all);
    in_through(ranks_v(), formulas_v(t), all);
    in_through(witness_block(t, i), formulas_v(t), all);
}

/// The constants of the durations and of the probabilities and the horizon stand
/// in the model.
pub proof fn model_holds_constants<N: Number>(
    t: &Tree<N>,
    stem: Seq<char>,
    file_name: Seq<char>,
    history: bool,
)
    ensures
        stands_in(duration_lines(t), model_lines(t, stem, file_name, history)),
        stands_in(
            seq!["const int no_time = "@ + signed(longest_v(t, t.tasks@.len() as int) + 1) + ";"@],
            model_lines(t, stem, file_name, history),
        ),
        stands_in(chance_lines(t), model_lines(t, stem, file_name, history)),
{
    let all = model_lines(t, stem, file_name, history);
    parts_stand(t, stem, file_name, history);
    constants_stand(t);
    let time = "const int no_time = "@ + signed(longest_v(t, t.tasks@.len() as int) + 1) + ";"@;
    in_through(duration_lines(t), constants_v(t), all);
    in_through(seq![time], constants_v(t), all);
    in_through(chance_lines(t), constants_v(t), all);
}

/// The formulas of the fast forward stand in the model.
pub proof fn model_holds_forward<N: Number>(
    t: &Tree<N>,
    stem: Seq<char>,
    file_name: Seq<char>,
    history: bool,
)
    ensures
        stands_in(seq![step_line(t.tasks@)], model_lines(t, stem, file_name, history)),
        stands_in(
            closer_lines(t, t.tasks@.len() as int),
            model_lines(t, stem, file_name, history),
        ),
        stands_in(
            successor_lines(t, t.n_nodes as int),
            model_lines(t, stem, file_name, history),
        ),
{
    let all = model_lines(t, stem, file_name, history);
    parts_stand(t, stem, file_name, history);
    forward_stands(t);
    in_through(seq![step_line(t.tasks@)], forward_v(t), all);
    in_through(closer_lines(t, t.tasks@.len() as int), forward_v(t), all);
    in_through(successor_lines(t, t.n_nodes as int), forward_v(t), all);
}

/// The variables, the decision trail, the commands and the final states stand in
/// the model.
pub proof fn model_holds_module<N: Number>(
    t: &Tree<N>,
    stem: Seq<char>,
    file_name: Seq<char>,
    history: bool,
)
    ensures
        stands_in(
            variable_lines(t, t.n_nodes as int),
            model_lines(t, stem, file_name, history),
        ),
        stands_in(trail_v(t, history), model_lines(t, stem, file_name, history)),
        stands_in(commands_v(t, history), model_lines(t, stem, file_name, history)),
        stands_in(
            seq!["label \"final\" = "@ + clock_name(t.root as int) + "=-2;"@],
            model_lines(t, stem, file_name, history),
        ),
{
    let all = model_lines(t, stem, file_name, history);
    parts_stand(t, stem, file_name, history);
    module_stands(t, history);
    in_through(variable_lines(t, t.n_nodes as int), module_v(t, history), all);
    in_through(trail_v(t, history), module_v(t, history), all);
    in_through(commands_v(t, history), module_v(t, history), all);
    label_stands(t, stem, file_name, history);
}

/// One reward structure for each component stands in the model, under the number
/// of the component.
pub proof fn model_holds_rewards<N: Number>(
    t: &Tree<N>,
    stem: Seq<char>,
    file_name: Seq<char>,
    history: bool,
    c: int,
)
    requires
        0 <= c < t.k,
    ensures
        stands_in(structure(t, c), model_lines(t, stem, file_name, history)),
{
    parts_stand(t, stem, file_name, history);
    structures_stand(t, c, t.k as int);
    in_through(
        structure(t, c),
        rewards_v(t, t.k as int),
        model_lines(t, stem, file_name, history),
    );
}

} // verus!
