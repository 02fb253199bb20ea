//! What a reader of the printed pages learns from them.

use vstd::prelude::*;
use vstd::string::*;
use crate::exact::{ExactError, Optima};
use crate::num::{vals, Number};
use crate::report::{
    answer_rows, answer_word, bound_rows, choices_v, component_rows, decision_rows,
    exact_error_text, exact_rows, info_rows, optima_rows, outcome_word, root_rows, strategy_rows,
    trail_text, vec_text,
};
use crate::search::{error_text, Answer, Stats};
use crate::semantics::Vertex;
use crate::state::StepError;
use crate::text::decimal;
use crate::tree::{xor_ids, xor_ids_range, Kind, Tree};

verus! {

// ---------------------------------------------------------------------------
// the answer
// ---------------------------------------------------------------------------

/// The row of the outcome: a failure has one more row above it.
pub open spec fn outcome_row(a: Answer) -> int {
    if a is Failed {
        11
    } else {
        10
    }
}

/// The words of the answer and of the outcome, with what stands before them.
proof fn words_written(a: Answer)
    ensures
        "answer         "@ + answer_word(a) == (match a {
            Answer::Yes(_) => "answer         yes"@,
            Answer::No => "answer         no"@,
            Answer::Timeout => "answer         timeout"@,
            Answer::Failed(_) => "answer         failed"@,
        }),
        "outcome        "@ + outcome_word(a) == (match a {
            Answer::Yes(_) => "outcome        1 strategy found"@,
            Answer::No => "outcome        0 strategy not found"@,
            Answer::Timeout => "outcome        - timed out, no answer"@,
            Answer::Failed(_) => "outcome        - failed, no answer"@,
        }),
{
    reveal_strlit("answer         ");
    reveal_strlit("outcome        ");
    match a {
        Answer::Yes(_) => {
            reveal_strlit("yes");
            reveal_strlit("answer         yes");
            reveal_strlit("1 strategy found");
            reveal_strlit("outcome        1 strategy found");
            assert("answer         "@ + "yes"@ =~= "answer         yes"@);
            assert("outcome        "@ + "1 strategy found"@ =~= "outcome        1 strategy found"@);
        },
        Answer::No => {
            reveal_strlit("no");
            reveal_strlit("answer         no");
            reveal_strlit("0 strategy not found");
            reveal_strlit("outcome        0 strategy not found");
            assert("answer         "@ + "no"@ =~= "answer         no"@);
            assert("outcome        "@ + "0 strategy not found"@
                =~= "outcome        0 strategy not found"@);
        },
        Answer::Timeout => {
            reveal_strlit("timeout");
            reveal_strlit("answer         timeout");
            reveal_strlit("- timed out, no answer");
            reveal_strlit("outcome        - timed out, no answer");
            assert("answer         "@ + "timeout"@ =~= "answer         timeout"@);
            assert("outcome        "@ + "- timed out, no answer"@
                =~= "outcome        - timed out, no answer"@);
        },
        Answer::Failed(_) => {
            reveal_strlit("failed");
            reveal_strlit("answer         failed");
            reveal_strlit("- failed, no answer");
            reveal_strlit("outcome        - failed, no answer");
            assert("answer         "@ + "failed"@ =~= "answer         failed"@);
            assert("outcome        "@ + "- failed, no answer"@
                =~= "outcome        - failed, no answer"@);
        },
    }
}

/// No two answers are told in the same words.
proof fn words_differ()
    ensures
        "answer         yes"@ != "answer         no"@,
        "answer         yes"@ != "answer         timeout"@,
        "answer         yes"@ != "answer         failed"@,
        "answer         no"@ != "answer         timeout"@,
        "answer         no"@ != "answer         failed"@,
        "answer         timeout"@ != "answer         failed"@,
        "outcome        1 strategy found"@[15] == '1',
        "outcome        0 strategy not found"@[15] == '0',
        "outcome        - timed out, no answer"@[15] == '-',
        "outcome        - failed, no answer"@[15] == '-',
{
    reveal_strlit("answer         yes");
    reveal_strlit("answer         no");
    reveal_strlit("answer         timeout");
    reveal_strlit("answer         failed");
    reveal_strlit("outcome        1 strategy found");
    reveal_strlit("outcome        0 strategy not found");
    reveal_strlit("outcome        - timed out, no answer");
    reveal_strlit("outcome        - failed, no answer");
    assert("answer         yes"@[15] == 'y');
    assert("answer         no"@[15] == 'n');
    assert("answer         timeout"@[15] == 't');
    assert("answer         failed"@[15] == 'f');
}

/// A page says yes exactly where a strategy was found and no exactly where there
/// is none, on the row of the answer in words and on the row of the outcome by
/// its first character; the two rows never disagree, and only those two answers
/// are told by a digit.
pub proof fn answers_are_told<N: Number>(
    t: &Tree<N>,
    threshold: Seq<N::Value>,
    a: Answer,
    s: Stats,
    seconds: Seq<char>,
    print_size: bool,
    print_strategy: bool,
)
    ensures
        ({
            let rows = answer_rows(t, threshold, a, s, seconds) + strategy_rows(
                a,
                print_size,
                print_strategy,
            );
            let out = rows[outcome_row(a)];
            &&& rows[2] == "answer         yes"@ <==> a is Yes
            &&& rows[2] == "answer         no"@ <==> a is No
            &&& rows[2] == "answer         timeout"@ <==> a is Timeout
            &&& rows[2] == "answer         failed"@ <==> a is Failed
            &&& out[15] == '1' <==> a is Yes
            &&& out[15] == '0' <==> a is No
            &&& out == "outcome        1 strategy found"@ <==> a is Yes
            &&& out == "outcome        0 strategy not found"@ <==> a is No
            &&& out == "outcome        - timed out, no answer"@ <==> a is Timeout
            &&& out == "outcome        - failed, no answer"@ <==> a is Failed
        }),
{
    words_written(a);
    words_differ();
    reveal_strlit("outcome        - timed out, no answer");
    reveal_strlit("outcome        - failed, no answer");
    assert("outcome        - timed out, no answer"@[17] == 't');
    assert("outcome        - failed, no answer"@[17] == 'f');
    let head = answer_rows(t, threshold, a, s, seconds);
    let rows = head + strategy_rows(a, print_size, print_strategy);
    assert(head.len() == outcome_row(a) + 1);
    assert(rows[2] == "answer         "@ + answer_word(a));
    assert(rows[outcome_row(a)] == "outcome        "@ + outcome_word(a));
}

/// A page carries the instance, the budget, the reason of a failure, the seconds
/// and the counts of the search, each on the row of its key.
pub proof fn counts_are_told<N: Number>(
    t: &Tree<N>,
    threshold: Seq<N::Value>,
    a: Answer,
    s: Stats,
    seconds: Seq<char>,
)
    ensures
        ({
            let rows = answer_rows(t, threshold, a, s, seconds);
            let o = outcome_row(a);
            &&& rows.len() == o + 1
            &&& rows[0] == "instance       "@ + t.meta.key@
            &&& rows[1] == "B              "@ + vec_text::<N>(threshold)
            &&& a matches Answer::Failed(e) ==> rows[3] == "reason         "@ + e@
            &&& rows[o - 7] == "seconds        "@ + seconds
            &&& rows[o - 6] == "expanded       "@ + decimal(s.expanded as nat)
            &&& rows[o - 5] == "choice states  "@ + decimal(s.choice_states as nat)
            &&& rows[o - 4] == "histories      "@ + decimal(s.histories as nat)
            &&& rows[o - 3] == "macro steps    "@ + decimal(s.macro_steps as nat)
            &&& rows[o - 2] == "step outcomes  "@ + decimal(s.outcomes as nat)
            &&& rows[o - 1] == "peak open      "@ + decimal(s.peak_open as nat)
        }),
{
}

proof fn decisions_listed(d: Seq<(Vec<u32>, u32)>, n: int)
    requires
        0 <= n,
    ensures
        decision_rows(d, n).len() == n,
        forall|i: int|
            0 <= i < n ==> #[trigger] decision_rows(d, n)[i] == "  after "@ + (trail_text(d[i].0@)
                + " take "@ + decimal(d[i].1 as nat)),
    decreases n,
{
    if n > 0 {
        decisions_listed(d, n - 1);
    }
}

/// A strategy is told where it was found and asked for, and nowhere else: its
/// size in three rows, and one row for each of its decisions, in their order,
/// the history it is taken after and the child it takes.
pub proof fn strategies_are_told(a: Answer, print_size: bool, print_strategy: bool)
    ensures
        ({
            let rows = strategy_rows(a, print_size, print_strategy);
            match a {
                Answer::Yes(s) => {
                    let n = s.decisions@.len();
                    &&& rows.len() == if print_strategy {
                        4 + n
                    } else if print_size {
                        3
                    } else {
                        0nat
                    }
                    &&& print_size || print_strategy ==> {
                        &&& rows[0] == "histories won  "@ + decimal(s.histories as nat)
                        &&& rows[1] == "open won       "@ + decimal(s.frontier_size as nat)
                        &&& rows[2] == "decisions won  "@ + decimal(n)
                    }
                    &&& print_strategy ==> {
                        &&& rows[3] == "decisions      "@ + decimal(n)
                        &&& forall|i: int|
                            0 <= i < n ==> #[trigger] rows[4 + i] == "  after "@ + (trail_text(
                                s.decisions@[i].0@,
                            ) + " take "@ + decimal(s.decisions@[i].1 as nat))
                    }
                },
                _ => rows.len() == 0,
            }
        }),
{
    if a is Yes {
        let s = a->Yes_0;
        let n = s.decisions@.len() as int;
        decisions_listed(s.decisions@, n);
        if print_strategy {
            let rows = strategy_rows(a, print_size, print_strategy);
            let d = decision_rows(s.decisions@, n);
            assert forall|i: int| 0 <= i < n implies #[trigger] rows[4 + i] == "  after "@ + (trail_text(
                s.decisions@[i].0@,
            ) + " take "@ + decimal(s.decisions@[i].1 as nat)) by {
                assert(rows[4 + i] == d[i]);
            }
        }
    }
}

// ---------------------------------------------------------------------------
// the other pages
// ---------------------------------------------------------------------------

/// How many of the nodes from one to `n` are of a kind.
pub open spec fn kind_count(g: Seq<Vertex>, k: Kind, n: int) -> nat
    decreases n,
{
    if n <= 0 {
        0
    } else {
        kind_count(g, k, n - 1) + if g[n].kind == k {
            1nat
        } else {
            0
        }
    }
}

/// How many of these identifiers are choices.
spec fn choices_in(g: Seq<Vertex>, ids: Seq<u32>, n: int) -> nat
    decreases n,
{
    if n <= 0 {
        0
    } else {
        choices_in(g, ids, n - 1) + if g[ids[n - 1] as int].kind == Kind::Choice {
            1nat
        } else {
            0
        }
    }
}

proof fn choices_prefix(g: Seq<Vertex>, a: Seq<u32>, b: Seq<u32>, n: int)
    requires
        n <= a.len(),
        n <= b.len(),
        forall|i: int| 0 <= i < n ==> a[i] == b[i],
    ensures
        choices_in(g, a, n) == choices_in(g, b, n),
    decreases n,
{
    if n > 0 {
        choices_prefix(g, a, b, n - 1);
    }
}

proof fn choices_counted(g: Seq<Vertex>, n: int)
    requires
        n <= u32::MAX,
    ensures
        n >= 0 ==> xor_ids(g, n).len() == kind_count(g, Kind::Choice, n) + kind_count(
            g,
            Kind::Nature,
            n,
        ),
        n >= 0 ==> choices_in(g, xor_ids(g, n), xor_ids(g, n).len() as int) == kind_count(
            g,
            Kind::Choice,
            n,
        ),
    decreases n,
{
    if n > 0 {
        choices_counted(g, n - 1);
        let (a, b) = (xor_ids(g, n - 1), xor_ids(g, n));
        choices_prefix(g, a, b, a.len() as int);
    }
}

proof fn choices_same<N: Number>(t: &Tree<N>, n: int)
    requires
        t.wf(),
        n <= t.xors@.len(),
    ensures
        choices_v(t, n) == choices_in(t.net().nodes, t.xors@, n),
    decreases n,
{
    if n > 0 {
        xor_ids_range(t.net().nodes, t.n_nodes as int);
        choices_same(t, n - 1);
        let u = t.xors@[n - 1] as int;
        assert(t.net().nodes[u] == t.nodes@[u].vertex());
    }
}

/// The page on a file counts its nodes: the choices and the nature nodes are
/// those of the tree, and together they are its exclusive nodes.
pub proof fn kinds_are_counted<N: Number>(t: &Tree<N>, path: Seq<char>)
    requires
        t.wf(),
    ensures
        ({
            let rows = info_rows(t, path);
            let n = t.n_nodes as int;
            let g = t.net().nodes;
            let choices = kind_count(g, Kind::Choice, n);
            let natures = kind_count(g, Kind::Nature, n);
            &&& rows.len() == 12
            &&& rows[0] == "instance      "@ + t.meta.key@
            &&& rows[1] == "path          "@ + path
            &&& rows[2] == "grid          nested "@ + (decimal(t.meta.nested as nat)
                + " independent "@ + decimal(t.meta.independent as nat) + " number "@ + decimal(
                t.meta.process_number as nat,
            ))
            &&& rows[3] == "dimensions    "@ + decimal(t.k as nat)
            &&& rows[4] == "mode          "@ + t.meta.mode@
            &&& rows[5] == "tasks         "@ + decimal(t.n_tasks as nat)
            &&& rows[6] == "nodes         "@ + decimal(t.n_nodes as nat)
            &&& rows[7] == "xor nodes     "@ + decimal(choices + natures)
            &&& rows[8] == "  choice      "@ + decimal(choices)
            &&& rows[9] == "  nature      "@ + decimal(natures)
            &&& rows[10] == "max duration  "@ + decimal(t.meta.max_duration as nat)
            &&& rows[11] == "total impact  "@ + vec_text::<N>(t.total_v(t.n_tasks as int))
        }),
{
    choices_counted(t.net().nodes, t.n_nodes as int);
    choices_same(t, t.xors@.len() as int);
}

proof fn components_listed<N: Number>(o: Optima<N>, n: int)
    requires
        0 <= n,
    ensures
        component_rows(o, n).len() == n,
        forall|c: int|
            0 <= c < n ==> #[trigger] component_rows(o, n)[c] == "component "@ + (decimal(c as nat)
                + "  min "@ + N::power_v(o.min@[c].value()) + "  max "@ + N::power_v(
                o.max@[c].value(),
            )),
    decreases n,
{
    if n > 0 {
        components_listed(o, n - 1);
    }
}

/// The page of the optima has one row for each component, in their order, with
/// the least value under `min` and the greatest under `max`.
pub proof fn optima_are_told<N: Number>(t: &Tree<N>, states: usize, seconds: Seq<char>, o: Optima<N>)
    ensures
        ({
            let rows = optima_rows(t, states, seconds, o);
            &&& rows.len() == 3 + t.k
            &&& rows[0] == "instance      "@ + t.meta.key@
            &&& rows[1] == "choice states "@ + decimal(states as nat)
            &&& rows[2] == "seconds       "@ + seconds
            &&& forall|c: int|
                0 <= c < t.k ==> #[trigger] rows[3 + c] == "component "@ + (decimal(c as nat)
                    + "  min "@ + N::power_v(o.min@[c].value()) + "  max "@ + N::power_v(
                    o.max@[c].value(),
                ))
        }),
{
    components_listed(o, t.k as int);
    let rows = optima_rows(t, states, seconds, o);
    assert forall|c: int| 0 <= c < t.k implies #[trigger] rows[3 + c] == "component "@ + (decimal(
        c as nat,
    ) + "  min "@ + N::power_v(o.min@[c].value()) + "  max "@ + N::power_v(o.max@[c].value())) by {
        assert(rows[3 + c] == component_rows(o, t.k as int)[c]);
    }
}

/// The page of the estimates puts the upper one under `U` and the lower one
/// under `L`, the sums at the root under `E` and `L`, and what the exact pass
/// found under `min` and `max`.
pub proof fn estimates_are_told<N: Number>(
    t: &Tree<N>,
    upper: Seq<N::Value>,
    lower: Seq<N::Value>,
    histories: usize,
    found: Result<Optima<N>, ExactError>,
)
    ensures
        ({
            let (a, b, c) = (
                bound_rows(t, upper, lower),
                root_rows::<N>(upper, lower, histories),
                exact_rows(found),
            );
            &&& a.len() == 3 && b.len() == 3
            &&& a[0] == "instance   "@ + t.meta.key@
            &&& a[1] == "U at s0    "@ + vec_text::<N>(upper)
            &&& a[2] == "L at s0    "@ + vec_text::<N>(lower)
            &&& b[0] == "root E     "@ + vec_text::<N>(upper)
            &&& b[1] == "root L     "@ + vec_text::<N>(lower)
            &&& b[2] == "root size  "@ + (decimal(histories as nat) + " histories"@)
            &&& found matches Ok(o) ==> {
                &&& c.len() == 2
                &&& c[0] == "exact min  "@ + vec_text::<N>(vals(o.min@))
                &&& c[1] == "exact max  "@ + vec_text::<N>(vals(o.max@))
            }
            &&& found is Err ==> c.len() == 1
        }),
{
}

/// An error is told by its name and the number it carries, a step's inside that
/// of the pass.
pub proof fn errors_are_told<N: Number>(n: usize)
    ensures
        error_text(StepError::TooManyOutcomes(n)) == "TooManyOutcomes("@ + decimal(n as nat) + ")"@,
        exact_error_text(ExactError::TooManyStates(n)) == "TooManyStates("@ + decimal(n as nat) + ")"@,
        exact_error_text(ExactError::Step(StepError::TooManyOutcomes(n))) == "Step(TooManyOutcomes("@
            + decimal(n as nat) + "))"@,
        exact_rows::<N>(Err(ExactError::TooManyStates(n)))[0] == "exact      unavailable: TooManyStates("@
            + decimal(n as nat) + ")"@,
{
    reveal_strlit("Step(");
    reveal_strlit(")");
    reveal_strlit("))");
    reveal_strlit("TooManyOutcomes(");
    reveal_strlit("Step(TooManyOutcomes(");
    reveal_strlit("TooManyStates(");
    reveal_strlit("exact      unavailable: ");
    reveal_strlit("exact      unavailable: TooManyStates(");
    let d = decimal(n as nat);
    assert("Step("@ + ("TooManyOutcomes("@ + d + ")"@) + ")"@ =~= "Step(TooManyOutcomes("@ + d + "))"@);
    assert("exact      unavailable: "@ + ("TooManyStates("@ + d + ")"@)
        =~= "exact      unavailable: TooManyStates("@ + d + ")"@);
}

} // verus!
