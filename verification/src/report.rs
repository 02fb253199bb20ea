//! What the commands print: plain `key value` lines, one per row.

use vstd::prelude::*;
use vstd::string::*;
use crate::bound::Bounds;
use crate::exact::{ExactError, Optima};
use crate::num::{vals, Number};
use crate::search::{error_text, show_error, Answer, Stats};
use crate::text::{cat2, cat3, cat5, decimal, decimal_of, join, joined, texts};
use crate::tree::{xor_ids_range, Kind, Tree};
use crate::writer::{lined, unlines};

verus! {

/// The lines of a page.
pub struct Page {
    pub lines: Vec<String>,
}

impl Page {
    pub open spec fn rows(self) -> Seq<Seq<char>> {
        texts(self.lines@)
    }

    fn new() -> (r: Page)
        ensures
            r.rows() == Seq::<Seq<char>>::empty(),
    {
        let r = Page { lines: Vec::new() };
        assert(r.rows() =~= Seq::<Seq<char>>::empty());
        r
    }

    fn put(&mut self, key: &str, value: &str)
        ensures
            final(self).rows() == old(self).rows().push(key@ + value@),
    {
        self.lines.push(cat2(key, value));
        assert(self.rows() =~= old(self).rows().push(key@ + value@));
    }

    fn put_number(&mut self, key: &str, n: u128)
        ensures
            final(self).rows() == old(self).rows().push(key@ + decimal(n as nat)),
    {
        self.put(key, decimal_of(n).as_str());
    }

    /// The page, each line with a line feed after it.
    pub fn show(&self) -> (r: String)
        ensures
            r@ == unlines(self.rows()),
    {
        lined(&self.lines)
    }
}

/// A vector between brackets, six digits after the point.
pub open spec fn vec_text<N: Number>(v: Seq<N::Value>) -> Seq<char> {
    "["@ + joined(Seq::new(v.len(), |i: int| N::fixed_v(v[i], 6)), ", "@) + "]"@
}

/// A vector between brackets, six digits after the point.
pub fn fmt_vec<N: Number>(v: &Vec<N>) -> (r: String)
    ensures
        r@ == vec_text::<N>(vals(v@)),
{
    let ghost want = Seq::new(v@.len(), |i: int| N::fixed_v(vals(v@)[i], 6));
    let mut parts: Vec<String> = Vec::new();
    for i in 0..v.len()
        invariant
            want == Seq::new(v@.len(), |i: int| N::fixed_v(vals(v@)[i], 6)),
            texts(parts@) =~= want.take(i as int),
            parts@.len() == i,
    {
        let s = v[i].fixed(6);
        assert(want[i as int] == s@);
        parts.push(s);
    }
    assert(texts(parts@) =~= want);
    cat3("[", join(&parts, ", ").as_str(), "]")
}

/// How many of these nodes are choices.
pub open spec fn choices_v<N: Number>(t: &Tree<N>, n: int) -> nat
    decreases n,
{
    if n <= 0 {
        0
    } else if t.nodes@[t.xors@[n - 1] as int].kind == Kind::Choice {
        choices_v(t, n - 1) + 1
    } else {
        choices_v(t, n - 1)
    }
}

/// The numbers of the choices and of the nature nodes.
pub fn count_xors<N: Number>(tree: &Tree<N>) -> (r: (usize, usize))
    requires
        tree.wf(),
    ensures
        r.0 == choices_v(tree, tree.xors@.len() as int),
        r.0 + r.1 == tree.xors@.len(),
{
    proof {
        xor_ids_range(tree.net().nodes, tree.n_nodes as int);
    }
    let mut choices: usize = 0;
    for i in 0..tree.xors.len()
        invariant
            tree.wf(),
            forall|j: int|
                0 <= j < tree.xors@.len() ==> 1 <= #[trigger] tree.xors@[j] <= tree.n_nodes,
            choices == choices_v(tree, i as int),
            choices <= i,
    {
        if tree.kind(tree.xors[i]) == Kind::Choice {
            choices = choices + 1;
        }
    }
    (choices, tree.xors.len() - choices)
}

/// What a file holds.
pub open spec fn info_rows<N: Number>(t: &Tree<N>, path: Seq<char>) -> Seq<Seq<char>> {
    let m = t.meta;
    let choices = choices_v(t, t.xors@.len() as int);
    seq![
        "instance      "@ + m.key@,
        "path          "@ + path,
        "grid          nested "@ + (decimal(m.nested as nat) + " independent "@ + decimal(
            m.independent as nat,
        ) + " number "@ + decimal(m.process_number as nat)),
        "dimensions    "@ + decimal(t.k as nat),
        "mode          "@ + m.mode@,
        "tasks         "@ + decimal(t.n_tasks as nat),
        "nodes         "@ + decimal(t.n_nodes as nat),
        "xor nodes     "@ + decimal(t.xors@.len()),
        "  choice      "@ + decimal(choices),
        "  nature      "@ + decimal((t.xors@.len() - choices) as nat),
        "max duration  "@ + decimal(m.max_duration as nat),
        "total impact  "@ + vec_text::<N>(t.total_v(t.tasks@.len() as int)),
    ]
}

/// What a file holds: sizes, counts.
pub fn info<N: Number>(tree: &Tree<N>, path: &str) -> (r: Page)
    requires
        tree.wf(),
    ensures
        r.rows() == info_rows(tree, path@),
{
    let m = &tree.meta;
    let (choices, natures) = count_xors(tree);
    let grid = cat5(
        decimal_of(m.nested as u128).as_str(),
        " independent ",
        decimal_of(m.independent as u128).as_str(),
        " number ",
        decimal_of(m.process_number as u128).as_str(),
    );
    let total = tree.total_impact();
    let mut p = Page::new();
    p.put("instance      ", m.key.as_str());
    p.put("path          ", path);
    p.put("grid          nested ", grid.as_str());
    p.put_number("dimensions    ", tree.k as u128);
    p.put("mode          ", m.mode.as_str());
    p.put_number("tasks         ", tree.n_tasks as u128);
    p.put_number("nodes         ", tree.n_nodes as u128);
    p.put_number("xor nodes     ", tree.xors.len() as u128);
    p.put_number("  choice      ", choices as u128);
    p.put_number("  nature      ", natures as u128);
    p.put_number("max duration  ", m.max_duration as u128);
    p.put("total impact  ", fmt_vec(&total).as_str());
    p
}

pub open spec fn answer_word(a: Answer) -> Seq<char> {
    match a {
        Answer::Yes(_) => "yes"@,
        Answer::No => "no"@,
        Answer::Timeout => "timeout"@,
        Answer::Failed(_) => "failed"@,
    }
}

/// The outcome on its own line, so that a caller reads one number and not
/// prose. A run that timed out or failed has no answer.
pub open spec fn outcome_word(a: Answer) -> Seq<char> {
    match a {
        Answer::Yes(_) => "1 strategy found"@,
        Answer::No => "0 strategy not found"@,
        Answer::Timeout => "- timed out, no answer"@,
        Answer::Failed(_) => "- failed, no answer"@,
    }
}

/// A decision history between brackets.
pub open spec fn trail_text(dh: Seq<u32>) -> Seq<char> {
    "["@ + joined(Seq::new(dh.len(), |i: int| decimal(dh[i] as nat)), ", "@) + "]"@
}

fn show_trail(dh: &Vec<u32>) -> (r: String)
    ensures
        r@ == trail_text(dh@),
{
    let ghost want = Seq::new(dh@.len(), |i: int| decimal(dh@[i] as nat));
    let mut parts: Vec<String> = Vec::new();
    for i in 0..dh.len()
        invariant
            want == Seq::new(dh@.len(), |i: int| decimal(dh@[i] as nat)),
            texts(parts@) =~= want.take(i as int),
            parts@.len() == i,
    {
        let s = decimal_of(dh[i] as u128);
        assert(want[i as int] == s@);
        parts.push(s);
    }
    assert(texts(parts@) =~= want);
    cat3("[", join(&parts, ", ").as_str(), "]")
}

/// The first `n` decisions of a strategy.
pub open spec fn decision_rows(d: Seq<(Vec<u32>, u32)>, n: int) -> Seq<Seq<char>>
    decreases n,
{
    if n <= 0 {
        Seq::empty()
    } else {
        decision_rows(d, n - 1).push(
            "  after "@ + (trail_text(d[n - 1].0@) + " take "@ + decimal(d[n - 1].1 as nat)),
        )
    }
}

/// What a search reports, the seconds it took being `seconds`.
pub open spec fn answer_rows<N: Number>(
    t: &Tree<N>,
    threshold: Seq<N::Value>,
    a: Answer,
    s: Stats,
    seconds: Seq<char>,
) -> Seq<Seq<char>> {
    let head = seq![
        "instance       "@ + t.meta.key@,
        "B              "@ + vec_text::<N>(threshold),
        "answer         "@ + answer_word(a),
    ];
    let told = match a {
        Answer::Failed(e) => head.push("reason         "@ + e@),
        _ => head,
    };
    told.push("seconds        "@ + seconds).push("expanded       "@ + decimal(s.expanded as nat)).push(
        "choice states  "@ + decimal(s.choice_states as nat),
    ).push("histories      "@ + decimal(s.histories as nat)).push(
        "macro steps    "@ + decimal(s.macro_steps as nat),
    ).push("step outcomes  "@ + decimal(s.outcomes as nat)).push(
        "peak open      "@ + decimal(s.peak_open as nat),
    ).push("outcome        "@ + outcome_word(a))
}

/// What a search reports of the strategy it found: how large it is, and its
/// decisions.
pub open spec fn strategy_rows(a: Answer, print_size: bool, print_strategy: bool) -> Seq<Seq<char>> {
    match a {
        Answer::Yes(s) => {
            let n = s.decisions@.len();
            let size = if print_size || print_strategy {
                seq![
                    "histories won  "@ + decimal(s.histories as nat),
                    "open won       "@ + decimal(s.frontier_size as nat),
                    "decisions won  "@ + decimal(n),
                ]
            } else {
                Seq::empty()
            };
            if print_strategy {
                size.push("decisions      "@ + decimal(n)) + decision_rows(s.decisions@, n as int)
            } else {
                size
            }
        },
        _ => Seq::empty(),
    }
}

fn strategy_page(a: &Answer, print_size: bool, print_strategy: bool) -> (r: Page)
    ensures
        r.rows() == strategy_rows(*a, print_size, print_strategy),
{
    let mut p = Page::new();
    if let Answer::Yes(s) = a {
        if print_size || print_strategy {
            p.put_number("histories won  ", s.histories as u128);
            p.put_number("open won       ", s.frontier_size as u128);
            p.put_number("decisions won  ", s.decisions.len() as u128);
        }
        if print_strategy {
            p.put_number("decisions      ", s.decisions.len() as u128);
            let ghost start = p.rows();
            assert(start + decision_rows(s.decisions@, 0) =~= start);
            for i in 0..s.decisions.len()
                invariant
                    p.rows() == start + decision_rows(s.decisions@, i as int),
            {
                let d = &s.decisions[i];
                let value = cat3(
                    show_trail(&d.0).as_str(),
                    " take ",
                    decimal_of(d.1 as u128).as_str(),
                );
                p.put("  after ", value.as_str());
                assert(p.rows() =~= start + decision_rows(s.decisions@, i + 1));
            }
        }
    }
    p
}

/// What a search reports.
pub fn answer<N: Number>(
    tree: &Tree<N>,
    threshold: &Vec<N>,
    a: &Answer,
    s: &Stats,
    seconds: &str,
    print_size: bool,
    print_strategy: bool,
) -> (r: Page)
    ensures
        r.rows() == answer_rows(tree, vals(threshold@), *a, *s, seconds@) + strategy_rows(
            *a,
            print_size,
            print_strategy,
        ),
{
    let mut p = Page::new();
    p.put("instance       ", tree.meta.key.as_str());
    p.put("B              ", fmt_vec(threshold).as_str());
    p.put(
        "answer         ",
        match a {
            Answer::Yes(_) => "yes",
            Answer::No => "no",
            Answer::Timeout => "timeout",
            Answer::Failed(_) => "failed",
        },
    );
    if let Answer::Failed(e) = a {
        p.put("reason         ", e.as_str());
    }
    p.put("seconds        ", seconds);
    p.put_number("expanded       ", s.expanded as u128);
    p.put_number("choice states  ", s.choice_states as u128);
    p.put_number("histories      ", s.histories as u128);
    p.put_number("macro steps    ", s.macro_steps as u128);
    p.put_number("step outcomes  ", s.outcomes as u128);
    p.put_number("peak open      ", s.peak_open as u128);
    p.put(
        "outcome        ",
        match a {
            Answer::Yes(_) => "1 strategy found",
            Answer::No => "0 strategy not found",
            Answer::Timeout => "- timed out, no answer",
            Answer::Failed(_) => "- failed, no answer",
        },
    );
    let mut rest = strategy_page(a, print_size, print_strategy);
    let ghost head = p.rows();
    let ghost tail = rest.rows();
    p.lines.append(&mut rest.lines);
    assert(p.rows() =~= head + tail);
    p
}

/// The exit code of a search: zero on an answer either way.
pub fn exit_code(a: &Answer) -> (r: i32)
    ensures
        r == if a is Failed { 1i32 } else { 0i32 },
{
    match a {
        Answer::Failed(_) => 1,
        _ => 0,
    }
}

/// The name of an error of an exact pass.
pub open spec fn exact_error_text(e: ExactError) -> Seq<char> {
    match e {
        ExactError::Step(s) => "Step("@ + error_text(s) + ")"@,
        ExactError::TooManyStates(n) => "TooManyStates("@ + decimal(n as nat) + ")"@,
    }
}

/// The name of an error of an exact pass.
pub fn show_exact_error(e: ExactError) -> (r: String)
    ensures
        r@ == exact_error_text(e),
{
    match e {
        ExactError::Step(s) => cat3("Step(", show_error(s).as_str(), ")"),
        ExactError::TooManyStates(n) => cat3("TooManyStates(", decimal_of(n as u128).as_str(), ")"),
    }
}

/// The first `n` components of the optima, each number in its shortest form.
pub open spec fn component_rows<N: Number>(o: Optima<N>, n: int) -> Seq<Seq<char>>
    decreases n,
{
    if n <= 0 {
        Seq::empty()
    } else {
        component_rows(o, n - 1).push(
            "component "@ + (decimal((n - 1) as nat) + "  min "@ + N::power_v(o.min@[n - 1].value())
                + "  max "@ + N::power_v(o.max@[n - 1].value())),
        )
    }
}

/// What an exact pass reports.
pub open spec fn optima_rows<N: Number>(
    t: &Tree<N>,
    states: usize,
    seconds: Seq<char>,
    o: Optima<N>,
) -> Seq<Seq<char>> {
    seq![
        "instance      "@ + t.meta.key@,
        "choice states "@ + decimal(states as nat),
        "seconds       "@ + seconds,
    ] + component_rows(o, t.k as int)
}

/// What an exact pass reports.
pub fn optima<N: Number>(tree: &Tree<N>, states: usize, seconds: &str, o: &Optima<N>) -> (r: Page)
    requires
        o.min@.len() == tree.k,
        o.max@.len() == tree.k,
    ensures
        r.rows() == optima_rows(tree, states, seconds@, *o),
{
    let mut p = Page::new();
    p.put("instance      ", tree.meta.key.as_str());
    p.put_number("choice states ", states as u128);
    p.put("seconds       ", seconds);
    let ghost start = p.rows();
    assert(start + component_rows(*o, 0) =~= start);
    for c in 0..tree.k
        invariant
            o.min@.len() == tree.k,
            o.max@.len() == tree.k,
            p.rows() == start + component_rows(*o, c as int),
    {
        let value = cat5(
            decimal_of(c as u128).as_str(),
            "  min ",
            o.min[c].power().as_str(),
            "  max ",
            o.max[c].power().as_str(),
        );
        p.put("component ", value.as_str());
        assert(p.rows() =~= start + component_rows(*o, c + 1));
    }
    p
}

/// The two estimates at the start.
pub open spec fn bound_rows<N: Number>(
    t: &Tree<N>,
    upper: Seq<N::Value>,
    lower: Seq<N::Value>,
) -> Seq<Seq<char>> {
    seq![
        "instance   "@ + t.meta.key@,
        "U at s0    "@ + vec_text::<N>(upper),
        "L at s0    "@ + vec_text::<N>(lower),
    ]
}

/// The two estimates at the start.
pub fn bound<N: Number>(tree: &Tree<N>, b: &Bounds<N>) -> (r: Page)
    ensures
        r.rows() == bound_rows(tree, vals(b.upper@), vals(b.lower@)),
{
    let mut p = Page::new();
    p.put("instance   ", tree.meta.key.as_str());
    p.put("U at s0    ", fmt_vec(&b.upper).as_str());
    p.put("L at s0    ", fmt_vec(&b.lower).as_str());
    p
}

/// The two sums at the root, over so many histories.
pub open spec fn root_rows<N: Number>(
    upper: Seq<N::Value>,
    lower: Seq<N::Value>,
    histories: usize,
) -> Seq<Seq<char>> {
    seq![
        "root E     "@ + vec_text::<N>(upper),
        "root L     "@ + vec_text::<N>(lower),
        "root size  "@ + (decimal(histories as nat) + " histories"@),
    ]
}

/// The two sums at the root, over so many histories.
pub fn root<N: Number>(upper: &Vec<N>, lower: &Vec<N>, histories: usize) -> (r: Page)
    ensures
        r.rows() == root_rows::<N>(vals(upper@), vals(lower@), histories),
{
    let mut p = Page::new();
    p.put("root E     ", fmt_vec(upper).as_str());
    p.put("root L     ", fmt_vec(lower).as_str());
    p.put("root size  ", cat2(decimal_of(histories as u128).as_str(), " histories").as_str());
    p
}

/// What the exact pass adds to the estimates.
pub open spec fn exact_rows<N: Number>(r: Result<Optima<N>, ExactError>) -> Seq<Seq<char>> {
    match r {
        Ok(o) => seq![
            "exact min  "@ + vec_text::<N>(vals(o.min@)),
            "exact max  "@ + vec_text::<N>(vals(o.max@)),
        ],
        Err(e) => seq!["exact      unavailable: "@ + exact_error_text(e)],
    }
}

/// What the exact pass adds to the estimates.
pub fn exact<N: Number>(found: Result<Optima<N>, ExactError>) -> (r: Page)
    ensures
        r.rows() == exact_rows(found),
{
    let mut p = Page::new();
    match found {
        Ok(o) => {
            p.put("exact min  ", fmt_vec(&o.min).as_str());
            p.put("exact max  ", fmt_vec(&o.max).as_str());
        },
        Err(e) => {
            p.put("exact      unavailable: ", show_exact_error(e).as_str());
        },
    }
    p
}

} // verus!
