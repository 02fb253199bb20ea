//! The decision problem: bounds, optima, the search, the oracle.

use sdcpi::achievable::{achievable, meets, pareto, BruteError};
use sdcpi::bench::{Bench, Call};
use sdcpi::bound::{bounds, Bounds};
use sdcpi::config::{leq, Ablation, Config, Selection, Steal};
use sdcpi::ct::{resolve, CtNode, SigmaNode};
use sdcpi::decimal::Decimal;
use sdcpi::exact::{optima, tightness, ExactError};
use sdcpi::label::Frontier;
use sdcpi::num::Number;
use sdcpi::report::{
    answer, bound, exact, exit_code, fmt_vec, info, optima as optima_page, root, show_exact_error,
};
use sdcpi::search::{clock_due, search, shards_for, show_error, time_up, Answer, Stats, Worker};
use sdcpi::state::{Engine, StepError, Stop, DONE, IDLE};
use sdcpi::tables::{Branch, Store};
use sdcpi::tree::Tree;
use sdcpi::writer::to_yaml;
use std::sync::Arc;

/// Rounded numbers.
#[derive(Clone, Copy, Debug, PartialEq)]
struct F(f64);

impl Number for F {
    type Value = f64;

    fn zero() -> F {
        F(0.0)
    }
    fn one() -> F {
        F(1.0)
    }
    fn dup(&self) -> F {
        *self
    }
    fn plus(&self, other: &F) -> F {
        F(self.0 + other.0)
    }
    fn minus(&self, other: &F) -> F {
        F(self.0 - other.0)
    }
    fn times(&self, other: &F) -> F {
        F(self.0 * other.0)
    }
    fn max(&self, other: &F) -> F {
        F(self.0.max(other.0))
    }
    fn min(&self, other: &F) -> F {
        F(self.0.min(other.0))
    }
    fn abs(&self) -> F {
        F(self.0.abs())
    }
    fn le(&self, other: &F) -> bool {
        self.0 <= other.0
    }
    fn lt(&self, other: &F) -> bool {
        self.0 < other.0
    }
    fn unit(n: u64) -> F {
        F(n as f64 / (1u64 << 53) as f64)
    }
    fn integral(&self) -> Option<i64> {
        if self.0.fract() == 0.0 {
            Some(self.0 as i64)
        } else {
            None
        }
    }
    fn read(text: &str) -> Option<F> {
        text.parse().ok().map(F)
    }
    fn show(&self) -> String {
        format!("{}", self.0)
    }
    fn fixed(&self, digits: usize) -> String {
        format!("{:.*}", digits, self.0)
    }
    fn scientific(&self, digits: usize) -> String {
        format!("{:.*e}", digits, self.0)
    }
    fn power(&self) -> String {
        format!("{:e}", self.0)
    }
}

/// A choice between two tasks, after a draw between two others.
const LATE: &str = "((C,1,{x:1}) ^[0.5] (D,1,{y:2})), ((A,1,{x:1,y:4}) ^ (B,2,{x:3,y:1}))";

/// The same choice before the draw.
const EARLY: &str = "((A,1,{x:1,y:4}) ^ (B,2,{x:3,y:1})), ((C,1,{x:1}) ^[0.5] (D,1,{y:2}))";

fn tree<N: Number>(process: &str) -> Tree<N> {
    let yaml = match to_yaml::<N>(process) {
        Ok(p) => p.yaml,
        Err(e) => panic!("{e}"),
    };
    match Tree::parse(&yaml) {
        Ok(t) => t,
        Err(e) => panic!("{}", e.show()),
    }
}

fn tiny<N: Number>() -> Tree<N> {
    tree("(T1,2,{a:0.940423,b:0.17498}) ^[0.317537] (T2,1,{a:0.830795,b:0.799341})")
}

fn num<N: Number>(text: &str) -> N {
    match N::read(text) {
        Some(x) => x,
        None => panic!("no number"),
    }
}

fn config<N: Number>(b: &[&str]) -> Config<N> {
    Config {
        threshold: b.iter().map(|t| num(t)).collect(),
        record_strategy: true,
        steal: Steal::Ring,
        epsilon: N::zero(),
        workers: 1,
        ablation: Ablation::Both,
        selection: Selection::Weighted,
        seed: 20260816,
        timeout: None,
    }
}

fn decided<N: Number>(t: &Tree<N>, cfg: Config<N>) -> &'static str {
    match search(t, cfg).0 {
        Answer::Yes(_) => "yes",
        Answer::No => "no",
        Answer::Timeout => "timeout",
        Answer::Failed(_) => "failed",
    }
}

fn shown<N: Number>(v: &[N]) -> Vec<String> {
    v.iter().map(|x| x.show()).collect()
}

#[test]
fn tiny_has_one_value() {
    // 0.317537 * 0.940423 + 0.682463 * 0.830795 and the same of the second component
    let t = tiny::<Decimal>();
    let engine = Engine::new(&t);
    let b = bounds(&t, &engine.initial_state());
    assert_eq!(shown(&b.upper), vec!["0.865605946236", "0.601083281143"]);
    assert_eq!(shown(&b.lower), vec!["0.865605946236", "0.601083281143"]);
    assert_eq!(decided(&t, config(&["0.9", "0.7"])), "yes");
    assert_eq!(decided(&t, config(&["0.865605946236", "0.601083281143"])), "yes");
    assert_eq!(decided(&t, config(&["0.865605946235", "0.601083281143"])), "no");
    assert_eq!(decided(&t, config(&["0.9", "0.6"])), "no");
}

#[test]
fn tiny_is_decided_in_floating_point() {
    let t = tiny::<F>();
    assert_eq!(decided(&t, config(&["0.9", "0.7"])), "yes");
    assert_eq!(decided(&t, config(&["0.8", "0.7"])), "no");
}

#[test]
fn strategies_may_react_to_what_happened() {
    let t = tree::<Decimal>(LATE);
    for (b, want) in [
        (["1.5", "5"], "yes"),
        (["3.5", "2"], "yes"),
        (["2.5", "3.5"], "yes"),
        (["2.4", "3.6"], "no"),
        (["1.4", "5"], "no"),
        (["3.5", "1.9"], "no"),
    ] {
        assert_eq!(decided(&t, config(&b)), want);
    }
}

#[test]
fn an_early_choice_cannot_react() {
    let t = tree::<Decimal>(EARLY);
    for (b, want) in [(["1.5", "5"], "yes"), (["3.5", "2"], "yes"), (["2.5", "3.5"], "no")] {
        assert_eq!(decided(&t, config(&b)), want);
    }
}

#[test]
fn every_setting_gives_the_same_answer() {
    let t = tree::<Decimal>(LATE);
    for ablation in [Ablation::Both, Ablation::AcceptOnly, Ablation::RejectOnly, Ablation::Neither] {
        for selection in [Selection::Weighted, Selection::Uniform, Selection::Oldest] {
            for (workers, steal) in [(1, Steal::Ring), (3, Steal::Ring), (3, Steal::Any)] {
                for (b, want) in [(["2.5", "3.5"], "yes"), (["2.4", "3.6"], "no")] {
                    let cfg = Config { ablation, selection, workers, steal, ..config(&b) };
                    assert_eq!(decided(&t, cfg), want);
                }
            }
        }
    }
}

#[test]
fn a_budget_of_another_length_binds_what_it_names() {
    let t = tree::<Decimal>(LATE);
    for ablation in [Ablation::Both, Ablation::AcceptOnly, Ablation::RejectOnly, Ablation::Neither] {
        for workers in [1, 3] {
            let with = |b: &[&str]| decided(&t, Config { ablation, workers, ..config(b) });
            assert_eq!(with(&["1.5"]), "yes");
            assert_eq!(with(&["1.4"]), "no");
            assert_eq!(with(&["2.5", "3.5", "0"]), "yes");
            assert_eq!(with(&["2.4", "3.6", "9"]), "no");
            assert_eq!(with(&[]), "yes");
        }
    }
}

#[test]
fn the_clock_is_read_now_and_then() {
    assert!(clock_due(Some(1), 4096) && clock_due(Some(1), 8192));
    assert!(!clock_due(Some(1), 4095) && !clock_due(Some(1), 1));
    assert!(!clock_due(None, 4096));
    assert!(time_up(Some(5), 5) && time_up(Some(5), 6) && time_up(Some(0), 0));
    assert!(!time_up(Some(5), 4) && !time_up(None, 9));
}

#[test]
fn the_bounds_keep_their_order() {
    let t = tree::<Decimal>(LATE);
    let b = bounds(&t, &Engine::new(&t).initial_state());
    let total = t.total_impact();
    assert_eq!(shown(&total), vec!["5", "7"]);
    for c in 0..t.k {
        assert!(num::<Decimal>("0").le(&b.lower[c]));
        assert!(b.lower[c].lt(&b.upper[c]));
        assert!(b.upper[c].lt(&total[c]));
    }
    // nothing to choose: one bound
    let t = tree::<Decimal>("((A,3,{x:1}) || (B,2,{x:2})), ((C,1,{x:4}) ^[0.5] (D,1,{x:8}))");
    let b = bounds(&t, &Engine::new(&t).initial_state());
    assert_eq!(shown(&b.lower), vec!["9"]);
    assert_eq!(shown(&b.upper), vec!["9"]);
}

#[test]
fn the_bounds_read_phases_alone() {
    let t = tree::<Decimal>("(A,3,{x:1}) || (B,2,{x:2})");
    let mut s = Engine::new(&t).initial_state();
    s[1] = 0;
    s[3] = 0;
    let early = bounds(&t, &s);
    s[1] = 2;
    s[3] = 1;
    let late = bounds(&t, &s);
    assert_eq!(shown(&early.upper), vec!["3"]);
    assert_eq!(shown(&late.upper), vec!["3"]);
    assert_eq!(shown(&early.lower), shown(&late.lower));
    s[3] = DONE;
    assert_eq!(shown(&bounds(&t, &s).upper), vec!["1"]);
}

#[test]
fn a_strategy_is_returned() {
    let t = tree::<Decimal>(LATE);
    let cfg = Config { selection: Selection::Oldest, ablation: Ablation::Neither, ..config(&["2.5", "3.5"]) };
    match search(&t, cfg).0 {
        Answer::Yes(s) => {
            // one decision after each draw, the same child after neither
            assert_eq!(s.decisions.len(), 2);
            assert_eq!(s.histories, 2);
            assert_eq!(s.frontier_size, 0);
            assert!(s.decisions[0].1 != s.decisions[1].1);
            // no history is decided twice
            assert!(s.decisions[0].0 != s.decisions[1].0);
        }
        _ => panic!("no strategy"),
    }
    let cfg = Config { record_strategy: false, ..config(&["9", "9"]) };
    match search(&t, cfg).0 {
        Answer::Yes(s) => assert_eq!(s.decisions.len(), 0),
        _ => panic!("no strategy"),
    }
}

#[test]
fn a_search_repeats() {
    let t = tree::<F>(LATE);
    for selection in [Selection::Weighted, Selection::Uniform, Selection::Oldest] {
        for workers in [1, 3] {
            for seed in [1, 2, 3] {
                let run = || {
                    let cfg = Config {
                        ablation: Ablation::Neither,
                        selection,
                        workers,
                        seed,
                        ..config(&["2.5", "3.5"])
                    };
                    match search(&t, cfg) {
                        (Answer::Yes(s), c) => (
                            s.decisions,
                            (c.expanded, c.peak_open),
                            (c.histories, c.choice_states, c.macro_steps, c.outcomes),
                        ),
                        _ => panic!("no strategy"),
                    }
                };
                assert_eq!(run(), run());
            }
        }
    }
}

#[test]
fn a_slack_lets_a_budget_be_missed_by_little() {
    let t = tiny::<Decimal>();
    let b = ["0.865605946235", "0.601083281143"];
    assert_eq!(decided(&t, config(&b)), "no");
    assert_eq!(decided(&t, Config { epsilon: num("0.000000001"), ..config(&b) }), "yes");
    let (a, b): (Vec<Decimal>, Vec<Decimal>) = (vec![num("1.1")], vec![num("1")]);
    assert!(!leq(&a, &b, &num("0")));
    assert!(leq(&a, &b, &num("0.1")));
    assert!(leq(&b, &a, &num("0")));
}

#[test]
fn a_search_without_time_gives_up() {
    // sixteen choices in a row, and a budget none of their ends is within
    let process = vec!["((A,1,{x:1}) ^ (B,1,{x:1}))"; 16].join(", ");
    let t = tree::<Decimal>(&process);
    let cfg = Config { ablation: Ablation::Neither, timeout: Some(0), ..config(&["15.5"]) };
    let (answer, stats) = search(&t, cfg);
    assert!(matches!(answer, Answer::Timeout));
    // the node the clock was read at is counted
    assert_eq!(stats.expanded, 4096);
    assert_eq!(stats.peak_open, 1);
}

#[test]
fn a_search_without_time_may_end_before_the_clock_is_read() {
    let t = tree::<Decimal>(LATE);
    assert_eq!(decided(&t, Config { timeout: Some(0), ..config(&["2.4", "3.6"]) }), "no");
    assert_eq!(decided(&t, Config { timeout: Some(0), ..config(&["2.5", "3.5"]) }), "yes");
}

#[test]
fn shards_are_a_power_of_two() {
    let want = [(1, 8), (2, 16), (3, 32), (4, 32), (5, 64), (16, 128)];
    for (workers, shards) in want {
        assert_eq!(shards_for(workers), shards);
    }
    assert_eq!(shards_for(usize::MAX), 1 << (usize::BITS - 1));
}

#[test]
fn optima_are_exact() {
    let t = tree::<Decimal>(LATE);
    let mut store = Store::new(&t, 1);
    match optima(&mut store, 1000) {
        Ok(o) => {
            assert_eq!(shown(&o.min), vec!["1.5", "2"]);
            assert_eq!(shown(&o.max), vec!["3.5", "5"]);
        }
        Err(_) => panic!("gave up"),
    }
    let mut store = Store::new(&t, 1);
    match optima(&mut store, 0) {
        Ok(_) => panic!("did not give up"),
        Err(e) => assert!(matches!(e, ExactError::TooManyStates(_))),
    }
}

#[test]
fn an_exact_pass_meets_what_can_be_reached() {
    let t = tree::<Decimal>("((A,1,{c:3}) ^ (B,1,{d:5}))");
    let mut store = Store::new(&t, 1);
    match optima(&mut store, 10) {
        Ok(o) => {
            assert_eq!(shown(&o.min), vec!["0", "0"]);
            assert_eq!(shown(&o.max), vec!["3", "5"]);
        }
        Err(_) => panic!("gave up"),
    }
    assert_eq!(store.cs_made(), 2);
}

#[test]
fn an_exact_pass_gives_up_past_its_cap() {
    for process in [LATE, EARLY] {
        let t = tree::<Decimal>(process);
        let mut store = Store::new(&t, 1);
        assert!(optima(&mut store, 1000).is_ok());
        let made = store.cs_made();
        // a second pass meets nothing new
        assert!(tightness(&mut store, made).is_ok());
        assert_eq!(store.cs_made(), made);
        for cap in 0..made {
            let mut store = Store::new(&t, 1);
            assert!(matches!(optima(&mut store, cap), Err(ExactError::TooManyStates(n)) if n == cap));
            let mut store = Store::new(&t, 1);
            assert!(matches!(tightness(&mut store, cap), Err(ExactError::TooManyStates(n)) if n == cap));
        }
        let mut store = Store::new(&t, 1);
        assert!(optima(&mut store, made).is_ok());
        let mut store = Store::new(&t, 1);
        assert!(tightness(&mut store, made).is_ok());
    }
}

#[test]
fn the_oracle_reports_what_fails_first() {
    let draw = "((C,1,{x:1}) ^[0.5] (D,1,{y:2}))";
    let low = tree::<Decimal>(&format!("({draw} ^ (A,1,{{x:1}}))"));
    let high = tree::<Decimal>(&format!("((A,1,{{x:1}}) ^ {draw})"));
    let mut store = Store::new(&low, 1);
    store.engine.max_outcomes = 1;
    assert!(matches!(
        achievable(&mut store, 0),
        Err(BruteError::Step(StepError::TooManyOutcomes(1)))
    ));
    let mut store = Store::new(&high, 1);
    store.engine.max_outcomes = 1;
    assert!(matches!(achievable(&mut store, 0), Err(BruteError::TooWide(0))));
    let mut store = Store::new(&high, 1);
    store.engine.max_outcomes = 1;
    assert!(matches!(
        achievable(&mut store, 100),
        Err(BruteError::Step(StepError::TooManyOutcomes(1)))
    ));
    let mut store = Store::new(&high, 1);
    assert!(achievable(&mut store, 100).is_ok());
    let made = store.cs_made();
    assert!(optima(&mut store, 100).is_ok());
    assert_eq!(store.cs_made(), made);
}

#[test]
fn the_bounds_enclose_the_optima() {
    let t = tree::<Decimal>(LATE);
    let mut store = Store::new(&t, 4);
    let b = bounds(&t, &store.engine.initial_state());
    match optima(&mut store, 1000) {
        Ok(o) => {
            for c in 0..t.k {
                assert!(b.lower[c].le(&o.min[c]));
                assert!(o.max[c].le(&b.upper[c]));
            }
        }
        Err(_) => panic!("gave up"),
    }
    match tightness(&mut store, 1000) {
        Ok((upper, lower, _)) => {
            assert!(Decimal::zero().le(&upper));
            assert!(Decimal::zero().le(&lower));
        }
        Err(_) => panic!("gave up"),
    }
}

#[test]
fn the_oracle_finds_every_point() {
    let t = tree::<Decimal>(LATE);
    let mut store = Store::new(&t, 1);
    let set = match achievable(&mut store, 100) {
        Ok(s) => s,
        Err(_) => panic!("too wide"),
    };
    let mut points: Vec<Vec<String>> = set.iter().map(|p| shown(p)).collect();
    points.sort();
    assert_eq!(points, vec![vec!["1.5", "5"], vec!["2.5", "3.5"], vec!["3.5", "2"]]);
    assert!(meets(&set, &vec![num("2.5"), num("3.5")]));
    assert!(!meets(&set, &vec![num("2.4"), num("3.6")]));
    let mut store = Store::new(&t, 1);
    assert!(matches!(achievable(&mut store, 1), Err(BruteError::TooWide(_))));
}

#[test]
fn the_search_and_the_oracle_agree() {
    let process = "((A,1,{x:2,y:1}) ^ (B,1,{x:1,y:3})), (((C,2,{x:1}) ^[0.25] (D,1,{y:1})) || ((E,1,{x:4}) ^ (G,3,{y:4})))";
    let t = tree::<Decimal>(process);
    let mut store = Store::new(&t, 1);
    let set = match achievable(&mut store, 1000) {
        Ok(s) => s,
        Err(_) => panic!("too wide"),
    };
    for x in 0..8 {
        for y in 0..9 {
            let b = [format!("{x}"), format!("{y}.75")];
            let words: Vec<&str> = b.iter().map(|s| s.as_str()).collect();
            let want = if meets(&set, &words.iter().map(|w| num(w)).collect()) { "yes" } else { "no" };
            assert_eq!(decided(&t, config(&words)), want);
        }
    }
}

#[test]
fn dominated_points_go() {
    let point = |x: &str, y: &str| vec![num::<Decimal>(x), num::<Decimal>(y)];
    let kept = pareto(vec![point("2", "2"), point("1", "3"), point("2", "3"), point("1", "3"), point("3", "1")]);
    let mut points: Vec<Vec<String>> = kept.iter().map(|p| shown(p)).collect();
    points.sort();
    assert_eq!(points, vec![vec!["1", "3"], vec!["2", "2"], vec!["3", "1"]]);
}

#[test]
fn a_state_runs_to_its_next_choice() {
    let t = tree::<Decimal>(EARLY);
    let engine = Engine::new(&t);
    let s = engine.initial_state();
    assert_eq!(s, vec![IDLE, IDLE, IDLE, IDLE, 0, IDLE, IDLE, IDLE]);
    assert_eq!(engine.rank_witness(&s), Some((2, 4)));
    assert!(!engine.is_final(&s));
    let out = match engine.initial_outcomes() {
        Ok(v) => v,
        Err(_) => panic!("too many"),
    };
    assert_eq!(out.len(), 1);
    assert_eq!(out[0].stop, Stop::Choice(2));
    let after = match engine.step_action(&out[0].state, 1) {
        Ok(v) => v,
        Err(_) => panic!("too many"),
    };
    // the draw after the choice, low first
    assert_eq!(after.len(), 2);
    assert_eq!(after[0].decisions, vec![1, 5]);
    assert_eq!(after[1].decisions, vec![1, 7]);
    assert_eq!(after[0].stop, Stop::Final);
    assert_eq!(shown(&after[0].impact), vec!["2", "4"]);
    assert_eq!(shown(&after[1].impact), vec!["1", "6"]);
    assert_eq!(after[0].prob.show(), "0.5");
    assert_eq!(after[0].state[4], DONE);
}

#[test]
fn too_many_outcomes_are_refused() {
    let t = tree::<Decimal>("(A,1,{x:1}) ^[0.5] (B,1)");
    let mut engine = Engine::new(&t);
    engine.max_outcomes = 1;
    match engine.initial_outcomes() {
        Ok(_) => panic!("accepted"),
        Err(e) => {
            assert_eq!(e, StepError::TooManyOutcomes(1));
            assert_eq!(show_error(e), "TooManyOutcomes(1)");
        }
    }
    let b: BruteError = StepError::TooManyOutcomes(1).into();
    assert!(matches!(b, BruteError::Step(_)));
    let x: ExactError = StepError::TooManyOutcomes(1).into();
    assert_eq!(show_exact_error(x), "Step(TooManyOutcomes(1))");
    assert_eq!(show_exact_error(ExactError::TooManyStates(3)), "TooManyStates(3)");
}

#[test]
fn the_sums_at_the_root_meet_the_bounds() {
    let t = tree::<Decimal>(LATE);
    let mut store = Store::new(&t, 2);
    let initial = match store.initial_histories() {
        Ok(v) => v,
        Err(_) => panic!("too many"),
    };
    assert_eq!(initial.len(), 2);
    let (e, l) = Frontier::sums(&store, &initial);
    assert_eq!(shown(&e), vec!["3.5", "5"]);
    assert_eq!(shown(&l), vec!["1.5", "2"]);
    let f = Frontier::from_histories(&store, &initial);
    assert_eq!(shown(&f.accepting()), vec!["3.5", "5"]);
    assert_eq!(shown(&f.rejecting()), vec!["1.5", "2"]);
    // what was paid on the way: the draw alone
    assert_eq!(shown(&f.accumulated(&store.records)), vec!["0.5", "1"]);
    assert_eq!((store.cs_made(), store.hist_made()), (1, 2));
}

#[test]
fn resolving_a_choice_tightens_the_sums() {
    let t = tree::<Decimal>(LATE);
    let mut store = Store::new(&t, 1);
    let initial = match store.initial_histories() {
        Ok(v) => v,
        Err(_) => panic!("too many"),
    };
    let f = Frontier::from_histories(&store, &initial);
    assert_eq!(store.known(initial[0], Branch::Low), None);
    match store.children(initial[0], Branch::Low) {
        Ok(x) => {
            assert_eq!(store.known(initial[0], Branch::Low), Some(x));
            let e = store.records.expansions.get(x);
            // x rises by half of one, and half of three is not paid any more
            assert_eq!(shown(&e.closed_delta), vec!["1", "2"]);
            // both sums of the history are tightened
            let h = store.history(initial[0]);
            for c in 0..t.k {
                assert!(e.closed_delta[c].plus(&e.open_e_delta[c]).le(&h.e_hat[c]));
                assert!(h.l_hat[c].le(&e.closed_delta[c].plus(&e.open_l_delta[c])));
            }
            // asked again, the store hands back what it has and steps no further
            let before = (store.macro_steps, store.outcomes, store.cs_made(), store.hist_made());
            assert!(matches!(store.children(initial[0], Branch::Low), Ok(y) if y == x));
            let after = (store.macro_steps, store.outcomes, store.cs_made(), store.hist_made());
            assert_eq!(before, after);
        }
        Err(_) => panic!("too many"),
    }
    assert_eq!(f.total, 2);
}

#[test]
fn a_closed_draw_is_forgotten_by_the_state_alone() {
    // C is 1, its draw 2, D 3, the sequence 4, A 5, the choice 6, B 7
    let t = tree::<F>(LATE);
    let mut store = Store::new(&t, 1);
    let hs = match store.initial_histories() {
        Ok(v) => v,
        Err(e) => panic!("{}", show_error(e)),
    };
    assert_eq!(hs.len(), 2);
    let (a, b) = (store.history(hs[0]), store.history(hs[1]));
    assert_eq!(a.cs, b.cs);
    assert_eq!((a.dh.clone(), b.dh.clone()), (vec![1], vec![3]));
}

#[test]
fn the_last_worker_to_lie_down_ends_the_search() {
    let t = tree::<F>(LATE);
    let mut store = Store::new(&t, 1);
    let hs = match store.initial_histories() {
        Ok(v) => v,
        Err(e) => panic!("{}", show_error(e)),
    };
    let mut bench = Bench::new(2, Steal::Ring);
    let (mut x, mut y) = (Worker::<F>::new(7, 0), Worker::<F>::new(7, 1));
    assert!(!bench.fetch(&mut y, 1));
    assert_eq!(bench.lie_down(1), Call::Sleep);
    assert_eq!(bench.look_up(1, false), Call::Sleep);
    bench.pool.push(0, CtNode::root(&store, &hs));
    assert_eq!(bench.look_up(1, false), Call::Take);
    assert_eq!(bench.idle, 0);
    assert!(bench.fetch(&mut y, 1));
    assert!(y.node.is_some() && bench.pool.is_empty(0));
    assert!(!bench.fetch(&mut x, 0));
    assert_eq!(bench.lie_down(0), Call::Sleep);
    y.leave();
    assert!(!bench.fetch(&mut y, 1));
    assert_eq!(bench.lie_down(1), Call::Leave);
    assert!(matches!(bench.answer, Some(Answer::No)));
    assert_eq!(bench.look_up(0, true), Call::Leave);
    assert!(matches!(bench.answer, Some(Answer::No)));
}

#[test]
fn a_late_worker_ends_the_search() {
    let mut bench = Bench::<F>::new(2, Steal::Any);
    assert_eq!(bench.lie_down(0), Call::Sleep);
    assert_eq!(bench.look_up(0, true), Call::Leave);
    assert!(matches!(bench.answer, Some(Answer::Timeout)));
    bench.finish(Answer::No);
    assert!(matches!(bench.answer, Some(Answer::Timeout)));
}

#[test]
fn chains_of_decisions_unroll() {
    let first = Arc::new(SigmaNode { parent: None, dh: vec![5], action: 1 });
    let second = Arc::new(SigmaNode { parent: Some(first), dh: vec![7], action: 3 });
    assert_eq!(resolve(&Some(second)), vec![(vec![5], 1), (vec![7], 3)]);
    assert_eq!(resolve(&None), Vec::<(Vec<u32>, u32)>::new());
}

#[test]
fn instances_are_described() {
    let t = tree::<F>(LATE);
    assert_eq!(
        info(&t, "late.yaml").show(),
        "\
instance      
path          late.yaml
grid          nested 0 independent 0 number 0
dimensions    2
mode          
tasks         4
nodes         7
xor nodes     2
  choice      1
  nature      1
max duration  0
total impact  [5.000000, 7.000000]
"
    );
    assert_eq!(fmt_vec(&vec![F(0.5), F(2.0)]), "[0.500000, 2.000000]");
}

#[test]
fn answers_are_reported() {
    let t = tree::<F>(LATE);
    let stats = Stats { expanded: 1, choice_states: 2, histories: 3, macro_steps: 4, outcomes: 5, peak_open: 6, elapsed: 7 };
    let b = vec![F(1.0), F(2.0)];
    assert_eq!(
        answer(&t, &b, &Answer::Failed("why".to_string()), &stats, "0.000001", true, true).show(),
        "\
instance       
B              [1.000000, 2.000000]
answer         failed
reason         why
seconds        0.000001
expanded       1
choice states  2
histories      3
macro steps    4
step outcomes  5
peak open      6
outcome        - failed, no answer
"
    );
    assert_eq!(exit_code(&Answer::Failed("why".to_string())), 1);
    assert_eq!(exit_code(&Answer::No), 0);
    let yes = Answer::Yes(sdcpi::ct::Strategy {
        decisions: vec![(vec![1, 5], 3), (Vec::new(), 7)],
        frontier_size: 8,
        histories: 9,
    });
    let page = answer(&t, &b, &yes, &stats, "1", true, true).show();
    assert!(page.ends_with(
        "\
outcome        1 strategy found
histories won  9
open won       8
decisions won  2
decisions      2
  after [1, 5] take 3
  after [] take 7
"
    ));
    let page = answer(&t, &b, &Answer::No, &stats, "1", true, true).show();
    assert!(page.ends_with("outcome        0 strategy not found\n"));
    let page = answer(&t, &b, &Answer::Timeout, &stats, "1", true, true).show();
    assert!(page.ends_with("outcome        - timed out, no answer\n"));
}

#[test]
fn exact_passes_are_reported() {
    let t = tree::<F>(LATE);
    let mut store = Store::new(&t, 1);
    let o = match optima(&mut store, 1000) {
        Ok(o) => o,
        Err(_) => panic!("gave up"),
    };
    assert_eq!(
        optima_page(&t, 1, "0.5", &o).show(),
        "\
instance      
choice states 1
seconds       0.5
component 0  min 1.5e0  max 3.5e0
component 1  min 2e0  max 5e0
"
    );
    assert_eq!(
        exact(Ok(o)).show(),
        "exact min  [1.500000, 2.000000]\nexact max  [3.500000, 5.000000]\n"
    );
    assert_eq!(
        exact::<F>(Err(ExactError::TooManyStates(1))).show(),
        "exact      unavailable: TooManyStates(1)\n"
    );
    let b = Bounds { upper: vec![F(1.5)], lower: vec![F(0.25)] };
    assert_eq!(bound(&t, &b).show(), "instance   \nU at s0    [1.500000]\nL at s0    [0.250000]\n");
    assert_eq!(
        root(&vec![F(1.0)], &vec![F(2.0)], 2).show(),
        "root E     [1.000000]\nroot L     [2.000000]\nroot size  2 histories\n"
    );
}

#[test]
fn decimals_are_exact() {
    let (a, b): (Decimal, Decimal) = (num("0.1"), num("0.2"));
    assert_eq!(a.plus(&b).show(), "0.3");
    assert_eq!(a.minus(&b).show(), "-0.1");
    assert_eq!(a.times(&b).show(), "0.02");
    assert_eq!(num::<Decimal>("1e-06").show(), "0.000001");
    assert_eq!(num::<Decimal>("12.5e2").show(), "1250");
    assert_eq!(num::<Decimal>("-0.50").show(), "-0.5");
    assert_eq!(num::<Decimal>("-0").show(), "0");
    assert!(a.lt(&b) && a.le(&a) && !b.le(&a));
    assert_eq!(a.max(&b).show(), "0.2");
    assert_eq!(a.min(&b).show(), "0.1");
    assert_eq!(num::<Decimal>("-3").abs().show(), "3");
    assert_eq!(Decimal::unit(1u64 << 52).show(), "0.5");
    assert_eq!(num::<Decimal>("30e-1").integral(), Some(3));
    assert_eq!(num::<Decimal>("-30e-1").integral(), Some(-3));
    assert_eq!(num::<Decimal>("0.5").integral(), None);
    assert_eq!(num::<Decimal>("1e30").integral(), Some(i64::MAX));
    assert_eq!(num::<Decimal>("-1e30").integral(), Some(i64::MIN));
    assert_eq!(num::<Decimal>("2.345").fixed(2), "2.35");
    assert_eq!(num::<Decimal>("-2").fixed(2), "-2.00");
    assert_eq!(num::<Decimal>("0.0001234").scientific(2), "1.23e-4");
    assert_eq!(num::<Decimal>("0").scientific(1), "0.0e0");
    assert_eq!(num::<Decimal>("1250").power(), "1.25e3");
    assert!(Decimal::read("").is_none());
    assert!(Decimal::read(".").is_none());
    assert!(Decimal::read("1x").is_none());
    assert!(Decimal::read("1e").is_none());
    assert!(Decimal::read("--1").is_none());
}
