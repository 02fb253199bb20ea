//! Reading and writing: instance files, the grammar, budgets, command lines.

use sdcpi::args::{
    cap_wanted, configure, encode_history, parse_args, process_source, Source,
};
use sdcpi::budget::{
    bound_text, budget_source, objective, parse_bspec, resolve_b, values, BSpec, BVal,
};
use sdcpi::config::{Ablation, Selection, Steal};
use sdcpi::decimal::Decimal;
use sdcpi::num::Number;
use sdcpi::tree::{Kind, Tree};
use sdcpi::writer::to_yaml;

/// Rounded numbers.
#[derive(Clone, Copy, Debug, PartialEq)]
struct F(f64);

impl Number for F {
    type Value = f64;

    fn zero() -> F {
        F(0.0)
    }
    fn one() -> F {
        F(1.0)
    }
    fn dup(&self) -> F {
        *self
    }
    fn plus(&self, other: &F) -> F {
        F(self.0 + other.0)
    }
    fn minus(&self, other: &F) -> F {
        F(self.0 - other.0)
    }
    fn times(&self, other: &F) -> F {
        F(self.0 * other.0)
    }
    fn max(&self, other: &F) -> F {
        F(self.0.max(other.0))
    }
    fn min(&self, other: &F) -> F {
        F(self.0.min(other.0))
    }
    fn abs(&self) -> F {
        F(self.0.abs())
    }
    fn le(&self, other: &F) -> bool {
        self.0 <= other.0
    }
    fn lt(&self, other: &F) -> bool {
        self.0 < other.0
    }
    fn unit(n: u64) -> F {
        F(n as f64 / (1u64 << 53) as f64)
    }
    fn integral(&self) -> Option<i64> {
        if self.0.fract() == 0.0 {
            Some(self.0 as i64)
        } else {
            None
        }
    }
    fn read(text: &str) -> Option<F> {
        text.parse().ok().map(F)
    }
    fn show(&self) -> String {
        format!("{}", self.0)
    }
    fn fixed(&self, digits: usize) -> String {
        format!("{:.*}", digits, self.0)
    }
    fn scientific(&self, digits: usize) -> String {
        format!("{:.*e}", digits, self.0)
    }
    fn power(&self) -> String {
        format!("{:e}", self.0)
    }
}

const TINY: &str = "\
tree:
  - nature: 0.317537
    id: 2
    low:
      - task: T1
        id: 1
        duration: 2
        impact: [0.940423, 0.17498]
    high:
      - task: T2
        id: 3
        duration: 1
        impact: [0.830795, 0.799341]
";

fn tiny() -> Tree<F> {
    match Tree::parse(TINY) {
        Ok(t) => t,
        Err(e) => panic!("{}", e.show()),
    }
}

/// What a text is refused with.
fn refusal(text: &str) -> (usize, String) {
    match Tree::<F>::parse(text) {
        Ok(_) => panic!("accepted"),
        Err(e) => (e.line, e.message),
    }
}

#[test]
fn tiny_is_read_without_a_header() {
    let t = tiny();
    assert_eq!(t.n_nodes, 3);
    assert_eq!(t.n_tasks, 2);
    assert_eq!(t.k, 2);
    assert_eq!(t.root, 2);
    assert_eq!(t.kind(2), Kind::Nature);
    assert_eq!(t.node(2).low, 1);
    assert_eq!(t.node(2).high, 3);
    assert_eq!(t.node(2).prob, F(0.317537));
    assert_eq!(t.node(1).duration, 2);
    assert_eq!(t.impact(3).to_vec(), vec![F(0.830795), F(0.799341)]);
    assert_eq!(t.tasks, vec![1, 3]);
    assert_eq!(t.xors, vec![2]);
    assert_eq!(t.task_names[1], "T1");
    assert_eq!(t.meta.dimensions, 2);
    assert_eq!(t.meta.nodes, 3);
}

#[test]
fn a_full_header_is_kept() {
    let text = "\
# grid/n1/i2/p3

nested: 1
independent: 2
process_number: 3
dimensions: 1
impact_names: [[ kwh ,, ]
mode: uniform
seed: 42
tasks: 1
nodes: 1
max_duration: 9
xor_root_kind: none
source: here
expression: \"T1\"
tree:
- task: T1
  duration: 1
  impact: [1e-06]
  id: 1
what follows the root is not read
";
    let t: Tree<F> = match Tree::parse(text) {
        Ok(t) => t,
        Err(e) => panic!("{}", e.show()),
    };
    assert_eq!(t.meta.key, "grid/n1/i2/p3");
    assert_eq!((t.meta.nested, t.meta.independent, t.meta.process_number), (1, 2, 3));
    assert_eq!(t.meta.impact_names, vec!["kwh".to_string()]);
    assert_eq!(t.meta.mode, "uniform");
    assert_eq!(t.meta.seed, 42);
    assert_eq!(t.meta.max_duration, 9);
    assert_eq!(t.meta.xor_root_kind, "none");
    assert_eq!(t.meta.source, "here");
    assert_eq!(t.meta.expression, "T1");
    assert_eq!(t.impact(1).to_vec(), vec![F(0.000001)]);
    assert_eq!(t.total_impact(), vec![F(0.000001)]);
}

#[test]
fn carriage_returns_end_lines_too() {
    let t: Tree<F> = match Tree::parse(&TINY.replace('\n', "\r\n")) {
        Ok(t) => t,
        Err(e) => panic!("{}", e.show()),
    };
    assert_eq!(t.n_nodes, 3);
    assert_eq!(t.task_names[3], "T2");
}

#[test]
fn headers_are_refused() {
    assert_eq!(refusal(""), (1, "the file ends before `tree:`".to_string()));
    assert_eq!(refusal("seed: 1\n"), (2, "the file ends before `tree:`".to_string()));
    assert_eq!(refusal(" seed: 1\n"), (1, "a header key must sit at column zero".to_string()));
    assert_eq!(refusal("seed 1\n"), (1, "no key in \"seed 1\"".to_string()));
    assert_eq!(refusal("seed: x\n"), (1, "\"x\" is not a number".to_string()));
    assert_eq!(refusal("colour: red\n"), (1, "unknown header key \"colour\"".to_string()));
    assert_eq!(
        refusal("dimensions: 0\ntree:\n"),
        (3, "the header carries no dimensions".to_string())
    );
}

#[test]
fn nodes_are_refused() {
    let node = |body: &str| refusal(&format!("tree:\n{body}"));
    assert_eq!(node(""), (2, "the file ends where a node was expected".to_string()));
    assert_eq!(node("  task: A\n"), (2, "a node must open on `- `, found \"task: A\"".to_string()));
    assert_eq!(node("  - task A\n"), (2, "no kind in \"task A\"".to_string()));
    assert_eq!(node("  - loop: A\n"), (2, "unknown node kind \"loop\"".to_string()));
    assert_eq!(node("  - nature: x\n"), (2, "\"x\" is not a probability".to_string()));
    assert_eq!(
        node("  - nature: 1\n"),
        (2, "a nature node carries 1, and Definition 3 asks for a probability in (0,1)".to_string())
    );
    assert_eq!(node("  - task: A\n    id 1\n"), (3, "no key in \"id 1\"".to_string()));
    assert_eq!(node("  - task: A\n    id: -1\n"), (3, "\"-1\" is not an identifier".to_string()));
    assert_eq!(node("  - task: A\n    name: A\n"), (3, "unknown node key \"name\"".to_string()));
    assert_eq!(node("  - task: A\n    duration: x\n"), (3, "\"x\" is not a duration".to_string()));
    assert_eq!(
        node("  - task: A\n    duration: -3\n"),
        (3, "a task carries the duration -3, which is not positive".to_string())
    );
    assert_eq!(
        node("  - task: A\n    duration: 128\n"),
        (
            3,
            "the duration 128 does not fit the state encoding, which holds a progress in an i8"
                .to_string()
        )
    );
    assert_eq!(node("  - task: A\n    impact: 1\n"), (3, "\"1\" is not a vector".to_string()));
    assert_eq!(node("  - task: A\n    impact: [a]\n"), (3, "\"a\" is not a number".to_string()));
    assert_eq!(
        node("  - task: A\n    impact: [-1]\n"),
        (
            3,
            "the impact -1 is negative, and Definition 3 asks for a vector of R>=0^k".to_string()
        )
    );
    assert_eq!(node("  - task: A\n"), (3, "a node carries no identifier".to_string()));
    assert_eq!(node("  - task: A\n    id: 0\n"), (4, "the identifier 0 names no node".to_string()));
    assert_eq!(node("  - task: A\n    id: 1\n"), (4, "a task carries no impact".to_string()));
    assert_eq!(
        node("  - task: A\n    id: 1\n    impact: [1]\n"),
        (5, "a task carries no duration".to_string())
    );
    assert_eq!(
        node("  - choice:\n    id: 1\n"),
        (4, "an internal node is missing a branch".to_string())
    );
    assert_eq!(
        node("  - choice:\n    low:\n    - task: A\n"),
        (4, "a node is indented no deeper than its parent".to_string())
    );
}

#[test]
fn declared_sizes_are_held_against_the_tree() {
    let task = "  - task: A\n    id: 1\n    duration: 1\n    impact: [1]\n";
    let with = |head: &str| refusal(&format!("{head}tree:\n{task}"));
    assert_eq!(
        with("nodes: 0\n"),
        (7, "the identifier 1 falls outside 1..0, which the header declares".to_string())
    );
    assert_eq!(
        with("dimensions: 2\n"),
        (7, "an impact of 1 components against 2 declared dimensions".to_string())
    );
    assert_eq!(
        with("tasks: 2\n"),
        (0, "the header declares 2 tasks and the tree holds 1".to_string())
    );
    assert_eq!(
        with("nodes: 2\n"),
        (0, "2 nodes against 2 tasks, and a full binary tree has 2t-1".to_string())
    );
    assert_eq!(
        refusal(&TINY.replace("id: 3", "id: 4")),
        (0, "the identifier 4 falls outside 1..3, the number of the nodes".to_string())
    );
}

#[test]
fn the_numbering_is_in_order() {
    let swapped = TINY.replace("id: 1", "id: 9").replace("id: 3", "id: 1").replace("id: 9", "id: 3");
    assert_eq!(
        refusal(&swapped),
        (0, "the identifier 1 falls outside the in-order window 3..3".to_string())
    );
    let rooted = TINY.replace("id: 2", "id: 9").replace("id: 1", "id: 2").replace("id: 9", "id: 1");
    assert_eq!(
        refusal(&rooted),
        (0, "the task 3 does not fill its in-order window 2..3".to_string())
    );
}

#[test]
fn errors_name_their_line() {
    match Tree::<F>::parse("seed: x\n") {
        Ok(_) => panic!("accepted"),
        Err(e) => assert_eq!(e.show(), "line 1: \"x\" is not a number"),
    }
    match Tree::<F>::parse("tasks: 2\ntree:\n- task: A\n  id: 1\n  duration: 1\n  impact: [1]\n") {
        Ok(_) => panic!("accepted"),
        Err(e) => assert_eq!(e.show(), "the header declares 2 tasks and the tree holds 1"),
    }
}

fn yaml(text: &str) -> String {
    match to_yaml::<F>(text) {
        Ok(p) => p.yaml,
        Err(e) => panic!("{e}"),
    }
}

fn yaml_error(text: &str) -> String {
    match to_yaml::<F>(text) {
        Ok(_) => panic!("accepted"),
        Err(e) => e,
    }
}

#[test]
fn one_task_is_written() {
    assert_eq!(
        yaml("(Cut, 2, {kwh: 1.5, hours: 3})"),
        "\
impact_names: [kwh, hours]
dimensions: 2
tasks: 1
nodes: 1
tree:
  - task: Cut
    id: 1
    duration: 2
    impact: [1.5, 3]
"
    );
}

#[test]
fn every_operator_is_written() {
    let text = "\
impact_names: [x, y]
dimensions: 2
tasks: 4
nodes: 7
tree:
  - sequence:
    id: 4
    low:
      - choice:
        id: 2
        low:
          - task: A
            id: 1
            duration: 1
            impact: [1, 4]
        high:
          - task: B
            id: 3
            duration: 2
            impact: [3, 1]
    high:
      - nature: 0.5
        id: 6
        low:
          - task: C
            id: 5
            duration: 1
            impact: [1, 0]
        high:
          - task: D
            id: 7
            duration: 1
            impact: [0, 2]
";
    // the comma of the sequence, with the outermost parentheses and without
    assert_eq!(yaml("((A,1,{x:1,y:4}) ^ (B,2,{x:3,y:1})), ((C,1,{x:1}) ^[0.5] (D,1,{y:2}))"), text);
    assert_eq!(
        yaml("(((A,1,{x:1,y:4}) ^ (B,2,{x:3,y:1})), ((C,1,{x:1}) ^[0.5] (D,1,{y:2})))"),
        text
    );
    // the arrow
    assert_eq!(
        yaml("(((A,1,{x:1,y:4}) ^ (B,2,{x:3,y:1})) -> ((C,1,{x:1}) ^[0.5] (D,1,{y:2})))"),
        text
    );
}

#[test]
fn the_comma_associates_to_the_left() {
    assert_eq!(
        yaml("(A,1,{x:1}), (B,1), (C,1,{})"),
        yaml("((A,1,{x:1}), (B,1)), (C,1,{})")
    );
    assert!(yaml("(A,1,{x:1}), (B,1), (C,1)") != yaml("(A,1,{x:1}), ((B,1), (C,1))"));
}

#[test]
fn comments_and_blanks_are_passed_over() {
    assert_eq!(
        yaml("# a line\n ( A , 1 , { x : 1 } ) # the end"),
        yaml("(A,1,{x:1})")
    );
}

#[test]
fn the_grammar_refuses() {
    assert_eq!(yaml_error(""), "expected '(' at byte 0, found None");
    assert_eq!(yaml_error("A"), "expected '(' at byte 0, found Some('A')");
    assert_eq!(yaml_error("(,"), "expected a name at byte 1");
    assert_eq!(yaml_error("(A 1)"), "expected ',' at byte 3, found Some('1')");
    assert_eq!(yaml_error("(A,x)"), "expected a number at byte 3, found \"\"");
    assert_eq!(
        yaml_error("(A,0)"),
        "the task A carries the duration 0, and a duration is a positive integer"
    );
    assert_eq!(
        yaml_error("(A,1.5)"),
        "the task A carries the duration 1.5, and a duration is a positive integer"
    );
    assert_eq!(
        yaml_error("(A,1,{x:0})"),
        "the impact x of A is 0, and the map names only what is strictly positive; leave a zero out"
    );
    assert_eq!(yaml_error("(A,1,{x:1,x:2})"), "the task A names the impact x twice");
    assert_eq!(yaml_error("((A,1) ^[1] (B,1))"), "a nature node carries 1, and a probability lies in (0,1)");
    assert_eq!(yaml_error("((A,1) (B,1))"), "expected ->, ||, ^ or ^[p] at byte 7");
    assert_eq!(yaml_error("(A,1,{x:1}) x"), "trailing input at byte 12");
    assert_eq!(yaml_error("(A,1), (B,1) || (C,1)"), "trailing input at byte 13");
    assert_eq!(
        yaml_error("((A,1) || (B,1), (C,1))"),
        "expected ')' at byte 15, found Some(',')"
    );
    assert_eq!(
        yaml_error("(A,1)"),
        "no impact is named anywhere; name at least one, the dimension being at least one"
    );
}

#[test]
fn what_is_written_reads_back() {
    let text = yaml("((A,1,{x:1e-6,y:4}) || (B,2,{x:3})) ^[0.25] (C,7,{y:0.1})");
    let t: Tree<F> = match Tree::parse(&text) {
        Ok(t) => t,
        Err(e) => panic!("{}", e.show()),
    };
    assert_eq!(t.n_nodes, 5);
    assert_eq!(t.root, 4);
    assert_eq!(t.kind(4), Kind::Nature);
    assert_eq!(t.node(4).prob, F(0.25));
    assert_eq!((t.node(4).low, t.node(4).high), (2, 5));
    assert_eq!(t.kind(2), Kind::Parallel);
    assert_eq!(t.task_names[1], "A");
    assert_eq!(t.impact(1).to_vec(), vec![F(0.000001), F(4.0)]);
    assert_eq!(t.impact(3).to_vec(), vec![F(3.0), F(0.0)]);
    assert_eq!(t.impact(5).to_vec(), vec![F(0.0), F(0.1)]);
    assert_eq!(t.node(5).duration, 7);
    assert_eq!(t.meta.impact_names, vec!["x".to_string(), "y".to_string()]);
}

fn strings(words: &[&str]) -> Vec<String> {
    words.iter().map(|w| w.to_string()).collect()
}

#[test]
fn command_lines_are_read() {
    let a = match parse_args(&strings(&["one", "--seed", "7", "--B=1,2", "two", "--seed=8"])) {
        Ok(a) => a,
        Err(e) => panic!("{e}"),
    };
    assert_eq!(a.positional, strings(&["one", "two"]));
    assert_eq!(a.flag("seed"), Some("7"));
    assert_eq!(a.flag("B"), Some("1,2"));
    assert_eq!(a.flag("workers"), None);
    match parse_args(&strings(&["--seed"])) {
        Ok(_) => panic!("accepted"),
        Err(e) => assert_eq!(e, "--seed wants a value"),
    }
}

fn args(words: &[&str]) -> sdcpi::args::Args {
    match parse_args(&strings(words)) {
        Ok(a) => a,
        Err(e) => panic!("{e}"),
    }
}

#[test]
fn settings_have_defaults() {
    let c = match configure(&args(&[]), vec![F(1.0)], None) {
        Ok(c) => c,
        Err(e) => panic!("{e}"),
    };
    assert_eq!(c.seed, 20260816);
    assert_eq!(c.workers, 1);
    assert_eq!(c.epsilon, F(0.0));
    assert_eq!(c.ablation, Ablation::Both);
    assert_eq!(c.selection, Selection::Weighted);
    assert_eq!(c.steal, Steal::Ring);
    assert!(!c.record_strategy);
    let c = match configure(
        &args(&[
            "--seed=5", "--workers=2", "--epsilon=0.5", "--ablation=reject", "--selection=oldest",
            "--steal=any", "--print-size=1",
        ]),
        vec![F(1.0)],
        Some(9),
    ) {
        Ok(c) => c,
        Err(e) => panic!("{e}"),
    };
    assert_eq!((c.seed, c.workers, c.epsilon), (5, 2, F(0.5)));
    assert_eq!(c.ablation, Ablation::RejectOnly);
    assert_eq!(c.selection, Selection::Oldest);
    assert_eq!(c.steal, Steal::Any);
    assert!(c.record_strategy);
    assert_eq!(c.timeout, Some(9));
}

#[test]
fn settings_are_refused() {
    let refused = |flag: &str| match configure::<F>(&args(&[flag]), Vec::new(), None) {
        Ok(_) => panic!("accepted"),
        Err(e) => e,
    };
    assert_eq!(refused("--steal=all"), "--steal wants ring or any");
    assert_eq!(refused("--ablation=x"), "--ablation wants both, accept, reject or none");
    assert_eq!(refused("--selection=x"), "--selection wants weighted, uniform or oldest");
    assert_eq!(refused("--workers=two"), "--workers wants a number");
    assert_eq!(refused("--seed=-1"), "--seed wants a number");
    assert_eq!(refused("--epsilon=small"), "--epsilon wants a number");
}

#[test]
fn the_other_flags_are_read() {
    assert_eq!(cap_wanted(&args(&["--max-states=7"]), 5), Ok(7));
    assert_eq!(cap_wanted(&args(&[]), 5), Ok(5));
    assert_eq!(
        cap_wanted(&args(&["--max-states=x"]), 5),
        Err("--max-states wants a number".to_string())
    );
    assert_eq!(encode_history(&args(&[])), Ok(true));
    assert_eq!(encode_history(&args(&["--encode-history=false"])), Ok(false));
    assert_eq!(
        encode_history(&args(&["--encode-history=no"])),
        Err("--encode-history wants true or false, found \"no\"".to_string())
    );
    match process_source(&args(&["(A,", "1)"])) {
        Ok(Source::Inline(t)) => assert_eq!(t, "(A, 1)"),
        _ => panic!("not inline"),
    }
    match process_source(&args(&["--file=f"])) {
        Ok(Source::File(f)) => assert_eq!(f, "f"),
        _ => panic!("not a file"),
    }
    assert!(process_source(&args(&[])).is_err());
    assert!(process_source(&args(&["x", "--file=f"])).is_err());
    match budget_source(&args(&["--B=1", "--B-file=f"])) {
        Ok(Source::File(f)) => assert_eq!(f, "f"),
        _ => panic!("not a file"),
    }
    assert!(budget_source(&args(&[])).is_err());
}

fn budget(text: &str) -> BSpec<F> {
    match parse_bspec(text) {
        Ok(b) => b,
        Err(e) => panic!("{e}"),
    }
}

fn budget_error(text: &str) -> String {
    match parse_bspec::<F>(text) {
        Ok(_) => panic!("accepted"),
        Err(e) => e,
    }
}

fn resolved(text: &str, names: &[&str], k: usize) -> Result<Vec<BVal<F>>, String> {
    resolve_b(budget(text), &strings(names), k)
}

#[test]
fn budgets_are_read() {
    for text in ["0.9, 0.70", "[0.9,0.70]", " [ 0.9 , 0.70 ] "] {
        match resolved(text, &[], 2) {
            Ok(v) => {
                assert_eq!(values(&v), vec![F(0.9), F(0.7)]);
                assert_eq!(v[1].text, "0.70");
            }
            Err(e) => panic!("{e}"),
        }
    }
    for text in ["{kwh: 100, hours: 8}", "{hours: 8, kwh: 100}"] {
        match resolved(text, &["hours", "kwh"], 2) {
            Ok(v) => assert_eq!(values(&v), vec![F(8.0), F(100.0)]),
            Err(e) => panic!("{e}"),
        }
    }
}

#[test]
fn budgets_are_refused() {
    assert_eq!(budget_error("{a: 1"), "B opens with '{' and never closes it");
    assert_eq!(budget_error("[1"), "B opens with '[' and never closes it");
    assert_eq!(budget_error("{}"), "`` in B is not `name: value`");
    assert_eq!(budget_error("{a: x}"), "`x` in B is not a number");
    assert_eq!(budget_error("1, x"), "\" x\" is not a number");
    let refused = |text: &str, names: &[&str], k: usize| match resolved(text, names, k) {
        Ok(_) => panic!("accepted"),
        Err(e) => e,
    };
    assert_eq!(refused("1", &["a", "b"], 2), "B has 1 components against 2 declared");
    assert_eq!(
        refused("{a: 1}", &[], 1),
        "the instance carries no impact_names, so give B as an array"
    );
    assert_eq!(
        refused("{c: 1}", &["a", "b"], 2),
        "B names `c`, and the instance declares [a, b]"
    );
    assert_eq!(refused("{a: 1, a: 2}", &["a", "b"], 2), "B names `a` twice");
    assert_eq!(refused("{b: 1}", &["a", "b", "c"], 3), "B leaves [a, c] without a value");
}

#[test]
fn budget_files_are_read() {
    match bound_text::<F>("b.yaml", "# B: [9]\nfrom: there\n  B: [1, 2]\nB: [3]\n") {
        Ok(b) => match resolve_b(b, &Vec::new(), 2) {
            Ok(v) => assert_eq!(values(&v), vec![F(1.0), F(2.0)]),
            Err(e) => panic!("{e}"),
        },
        Err(e) => panic!("{e}"),
    }
    match bound_text::<F>("b.yaml", "from: there\n") {
        Ok(_) => panic!("accepted"),
        Err(e) => assert_eq!(e, "b.yaml: no `B:` key in it"),
    }
    match bound_text::<F>("b.yaml", "B: [1\n") {
        Ok(_) => panic!("accepted"),
        Err(e) => assert_eq!(e, "b.yaml: B opens with '[' and never closes it"),
    }
}

#[test]
fn objectives_keep_the_literals() {
    match resolved("0.70, 1e2", &[], 2) {
        Ok(v) => assert_eq!(
            objective(&v, 4),
            "multi(R{\"impact0\"}<=0.70 [ F n4=-2 ], R{\"impact1\"}<=1e2 [ F n4=-2 ])\n"
        ),
        Err(e) => panic!("{e}"),
    }
}

#[test]
fn a_duration_is_that_of_a_task() {
    let text = "\
dimensions: 1
tasks: 2
nodes: 3
tree:
- sequence:
  id: 2
  duration: 3
  low:
   - task: A
     id: 1
     duration: 1
     impact: [3]
  high:
   - task: B
     id: 3
     duration: 2
     impact: [5]
";
    let t: Tree<F> = match Tree::parse(text) {
        Ok(t) => t,
        Err(e) => panic!("{}", e.show()),
    };
    assert_eq!(t.node(2).duration, 0);
    assert_eq!((t.node(1).duration, t.node(3).duration), (1, 2));
    assert_eq!((t.node(1).low, t.node(1).high), (0, 0));
    assert_eq!((t.node(2).low, t.node(2).high), (1, 3));
}

#[test]
fn an_identifier_is_used_once() {
    let text = "\
tasks: 1
nodes: 1
tree:
- task: A
  id: 1
  duration: 1
  impact: [1]
  low:
   - task: B
     id: 1
     duration: 2
     impact: [2]
";
    assert_eq!(refusal(text), (0, "the identifier 1 is used twice".to_string()));
}

#[test]
fn a_task_may_have_no_impact() {
    let a = yaml("((A,1) || (B,1,{c:2}))");
    let b = yaml("((A,1,{}) || (B,1,{c:2})) # end");
    assert_eq!(a, b);
    let t: Tree<F> = match Tree::parse(&a) {
        Ok(t) => t,
        Err(e) => panic!("{}", e.show()),
    };
    assert_eq!(t.impact(1).to_vec(), vec![F(0.0)]);
    assert_eq!(t.impact(3).to_vec(), vec![F(2.0)]);
    assert!(to_yaml::<F>("((A,1))").is_err());
    assert!(to_yaml::<F>("(A,1)").is_err());
}

#[test]
fn decimals_keep_their_value_in_a_file() {
    let text = match to_yaml::<Decimal>("(A,2.0,{x:1.0,y:0.50}) ^[0.250] (B,1,{y:1e-3})") {
        Ok(p) => p.yaml,
        Err(e) => panic!("{e}"),
    };
    let t: Tree<Decimal> = match Tree::parse(&text) {
        Ok(t) => t,
        Err(e) => panic!("{}", e.show()),
    };
    let row = |id: u32| t.impact(id).iter().map(|v| v.show()).collect::<Vec<String>>();
    assert_eq!(t.node(2).prob.show(), "0.25");
    assert_eq!(t.node(1).duration, 2);
    assert_eq!(row(1), vec!["1", "0.5"]);
    assert_eq!(row(3), vec!["0", "0.001"]);
}

#[test]
fn blanks_and_comments_stand_between_tokens() {
    let plain = "((A,12,{c:2})^[0.5](B,3))->(C,1)";
    let spaced = "( (A , 12 # hours\n, { c\t:2 } )\n^[ 0.5 ] (B,3,{ }) ) # then\n -> (C,1,{}) #";
    assert_eq!(yaml(plain), yaml(spaced));
    // inside a token they make another one
    assert!(to_yaml::<F>("((A,1 2,{c:2})^(B,3))").is_err());
    assert!(to_yaml::<F>("((A,1,{c:2})| |(B,3))").is_err());
}
