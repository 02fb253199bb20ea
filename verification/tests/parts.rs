//! The parts: arenas, hashes, stacks, draws, settings, and the two encodings.

use sdcpi::arena::Arena;
use sdcpi::config::{Ablation, Selection, Steal};
use sdcpi::draw::Rng;
use sdcpi::hash::{
    hash_of_dh, hash_of_state, same_dh, same_state, shard_of_dh, shard_of_state, FxHasher, Index,
};
use sdcpi::mdp::{dump, explore};
use sdcpi::num::Number;
use sdcpi::pool::Pool;
use sdcpi::prism::{dbl, emit, format_g};
use sdcpi::tree::{Kind, Tree};
use sdcpi::words::{integer, lines, natural, split, trim};
use sdcpi::writer::to_yaml;

/// Rounded numbers.
#[derive(Clone, Copy, Debug, PartialEq)]
struct F(f64);

impl Number for F {
    type Value = f64;

    fn zero() -> F {
        F(0.0)
    }
    fn one() -> F {
        F(1.0)
    }
    fn dup(&self) -> F {
        *self
    }
    fn plus(&self, other: &F) -> F {
        F(self.0 + other.0)
    }
    fn minus(&self, other: &F) -> F {
        F(self.0 - other.0)
    }
    fn times(&self, other: &F) -> F {
        F(self.0 * other.0)
    }
    fn max(&self, other: &F) -> F {
        F(self.0.max(other.0))
    }
    fn min(&self, other: &F) -> F {
        F(self.0.min(other.0))
    }
    fn abs(&self) -> F {
        F(self.0.abs())
    }
    fn le(&self, other: &F) -> bool {
        self.0 <= other.0
    }
    fn lt(&self, other: &F) -> bool {
        self.0 < other.0
    }
    fn unit(n: u64) -> F {
        F(n as f64 / (1u64 << 53) as f64)
    }
    fn integral(&self) -> Option<i64> {
        if self.0.fract() == 0.0 {
            Some(self.0 as i64)
        } else {
            None
        }
    }
    fn read(text: &str) -> Option<F> {
        text.parse().ok().map(F)
    }
    fn show(&self) -> String {
        format!("{}", self.0)
    }
    fn fixed(&self, digits: usize) -> String {
        format!("{:.*}", digits, self.0)
    }
    fn scientific(&self, digits: usize) -> String {
        format!("{:.*e}", digits, self.0)
    }
    fn power(&self) -> String {
        format!("{:e}", self.0)
    }
}

fn tree(process: &str) -> Tree<F> {
    let yaml = match to_yaml::<F>(process) {
        Ok(p) => p.yaml,
        Err(e) => panic!("{e}"),
    };
    match Tree::parse(&yaml) {
        Ok(t) => t,
        Err(e) => panic!("{}", e.show()),
    }
}

#[test]
fn arenas_keep_what_is_placed() {
    let mut a: Arena<String> = Arena::new();
    assert_eq!(a.len(), 0);
    let x = a.place("one".to_string());
    let y = a.place("two".to_string());
    assert_eq!((a.get(x).as_str(), a.get(y).as_str()), ("one", "two"));
    assert_eq!(a.len(), 2);
}

/// One word into the hash.
fn mix(h: u64, word: u64) -> u64 {
    (h.rotate_left(5) ^ word).wrapping_mul(0x517c_c1b7_2722_0a95)
}

#[test]
fn hashes_take_eight_bytes_at_a_time() {
    let mut h = FxHasher::new();
    assert_eq!(h.finish(), 0);
    h.write_u8(7);
    assert_eq!(h.finish(), mix(0, 7));
    h.write_u32(9);
    assert_eq!(h.finish(), mix(mix(0, 7), 9));
    let mut h = FxHasher::new();
    h.write(&[1, 2, 3, 4, 5, 6, 7, 8, 9]);
    assert_eq!(h.finish(), mix(mix(0, 0x0807_0605_0403_0201), 9));
}

#[test]
fn equal_things_share_a_shard() {
    for shards in [1usize, 2, 7] {
        assert_eq!(shard_of_state(&[-1, 0, 3], shards), shard_of_state(&[-1, 0, 3], shards));
        assert!(shard_of_state(&[-1, 0, 3], shards) < shards);
        assert!(shard_of_dh(&[1, 5], shards) < shards);
    }
    assert!(hash_of_state(&[0, -1]) != hash_of_state(&[-1, 0]));
    assert!(hash_of_dh(&[1, 2]) != hash_of_dh(&[2, 1]));
    assert!(same_state(&[1, 2], &[1, 2]) && !same_state(&[1], &[1, 2]));
    assert!(same_dh(&[1, 2], &[1, 2]) && !same_dh(&[1, 2], &[1, 3]));
}

#[test]
fn an_index_keeps_every_entry_of_a_hash() {
    let mut i = Index::new(3);
    i.add(10, 1);
    i.add(13, 2);
    i.add(10, 3);
    assert_eq!(i.count(10), 2);
    assert_eq!((i.nth(10, 0), i.nth(10, 1)), (1, 3));
    assert_eq!(i.count(13), 1);
    assert_eq!(i.count(16), 0);
}

#[test]
fn draws_are_reproducible() {
    let (mut a, mut b) = (Rng::new(20260816), Rng::new(20260816));
    for _ in 0..100 {
        assert_eq!(a.next_u64(), b.next_u64());
        let x: F = a.unit();
        let y: F = b.unit();
        assert_eq!(x, y);
        assert!(0.0 <= x.0 && x.0 < 1.0);
    }
    // the first number of the generator from one
    assert_eq!(Rng::new(0).next_u64(), 0x910a_2dec_8902_5cc1);
}

#[test]
fn a_worker_pops_its_own_and_steals_the_oldest() {
    let mut p: Pool<u32> = Pool::new(3, Steal::Ring);
    p.push(0, 1);
    p.push(0, 2);
    assert_eq!(p.predecessor(1), 0);
    assert_eq!(p.predecessor(0), 2);
    assert!(p.anything(1));
    assert!(!p.anything(2));
    assert_eq!(p.take(2), None);
    assert_eq!(p.take(1), Some(1));
    assert_eq!(p.take(0), Some(2));
    assert!(p.is_empty(0));
    let mut p: Pool<u32> = Pool::new(3, Steal::Any);
    p.push(0, 1);
    assert!(p.anything(2));
    assert_eq!(p.take(2), Some(1));
}

#[test]
fn settings_have_words() {
    assert_eq!(Ablation::parse("both"), Some(Ablation::Both));
    assert_eq!(Ablation::parse("accept"), Some(Ablation::AcceptOnly));
    assert_eq!(Ablation::parse("reject"), Some(Ablation::RejectOnly));
    assert_eq!(Ablation::parse("none"), Some(Ablation::Neither));
    assert_eq!(Ablation::parse("None"), None);
    assert!(Ablation::AcceptOnly.accept_early() && !Ablation::AcceptOnly.reject_early());
    assert_eq!(Selection::parse("weighted"), Some(Selection::Weighted));
    assert_eq!(Selection::parse("uniform"), Some(Selection::Uniform));
    assert_eq!(Selection::parse("oldest"), Some(Selection::Oldest));
    assert_eq!(Selection::parse(""), None);
    assert_eq!(Steal::parse("ring"), Some(Steal::Ring));
    assert_eq!(Steal::parse("any"), Some(Steal::Any));
    assert_eq!(Steal::parse("anyone"), None);
    assert!(Kind::Choice.is_xor() && Kind::Nature.is_xor() && !Kind::Parallel.is_xor());
}

#[test]
fn words_come_apart() {
    let chars = |s: &str| s.chars().collect::<Vec<char>>();
    let text = |v: &[char]| v.iter().collect::<String>();
    assert_eq!(text(trim(&chars("\t a b\u{3000}\r"))), "a b");
    let ls: Vec<String> = lines(&chars("a\r\n\nb\rc")).iter().map(|l| text(l)).collect();
    assert_eq!(ls, vec!["a", "", "b\rc"]);
    assert_eq!(lines(&chars("")).len(), 0);
    assert_eq!(lines(&chars("a\n")).len(), 1);
    let ps: Vec<String> = split(&chars(",a,"), ',').iter().map(|l| text(l)).collect();
    assert_eq!(ps, vec!["", "a", ""]);
    assert_eq!(natural(&chars("+18446744073709551615"), u64::MAX), Some(u64::MAX));
    assert_eq!(natural(&chars("18446744073709551616"), u64::MAX), None);
    assert_eq!(natural(&chars(""), 9), None);
    assert_eq!(integer(&chars("-2147483648"), 2147483647), Some(-2147483648));
    assert_eq!(integer(&chars("-+1"), 9), None);
    assert_eq!(integer(&chars("2147483648"), 2147483647), None);
}

#[test]
fn every_state_and_move_is_dumped() {
    let t = tree("(A,1,{x:1}) ^[0.25] (B,2,{x:0.5})");
    let m = match explore(&t, 100) {
        Ok(m) => m,
        Err(e) => panic!("{e}"),
    };
    assert_eq!(
        dump(&t, &m),
        "\
nodes 3
dimensions 1
impact_names [x]
node 1 task A duration 1 impact [1]
node 2 nature 0.25 low 1 high 3
node 3 task B duration 2 impact [0.5]
states 6
state 0 rank 4 witness 2 values -1 0 -1
state 1 rank 5 witness 1 values 0 0 -1
state 2 rank 5 witness 3 values -1 0 0
state 3 rank 3 witness 2 values -2 0 -1
state 4 rank 3 witness 2 values -1 0 -2
state 5 final values -1 -2 -1
edges 6
edge 0 1 draw 1 0.25
edge 0 2 draw 3 0.75
edge 1 3 ff 1 [1]
edge 2 4 ff 2 [0.5]
edge 3 5 up 2
edge 4 5 up 2
"
    );
    assert!(explore(&t, 3).is_err());
}

#[test]
fn no_run_is_long() {
    for process in [
        "(A,1,{x:1}) ^[0.25] (B,2,{x:0.5})",
        "(A,1,{x:1}) || (B,3,{x:2})",
        "((A,1,{x:1}) ^ (B,2,{x:2})), (((C,2,{x:1}) || (D,1,{x:4})), (E,1,{x:3}))",
    ] {
        let t = tree(process);
        let m = match explore(&t, 1000) {
            Ok(m) => m,
            Err(e) => panic!("{e}"),
        };
        let mut far = vec![0; m.states.len()];
        for _ in 0..m.states.len() {
            for e in &m.edges {
                far[e.to] = far[e.to].max(far[e.from] + 1);
            }
        }
        let longest = far.iter().max().copied().unwrap_or(0);
        assert!(longest > 0);
        assert!(longest < 2 * t.n_nodes as usize);
    }
}

#[test]
fn parallel_tasks_run_together() {
    let t = tree("(A,1,{x:1}) || (B,3,{x:2})");
    let m = match explore(&t, 100) {
        Ok(m) => m,
        Err(e) => panic!("{e}"),
    };
    let text = dump(&t, &m);
    // one unit of time completes the first task, two more the second
    assert!(text.contains(" ff 1 [1]\n"));
    assert!(text.contains(" ff 2 [2]\n"));
    assert!(text.contains("state 0 rank 2 witness 2 values -1 0 -1\n"));
}

#[test]
fn literals_of_the_model_have_a_point() {
    for (x, want) in [
        (0.0, "0.0"),
        (1.0, "1.0"),
        (100.0, "100.0"),
        (0.5, "0.5"),
        (0.859951, "0.859951"),
        (1e-6, "0.000001"),
        (1e-13, "0.0"),
        (1e12, "1000000000000.0"),
        (1.0 / 3.0, "0.333333333333"),
    ] {
        assert_eq!(dbl(&F(x)), want);
    }
    assert_eq!(format_g(&F(0.0001)), "0.0001");
    assert_eq!(format_g(&F(0.00001)), "1.00000000000e-5");
    assert_eq!(format_g(&F(123456789012.0)), "123456789012");
}

/// The lines of a model that are not comments.
fn code(text: &str) -> Vec<&str> {
    text.lines().filter(|l| !l.trim().is_empty() && !l.trim().starts_with("//")).collect()
}

#[test]
fn a_choice_is_encoded() {
    let t = tree("(A,1,{x:1}) ^ (B,2,{x:0.5})");
    let text = emit(&t, "two", "two.yaml", true);
    assert!(text.starts_with("// PRISM model of the BPMN+CPI instance two\n"));
    assert!(text.contains("//   dimensions: 1\n//   tasks: 2\n//   nodes: 3\n//\n// TIME SCALING\n"));
    assert!(text.ends_with("endrewards\n\n"));
    assert_eq!(
        code(&text),
        vec![
            "mdp",
            "const int d1 = 1;  // A, raw duration 1.0",
            "const int d3 = 2;  // B, raw duration 2.0",
            "const int no_time = 3;",
            "formula psi1_2 = n2>=0 & n1=-1 & n3=-1;  // node 2, choice",
            "formula some_psi1 = psi1_2;",
            "formula some_psi2 = false;",
            "formula psi3_2 = n1=-2 | n3=-2;  // node 2, choice",
            "formula some_psi3 = psi3_2;",
            "formula some_psi4 = false;",
            "formula psi5_1 = n1>=0 & n1<d1;  // node 1, task A",
            "formula psi5_3 = n3>=0 & n3<d3;  // node 3, task B",
            "formula some_psi5 = psi5_1 | psi5_3;",
            "formula rank1 = some_psi1;",
            "formula rank2 = !some_psi1 & some_psi2;",
            "formula rank3 = !some_psi1 & !some_psi2 & some_psi3;",
            "formula rank4 = !some_psi1 & !some_psi2 & !some_psi3 & some_psi4;",
            "formula rank5 = !some_psi1 & !some_psi2 & !some_psi3 & !some_psi4 & some_psi5;",
            "formula wit1_2 = psi1_2;",
            "formula wit3_2 = psi3_2;",
            "formula wit5_1 = psi5_1;",
            "formula wit5_3 = psi5_3 & !psi5_1;",
            "formula t_step = min(n1>=0 ? d1-n1 : no_time,",
            "                     n3>=0 ? d3-n3 : no_time);",
            "formula closes1 = n1>=0 & d1-n1=t_step;  // A",
            "formula closes3 = n3>=0 & d3-n3=t_step;  // B",
            "formula ff1 = n1<0 ? n1 : (closes1 ? -2 : min(n1+t_step, 0));  // node 1, task A",
            "formula ff2 = n2<0 ? n2 : min(n2+t_step, 2);  // node 2, choice",
            "formula ff3 = n3<0 ? n3 : (closes3 ? -2 : min(n3+t_step, 1));  // node 3, task B",
            "module process",
            "  n1 : [-2..0] init -1;  // node 1, task A",
            "  n2 : [-2..2] init 0;  // node 2, choice",
            "  n3 : [-2..1] init -1;  // node 3, task B",
            "  d2 : [0..2] init 0;  // node 2, choice",
            "  [choice2low]  rank1 & wit1_2 -> (n1'=0) & (d2'=1);",
            "  [choice2high] rank1 & wit1_2 -> (n3'=0) & (d2'=2);",
            "  [up2close] rank3 & wit3_2 -> (n1'=-1) & (n3'=-1) & (n2'=-2);  // choice",
            "  [ff] rank5 & wit5_1 -> (n1'=ff1) & (n2'=ff2) & (n3'=ff3);",
            "  [ff] rank5 & wit5_3 -> (n1'=ff1) & (n2'=ff2) & (n3'=ff3);",
            "  [absorb] n2=-2 -> (n2'=-2);",
            "endmodule",
            "label \"final\" = n2=-2;",
            "rewards \"impact0\"",
            "  [ff] true :",
            "        (closes1 ? 1.0 : 0.0)   // A",
            "      + (closes3 ? 0.5 : 0.0)   // B",
            "  ;",
            "endrewards",
        ]
    );
    let plain = emit(&t, "two", "two.yaml", false);
    assert!(code(&plain).contains(&"  [choice2low]  rank1 & wit1_2 -> (n1'=0);"));
    assert!(!plain.contains("decision trail"));
}

#[test]
fn the_other_compositions_are_encoded() {
    let t = tree("((A,1,{x:1}) ^[0.25] (B,2)), ((C,1) || (D,4))");
    let text = emit(&t, "s", "s.yaml", true);
    let lines = code(&text);
    for want in [
        "const double p2 = 0.25;",
        "const int no_time = 5;",
        "formula psi2_4 = n4>=0 & n2=-1 & n6=-1;  // node 4, sequence",
        "formula psi3_6 = n5=-2 & n7=-2;  // node 6, parallel",
        "formula psi4_2 = n2>=0 & n1=-1 & n3=-1;  // node 2, nature p=0.25",
        "formula wit3_6 = psi3_6 & !psi3_2 & !psi3_4;",
        "formula ff4 = n4<0 ? n4 : min(n4+t_step, 6);  // node 4, sequence",
        "  n4 : [-2..6] init 0;  // node 4, sequence",
        "  [down4] rank2 & wit2_4 -> (n2'=0);  // sequence",
        "  [down6] rank2 & wit2_6 -> (n5'=0) & (n7'=0);  // parallel",
        "  [up4hand]  rank3 & wit3_4 & (n2=-2 & n6=-1) -> (n2'=-1) & (n6'=0);",
        "  [up4close] rank3 & wit3_4 & !(n2=-2 & n6=-1) -> (n2'=-1) & (n6'=-1) & (n4'=-2);",
        "  [nature2] rank4 & wit4_2 -> p2 : (n1'=0) & (d2'=1) + (1-p2) : (n3'=0) & (d2'=2);",
    ] {
        assert!(lines.contains(&want), "{want}");
    }
}

#[test]
fn one_task_needs_no_minimum() {
    let text = emit(&tree("(A,3,{x:1})"), "one", "one.yaml", true);
    assert!(code(&text).contains(&"formula t_step = n1>=0 ? d1-n1 : no_time;"));
    assert!(code(&text).contains(&"formula some_psi3 = false;"));
}

#[test]
fn the_history_adds_the_trail_alone() {
    let t = tree("((A,1,{x:1}) ^ (B,2,{x:0.5})), ((C,1,{x:2}) ^[0.5] (D,1,{x:3}))");
    let plain = emit(&t, "both", "both.yaml", false);
    let full = emit(&t, "both", "both.yaml", true);
    let from = match full.find("  // the decision trail") {
        Some(i) => i,
        None => panic!("no trail"),
    };
    let to = match full[from..].find("\n\n") {
        Some(i) => from + i + 2,
        None => panic!("no end"),
    };
    assert_eq!(full[from..to].matches(" : [0..2] init 0;").count(), 2);
    let mut rest = full[..from].to_string() + &full[to..];
    for id in &t.xors {
        for branch in [1, 2] {
            let mark = format!(" & (d{id}'={branch})");
            assert_eq!(rest.matches(&mark).count(), 1);
            rest = rest.replace(&mark, "");
        }
    }
    assert_eq!(rest, plain);
    let t = tree("(A,1,{x:1}) || (B,2,{x:0.5})");
    assert_eq!(emit(&t, "none", "none.yaml", true), emit(&t, "none", "none.yaml", false));
}
