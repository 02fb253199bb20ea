//! The grammar of a process.
//!
//!     process ::= region ("," region)* | region op region
//!     region  ::= task | "(" process ")"
//!     op      ::= "->" | "||" | "^" | "^[" prob "]"
//!     task    ::= "(" name "," duration ")"
//!             |   "(" name "," duration "," "{" impacts? "}" ")"
//!     impacts ::= name ":" number ("," name ":" number)*
//!
//! A comma between regions, or `->`, is a sequence; the comma chains and
//! associates to the left. `||` is a parallel composition, `^` a choice and
//! `^[p]` a nature node whose left operand is taken with probability `p` in
//! (0,1). One operator stands between a pair of parentheses, so no precedence
//! has to be fixed, and the outermost parentheses are optional. A duration is a
//! positive integer. The impact map of a task names only the impacts that are
//! strictly positive; a task may omit the map, or write `{}`, both meaning every
//! impact zero. The names are collected over the whole process in the order of
//! their first appearance. `#` starts a comment that runs to the end of the line.

use vstd::prelude::*;
use vstd::string::*;
use crate::num::Number;
use crate::scan::{
    at_byte, eat, eat_v, name, name_v, number, number_v, scan_bounds, sees, skip, skip_bounds,
    skip_v,
};
use crate::text::{cat2, cat3, cat5, decimal, decimal_of, same_text, texts};
use crate::tree::Kind;

verus! {

/// A process, before identifiers exist. The impacts of a task are pairs of an
/// index into the collected names and a value.
pub enum Term<V> {
    Task { name: Seq<char>, duration: i64, impact: Seq<(nat, V)> },
    Op { kind: Kind, prob: V, low: Box<Term<V>>, high: Box<Term<V>> },
}

/// A process as it is read, the place after it, and the names collected so far.
pub struct Reading<V> {
    pub term: Term<V>,
    pub at: int,
    pub names: Seq<Seq<char>>,
}

/// The index of a name, or the number of the names.
pub open spec fn index_of(names: Seq<Seq<char>>, n: Seq<char>) -> int
    decreases names.len(),
{
    if names.len() == 0 {
        0
    } else {
        let i = index_of(names.drop_last(), n);
        if i < names.len() - 1 {
            i
        } else if names.last() == n {
            names.len() - 1
        } else {
            names.len() as int
        }
    }
}

/// The names with this one among them.
pub open spec fn with_name(names: Seq<Seq<char>>, n: Seq<char>) -> Seq<Seq<char>> {
    if index_of(names, n) < names.len() {
        names
    } else {
        names.push(n)
    }
}

/// Whether an impact of this index is among these.
pub open spec fn named<V>(impact: Seq<(nat, V)>, i: int) -> bool {
    exists|j: int| 0 <= j < impact.len() && (#[trigger] impact[j]).0 == i
}

/// What the impact map of a task leaves: the impacts, the place after them and
/// the names collected so far.
pub struct Impacts<V> {
    pub impact: Seq<(nat, V)>,
    pub at: int,
    pub names: Seq<Seq<char>>,
}

/// The impacts of a map, up to the brace that closes it.
pub open spec fn impacts_v<N: Number>(
    b: Seq<u8>,
    at: int,
    task: Seq<char>,
    names: Seq<Seq<char>>,
    impact: Seq<(nat, N::Value)>,
) -> Result<Impacts<N::Value>, Seq<char>>
    decreases b.len() - at,
{
    match name_v(b, at) {
        Err(e) => Err(e),
        Ok((n, p)) => match eat_v(b, p, 0x3a) {
            Err(e) => Err(e),
            Ok(q) => match number_v::<N>(b, q) {
                Err(e) => Err(e),
                Ok((v, r)) => {
                    let all = with_name(names, n);
                    let i = index_of(names, n);
                    let more = impact.push((i as nat, v));
                    let s = skip_v(b, r, false);
                    if N::le_v(v, N::zero_v()) {
                        Err(
                            "the impact "@ + n + " of "@ + task + " is "@ + N::show_v(v)
                                + ", and the map names only what is strictly positive; leave a zero out"@,
                        )
                    } else if named(impact, i) {
                        Err("the task "@ + task + " names the impact "@ + n + " twice"@)
                    } else if sees(b, s, 0x2c) {
                        if at < s {
                            impacts_v::<N>(b, s + 1, task, all, more)
                        } else {
                            arbitrary()
                        }
                    } else {
                        Ok(Impacts { impact: more, at: r, names: all })
                    }
                },
            },
        },
    }
}

/// The impact map of a task, where it has one.
pub open spec fn map_v<N: Number>(
    b: Seq<u8>,
    at: int,
    task: Seq<char>,
    names: Seq<Seq<char>>,
) -> Result<Impacts<N::Value>, Seq<char>> {
    if !sees(b, skip_v(b, at, false), 0x2c) {
        Ok(Impacts { impact: Seq::empty(), at, names })
    } else {
        match eat_v(b, skip_v(b, at, false) + 1, 0x7b) {
            Err(e) => Err(e),
            Ok(p) => {
                let inner = if sees(b, skip_v(b, p, false), 0x7d) {
                    Ok(Impacts { impact: Seq::empty(), at: p, names })
                } else {
                    impacts_v::<N>(b, p, task, names, Seq::empty())
                };
                match inner {
                    Err(e) => Err(e),
                    Ok(m) => match eat_v(b, m.at, 0x7d) {
                        Err(e) => Err(e),
                        Ok(q) => Ok(Impacts { at: q, ..m }),
                    },
                }
            },
        }
    }
}

/// A task, from the place after its parenthesis on.
pub open spec fn task_v<N: Number>(b: Seq<u8>, at: int, names: Seq<Seq<char>>) -> Result<
    Reading<N::Value>,
    Seq<char>,
> {
    match name_v(b, at) {
        Err(e) => Err(e),
        Ok((n, p)) => match eat_v(b, p, 0x2c) {
            Err(e) => Err(e),
            Ok(q) => match number_v::<N>(b, q) {
                Err(e) => Err(e),
                Ok((d, r)) => if N::le_v(d, N::zero_v()) || N::integral_v(d) is None {
                    Err(
                        "the task "@ + n + " carries the duration "@ + N::show_v(d)
                            + ", and a duration is a positive integer"@,
                    )
                } else {
                    match map_v::<N>(b, r, n, names) {
                        Err(e) => Err(e),
                        Ok(m) => match eat_v(b, m.at, 0x29) {
                            Err(e) => Err(e),
                            Ok(end) => Ok(
                                Reading {
                                    term: Term::Task {
                                        name: n,
                                        duration: N::integral_v(d)->0,
                                        impact: m.impact,
                                    },
                                    at: end,
                                    names: m.names,
                                },
                            ),
                        },
                    }
                },
            },
        },
    }
}

/// The operator at a place that is not blank: its kind, the probability it
/// carries and the place after it; none where no operator stands there.
pub open spec fn operator_v<N: Number>(b: Seq<u8>, s: int) -> Result<
    Option<(Kind, N::Value, int)>,
    Seq<char>,
> {
    if sees(b, s, 0x2d) && sees(b, s + 1, 0x3e) {
        Ok(Some((Kind::Sequence, N::zero_v(), s + 2)))
    } else if sees(b, s, 0x7c) && sees(b, s + 1, 0x7c) {
        Ok(Some((Kind::Parallel, N::zero_v(), s + 2)))
    } else if sees(b, s, 0x5e) && sees(b, s + 1, 0x5b) {
        match number_v::<N>(b, s + 2) {
            Err(e) => Err(e),
            Ok((p, q)) => if !(N::lt_v(N::zero_v(), p) && N::lt_v(p, N::one_v())) {
                Err(
                    "a nature node carries "@ + N::show_v(p)
                        + ", and a probability lies in (0,1)"@,
                )
            } else {
                match eat_v(b, q, 0x5d) {
                    Err(e) => Err(e),
                    Ok(r) => Ok(Some((Kind::Nature, p, r))),
                }
            },
        }
    } else if sees(b, s, 0x5e) {
        Ok(Some((Kind::Choice, N::zero_v(), s + 1)))
    } else {
        Ok(None)
    }
}

pub open spec fn composed<V>(kind: Kind, prob: V, low: Reading<V>, high: Reading<V>) -> Reading<V> {
    Reading {
        term: Term::Op { kind, prob, low: Box::new(low.term), high: Box::new(high.term) },
        at: high.at,
        names: high.names,
    }
}

/// A region: a task, or a process between parentheses.
pub open spec fn region_v<N: Number>(b: Seq<u8>, at: int, names: Seq<Seq<char>>) -> Result<
    Reading<N::Value>,
    Seq<char>,
>
    decreases b.len() - at, 0nat,
{
    match eat_v(b, at, 0x28) {
        Err(e) => Err(e),
        Ok(p) => {
            let s = skip_v(b, p, false);
            if sees(b, s, 0x28) {
                if at < s {
                    match process_v::<N>(b, s, names, true) {
                        Err(e) => Err(e),
                        Ok(r) => match eat_v(b, r.at, 0x29) {
                            Err(e) => Err(e),
                            Ok(q) => Ok(Reading { at: q, ..r }),
                        },
                    }
                } else {
                    arbitrary()
                }
            } else {
                task_v::<N>(b, p, names)
            }
        },
    }
}

/// A process, within parentheses or not.
pub open spec fn process_v<N: Number>(
    b: Seq<u8>,
    at: int,
    names: Seq<Seq<char>>,
    inside: bool,
) -> Result<Reading<N::Value>, Seq<char>>
    decreases b.len() - at, 1nat,
{
    match region_v::<N>(b, at, names) {
        Err(e) => Err(e),
        Ok(low) => {
            let s = skip_v(b, low.at, false);
            if sees(b, s, 0x2c) {
                if at < low.at <= b.len() {
                    chain_v::<N>(b, low)
                } else {
                    arbitrary()
                }
            } else {
                match operator_v::<N>(b, s) {
                    Err(e) => Err(e),
                    Ok(Some((kind, prob, p))) => if at < p <= b.len() {
                        match region_v::<N>(b, p, low.names) {
                            Err(e) => Err(e),
                            Ok(high) => Ok(composed(kind, prob, low, high)),
                        }
                    } else {
                        arbitrary()
                    },
                    Ok(None) => if inside && !sees(b, s, 0x29) {
                        Err("expected ->, ||, ^ or ^[p] at byte "@ + decimal(s as nat))
                    } else {
                        Ok(low)
                    },
                }
            }
        },
    }
}

/// The rest of a chain of regions with commas between them.
pub open spec fn chain_v<N: Number>(b: Seq<u8>, low: Reading<N::Value>) -> Result<
    Reading<N::Value>,
    Seq<char>,
>
    decreases b.len() - low.at, 1nat,
{
    let s = skip_v(b, low.at, false);
    if !sees(b, s, 0x2c) {
        Ok(low)
    } else if low.at > s {
        arbitrary()
    } else {
        match region_v::<N>(b, s + 1, low.names) {
            Err(e) => Err(e),
            Ok(high) => if low.at < high.at <= b.len() {
                chain_v::<N>(b, composed(Kind::Sequence, N::zero_v(), low, high))
            } else {
                arbitrary()
            },
        }
    }
}

/// The number of the nodes of a process.
pub open spec fn size_v<V>(t: Term<V>) -> nat
    decreases t,
{
    match t {
        Term::Task { .. } => 1,
        Term::Op { kind, prob, low, high } => size_v(*low) + size_v(*high) + 1,
    }
}

/// The number of the tasks of a process.
pub open spec fn tasks_v<V>(t: Term<V>) -> nat
    decreases t,
{
    match t {
        Term::Task { .. } => 1,
        Term::Op { kind, prob, low, high } => tasks_v(*low) + tasks_v(*high),
    }
}

/// A process and the names its impacts go by, in the order of their first
/// appearance.
pub open spec fn process_of<N: Number>(b: Seq<u8>) -> Result<Reading<N::Value>, Seq<char>> {
    match process_v::<N>(b, 0, Seq::empty(), false) {
        Err(e) => Err(e),
        Ok(r) => {
            let s = skip_v(b, r.at, false);
            if s != b.len() {
                Err("trailing input at byte "@ + decimal(s as nat))
            } else if r.names.len() == 0 {
                Err(
                    "no impact is named anywhere; name at least one, the dimension being at least one"@,
                )
            } else {
                Ok(r)
            }
        },
    }
}

// ---------------------------------------------------------------------------
// the place moves on, within the text
// ---------------------------------------------------------------------------

/// What is read takes two bytes for each of its nodes at least, and two more.
pub open spec fn fits<V>(b: Seq<u8>, at: int, r: Reading<V>) -> bool {
    at + 2 * size_v(r.term) + 2 <= r.at <= b.len()
}

proof fn impacts_advance<N: Number>(
    b: Seq<u8>,
    at: int,
    task: Seq<char>,
    names: Seq<Seq<char>>,
    impact: Seq<(nat, N::Value)>,
)
    requires
        0 <= at <= b.len(),
    ensures
        impacts_v::<N>(b, at, task, names, impact) matches Ok(m) ==> at <= m.at <= b.len(),
    decreases b.len() - at,
{
    scan_bounds::<N>(b, at, 0x3a);
    if name_v(b, at) is Ok {
        let (n, p) = name_v(b, at)->Ok_0;
        scan_bounds::<N>(b, p, 0x3a);
        if eat_v(b, p, 0x3a) is Ok {
            let q = eat_v(b, p, 0x3a)->Ok_0;
            scan_bounds::<N>(b, q, 0x3a);
            if number_v::<N>(b, q) is Ok {
                let (v, r) = number_v::<N>(b, q)->Ok_0;
                skip_bounds(b, r, false);
                let s = skip_v(b, r, false);
                if sees(b, s, 0x2c) {
                    impacts_advance::<N>(
                        b,
                        s + 1,
                        task,
                        with_name(names, n),
                        impact.push((index_of(names, n) as nat, v)),
                    );
                }
            }
        }
    }
}

proof fn map_advances<N: Number>(b: Seq<u8>, at: int, task: Seq<char>, names: Seq<Seq<char>>)
    requires
        0 <= at <= b.len(),
    ensures
        map_v::<N>(b, at, task, names) matches Ok(m) ==> at <= m.at <= b.len(),
{
    skip_bounds(b, at, false);
    let s = skip_v(b, at, false);
    if sees(b, s, 0x2c) {
        scan_bounds::<N>(b, s + 1, 0x7b);
        if eat_v(b, s + 1, 0x7b) is Ok {
            let p = eat_v(b, s + 1, 0x7b)->Ok_0;
            impacts_advance::<N>(b, p, task, names, Seq::empty());
            if sees(b, skip_v(b, p, false), 0x7d) {
                scan_bounds::<N>(b, p, 0x7d);
            } else if impacts_v::<N>(b, p, task, names, Seq::empty()) is Ok {
                let m = impacts_v::<N>(b, p, task, names, Seq::empty())->Ok_0;
                scan_bounds::<N>(b, m.at, 0x7d);
            }
        }
    }
}

proof fn task_advances<N: Number>(b: Seq<u8>, at: int, names: Seq<Seq<char>>)
    requires
        0 <= at <= b.len(),
    ensures
        task_v::<N>(b, at, names) matches Ok(r) ==> at + 3 <= r.at <= b.len() && size_v(r.term) == 1,
{
    scan_bounds::<N>(b, at, 0);
    if name_v(b, at) is Ok {
        let (n, p) = name_v(b, at)->Ok_0;
        scan_bounds::<N>(b, p, 0x2c);
        if eat_v(b, p, 0x2c) is Ok {
            let q = eat_v(b, p, 0x2c)->Ok_0;
            scan_bounds::<N>(b, q, 0);
            if number_v::<N>(b, q) is Ok {
                let (d, r) = number_v::<N>(b, q)->Ok_0;
                map_advances::<N>(b, r, n, names);
                if map_v::<N>(b, r, n, names) is Ok {
                    let m = map_v::<N>(b, r, n, names)->Ok_0;
                    scan_bounds::<N>(b, m.at, 0x29);
                }
            }
        }
    }
}

pub proof fn operator_advances<N: Number>(b: Seq<u8>, s: int)
    requires
        0 <= s <= b.len(),
    ensures
        operator_v::<N>(b, s) matches Ok(Some(o)) ==> s < o.2 <= b.len(),
{
    if s + 2 <= b.len() {
        scan_bounds::<N>(b, s + 2, 0x5d);
        if number_v::<N>(b, s + 2) is Ok {
            scan_bounds::<N>(b, number_v::<N>(b, s + 2)->Ok_0.1, 0x5d);
        }
    }
}

pub proof fn region_advances<N: Number>(b: Seq<u8>, at: int, names: Seq<Seq<char>>)
    requires
        0 <= at <= b.len(),
    ensures
        region_v::<N>(b, at, names) matches Ok(r) ==> fits(b, at, r),
    decreases b.len() - at, 0nat,
{
    scan_bounds::<N>(b, at, 0x28);
    if eat_v(b, at, 0x28) is Ok {
        let p = eat_v(b, at, 0x28)->Ok_0;
        skip_bounds(b, p, false);
        let s = skip_v(b, p, false);
        if sees(b, s, 0x28) {
            process_advances::<N>(b, s, names, true);
            if process_v::<N>(b, s, names, true) is Ok {
                scan_bounds::<N>(b, process_v::<N>(b, s, names, true)->Ok_0.at, 0x29);
            }
        } else {
            task_advances::<N>(b, p, names);
        }
    }
}

pub proof fn process_advances<N: Number>(
    b: Seq<u8>,
    at: int,
    names: Seq<Seq<char>>,
    inside: bool,
)
    requires
        0 <= at <= b.len(),
    ensures
        process_v::<N>(b, at, names, inside) matches Ok(r) ==> fits(b, at, r),
    decreases b.len() - at, 1nat,
{
    region_advances::<N>(b, at, names);
    if region_v::<N>(b, at, names) is Ok {
        let low = region_v::<N>(b, at, names)->Ok_0;
        skip_bounds(b, low.at, false);
        let s = skip_v(b, low.at, false);
        if sees(b, s, 0x2c) {
            chain_advances::<N>(b, at, low);
        } else {
            operator_advances::<N>(b, s);
            if let Ok(Some(o)) = operator_v::<N>(b, s) {
                region_advances::<N>(b, o.2, low.names);
            }
        }
    }
}

proof fn chain_advances<N: Number>(b: Seq<u8>, at: int, low: Reading<N::Value>)
    requires
        0 <= at < low.at,
        fits(b, at, low),
    ensures
        chain_v::<N>(b, low) matches Ok(r) ==> fits(b, at, r),
    decreases b.len() - low.at, 1nat,
{
    skip_bounds(b, low.at, false);
    let s = skip_v(b, low.at, false);
    if sees(b, s, 0x2c) {
        region_advances::<N>(b, s + 1, low.names);
        if region_v::<N>(b, s + 1, low.names) is Ok {
            let high = region_v::<N>(b, s + 1, low.names)->Ok_0;
            chain_advances::<N>(b, at, composed(Kind::Sequence, N::zero_v(), low, high));
        }
    }
}

// ---------------------------------------------------------------------------
// the reader of the grammar
// ---------------------------------------------------------------------------

/// One node of the parsed process, before identifiers exist.
pub(crate) enum Ast<N> {
    Task { name: String, duration: i64, impact: Vec<(usize, N)> },
    Op { kind: Kind, prob: N, low: Box<Ast<N>>, high: Box<Ast<N>> },
}

pub(crate) open spec fn pairs_of<N: Number>(v: Seq<(usize, N)>) -> Seq<(nat, N::Value)> {
    Seq::new(v.len(), |i: int| (v[i].0 as nat, v[i].1.value()))
}

pub(crate) open spec fn term_of<N: Number>(a: Ast<N>) -> Term<N::Value>
    decreases a,
{
    match a {
        Ast::Task { name, duration, impact } => Term::Task {
            name: name@,
            duration,
            impact: pairs_of(impact@),
        },
        Ast::Op { kind, prob, low, high } => Term::Op {
            kind,
            prob: prob.value(),
            low: Box::new(term_of(*low)),
            high: Box::new(term_of(*high)),
        },
    }
}

fn position(names: &Vec<String>, n: &str) -> (r: usize)
    ensures
        r == index_of(texts(names@), n@),
        r <= names@.len(),
{
    let ghost ns = texts(names@);
    let mut r: usize = 0;
    let mut found = false;
    assert(ns.take(0) =~= Seq::empty());
    for i in 0..names.len()
        invariant
            ns == texts(names@),
            r == index_of(ns.take(i as int), n@),
            found == (r < i),
            r <= i,
    {
        proof {
            assert(ns.take(i + 1).drop_last() =~= ns.take(i as int));
            assert(ns.take(i + 1).last() == names@[i as int]@);
        }
        if !found {
            if same_text(names[i].as_str(), n) {
                found = true;
            } else {
                r = r + 1;
            }
        }
    }
    assert(ns.take(ns.len() as int) =~= ns);
    r
}

fn is_named<N: Number>(impact: &Vec<(usize, N)>, i: usize) -> (r: bool)
    ensures
        r == named(pairs_of(impact@), i as int),
{
    let ghost ps = pairs_of(impact@);
    for j in 0..impact.len()
        invariant
            ps == pairs_of(impact@),
            forall|l: int| 0 <= l < j ==> (#[trigger] ps[l]).0 != i,
    {
        if impact[j].0 == i {
            assert(ps[j as int].0 == i);
            return true;
        }
    }
    false
}

fn read_impacts<N: Number>(
    b: &[u8],
    start: usize,
    task: &str,
    names: &mut Vec<String>,
) -> (r: Result<(Vec<(usize, N)>, usize), String>)
    requires
        start <= b@.len(),
    ensures
        match r {
            Ok((v, at)) => impacts_v::<N>(
                b@,
                start as int,
                task@,
                texts(old(names)@),
                Seq::empty(),
            ) == Ok::<Impacts<N::Value>, Seq<char>>(
                Impacts { impact: pairs_of(v@), at: at as int, names: texts(final(names)@) },
            ) && start <= at <= b@.len(),
            Err(e) => impacts_v::<N>(b@, start as int, task@, texts(old(names)@), Seq::empty())
                == Err::<Impacts<N::Value>, Seq<char>>(e@),
        },
{
    let mut impact: Vec<(usize, N)> = Vec::new();
    let mut at = start;
    let ghost whole = impacts_v::<N>(b@, start as int, task@, texts(names@), Seq::empty());
    assert(pairs_of(impact@) =~= Seq::empty());
    loop
        invariant
            start <= at <= b@.len(),
            whole == impacts_v::<N>(b@, start as int, task@, texts(old(names)@), Seq::empty()),
            whole == impacts_v::<N>(b@, at as int, task@, texts(names@), pairs_of(impact@)),
        decreases b@.len() - at,
    {
        let (n, p) = match name(b, at) {
            Ok(x) => x,
            Err(e) => {
                return Err(e);
            },
        };
        let q = match eat(b, p, 0x3a) {
            Ok(q) => q,
            Err(e) => {
                return Err(e);
            },
        };
        let (v, next) = match number::<N>(b, q) {
            Ok(x) => x,
            Err(e) => {
                return Err(e);
            },
        };
        if v.le(&N::zero()) {
            let m = cat5("the impact ", n.as_str(), " of ", task, " is ");
            return Err(
                cat3(
                    m.as_str(),
                    v.show().as_str(),
                    ", and the map names only what is strictly positive; leave a zero out",
                ),
            );
        }
        let i = position(names, n.as_str());
        let ghost known = texts(names@);
        if is_named(&impact, i) {
            return Err(cat5("the task ", task, " names the impact ", n.as_str(), " twice"));
        }
        if i == names.len() {
            let ghost word = n@;
            names.push(n);
            assert(texts(names@) =~= known.push(word));
        }
        let ghost before = pairs_of(impact@);
        let ghost one = v.value();
        impact.push((i, v));
        assert(pairs_of(impact@) =~= before.push((i as nat, one)));
        let s = skip(b, next);
        if at_byte(b, s, 0x2c) {
            assert(b.len() == b@.len());
            at = s + 1;
        } else {
            return Ok((impact, next));
        }
    }
}

fn read_map<N: Number>(b: &[u8], at: usize, task: &str, names: &mut Vec<String>) -> (r: Result<
    (Vec<(usize, N)>, usize),
    String,
>)
    requires
        at <= b@.len(),
    ensures
        match r {
            Ok((v, end)) => map_v::<N>(b@, at as int, task@, texts(old(names)@)) == Ok::<
                Impacts<N::Value>,
                Seq<char>,
            >(Impacts { impact: pairs_of(v@), at: end as int, names: texts(final(names)@) }) && at
                <= end <= b@.len(),
            Err(e) => map_v::<N>(b@, at as int, task@, texts(old(names)@)) == Err::<
                Impacts<N::Value>,
                Seq<char>,
            >(e@),
        },
{
    let none: Vec<(usize, N)> = Vec::new();
    assert(pairs_of(none@) =~= Seq::empty());
    let s = skip(b, at);
    if !at_byte(b, s, 0x2c) {
        return Ok((none, at));
    }
    assert(b.len() == b@.len());
    let p = match eat(b, s + 1, 0x7b) {
        Ok(p) => p,
        Err(e) => {
            return Err(e);
        },
    };
    let (impact, next) = if at_byte(b, skip(b, p), 0x7d) {
        (none, p)
    } else {
        match read_impacts::<N>(b, p, task, names) {
            Ok(x) => x,
            Err(e) => {
                return Err(e);
            },
        }
    };
    match eat(b, next, 0x7d) {
        Ok(q) => Ok((impact, q)),
        Err(e) => Err(e),
    }
}

/// A task: name, duration, and an optional impact map.
fn read_task<N: Number>(b: &[u8], at: usize, names: &mut Vec<String>) -> (r: Result<
    (Ast<N>, usize),
    String,
>)
    requires
        at <= b@.len(),
    ensures
        match r {
            Ok((a, end)) => task_v::<N>(b@, at as int, texts(old(names)@)) == Ok::<
                Reading<N::Value>,
                Seq<char>,
            >(Reading { term: term_of(a), at: end as int, names: texts(final(names)@) }) && at < end
                <= b@.len(),
            Err(e) => task_v::<N>(b@, at as int, texts(old(names)@)) == Err::<
                Reading<N::Value>,
                Seq<char>,
            >(e@),
        },
{
    let (n, p) = match name(b, at) {
        Ok(x) => x,
        Err(e) => {
            return Err(e);
        },
    };
    let q = match eat(b, p, 0x2c) {
        Ok(q) => q,
        Err(e) => {
            return Err(e);
        },
    };
    let (d, next) = match number::<N>(b, q) {
        Ok(x) => x,
        Err(e) => {
            return Err(e);
        },
    };
    let whole = d.integral();
    if d.le(&N::zero()) || whole.is_none() {
        return Err(
            cat5(
                "the task ",
                n.as_str(),
                " carries the duration ",
                d.show().as_str(),
                ", and a duration is a positive integer",
            ),
        );
    }
    let duration = match whole {
        Some(x) => x,
        None => 0,
    };
    let (impact, end) = match read_map::<N>(b, next, n.as_str(), names) {
        Ok(x) => x,
        Err(e) => {
            return Err(e);
        },
    };
    match eat(b, end, 0x29) {
        Ok(q) => Ok((Ast::Task { name: n, duration, impact }, q)),
        Err(e) => Err(e),
    }
}

fn read_operator<N: Number>(b: &[u8], s: usize) -> (r: Result<Option<(Kind, N, usize)>, String>)
    requires
        s <= b@.len(),
    ensures
        match r {
            Ok(Some((kind, p, at))) => operator_v::<N>(b@, s as int) == Ok::<
                Option<(Kind, N::Value, int)>,
                Seq<char>,
            >(Some((kind, p.value(), at as int))) && s < at <= b@.len(),
            Ok(None) => operator_v::<N>(b@, s as int) == Ok::<
                Option<(Kind, N::Value, int)>,
                Seq<char>,
            >(None),
            Err(e) => operator_v::<N>(b@, s as int) == Err::<
                Option<(Kind, N::Value, int)>,
                Seq<char>,
            >(e@),
        },
{
    if s >= b.len() {
        return Ok(None);
    }
    let after = s + 1;
    if at_byte(b, s, 0x2d) && at_byte(b, after, 0x3e) {
        Ok(Some((Kind::Sequence, N::zero(), after + 1)))
    } else if at_byte(b, s, 0x7c) && at_byte(b, after, 0x7c) {
        Ok(Some((Kind::Parallel, N::zero(), after + 1)))
    } else if at_byte(b, s, 0x5e) && at_byte(b, after, 0x5b) {
        let (p, q) = match number::<N>(b, after + 1) {
            Ok(x) => x,
            Err(e) => {
                return Err(e);
            },
        };
        if !(N::zero().lt(&p) && p.lt(&N::one())) {
            return Err(
                cat3(
                    "a nature node carries ",
                    p.show().as_str(),
                    ", and a probability lies in (0,1)",
                ),
            );
        }
        match eat(b, q, 0x5d) {
            Ok(at) => Ok(Some((Kind::Nature, p, at))),
            Err(e) => Err(e),
        }
    } else if at_byte(b, s, 0x5e) {
        Ok(Some((Kind::Choice, N::zero(), after)))
    } else {
        Ok(None)
    }
}

fn read_region<N: Number>(b: &[u8], at: usize, names: &mut Vec<String>) -> (r: Result<
    (Ast<N>, usize),
    String,
>)
    requires
        at <= b@.len(),
    ensures
        match r {
            Ok((a, end)) => region_v::<N>(b@, at as int, texts(old(names)@)) == Ok::<
                Reading<N::Value>,
                Seq<char>,
            >(Reading { term: term_of(a), at: end as int, names: texts(final(names)@) }),
            Err(e) => region_v::<N>(b@, at as int, texts(old(names)@)) == Err::<
                Reading<N::Value>,
                Seq<char>,
            >(e@),
        },
    decreases b@.len() - at, 0nat,
{
    let p = match eat(b, at, 0x28) {
        Ok(p) => p,
        Err(e) => {
            return Err(e);
        },
    };
    let s = skip(b, p);
    if at_byte(b, s, 0x28) {
        proof {
            process_advances::<N>(b@, s as int, texts(names@), true);
        }
        let (a, next) = match read_process::<N>(b, s, names, true) {
            Ok(x) => x,
            Err(e) => {
                return Err(e);
            },
        };
        match eat(b, next, 0x29) {
            Ok(q) => Ok((a, q)),
            Err(e) => Err(e),
        }
    } else {
        read_task(b, p, names)
    }
}

fn read_process<N: Number>(b: &[u8], at: usize, names: &mut Vec<String>, inside: bool) -> (r: Result<
    (Ast<N>, usize),
    String,
>)
    requires
        at <= b@.len(),
    ensures
        match r {
            Ok((a, end)) => process_v::<N>(b@, at as int, texts(old(names)@), inside) == Ok::<
                Reading<N::Value>,
                Seq<char>,
            >(Reading { term: term_of(a), at: end as int, names: texts(final(names)@) }),
            Err(e) => process_v::<N>(b@, at as int, texts(old(names)@), inside) == Err::<
                Reading<N::Value>,
                Seq<char>,
            >(e@),
        },
    decreases b@.len() - at, 1nat,
{
    proof {
        region_advances::<N>(b@, at as int, texts(names@));
    }
    let (low, next) = match read_region::<N>(b, at, names) {
        Ok(x) => x,
        Err(e) => {
            return Err(e);
        },
    };
    let ghost first = Reading { term: term_of(low), at: next as int, names: texts(names@) };
    proof {
        assert(fits(b@, at as int, first));
        size_positive(first.term);
    }
    let s = skip(b, next);
    if at_byte(b, s, 0x2c) {
        return read_chain(b, at, low, next, names);
    }
    match read_operator::<N>(b, s) {
        Err(e) => Err(e),
        Ok(Some((kind, prob, p))) => {
            match read_region::<N>(b, p, names) {
                Err(e) => Err(e),
                Ok((high, end)) => {
                    let a = Ast::Op { kind, prob, low: Box::new(low), high: Box::new(high) };
                    Ok((a, end))
                },
            }
        },
        Ok(None) => {
            if inside && !at_byte(b, s, 0x29) {
                Err(cat2("expected ->, ||, ^ or ^[p] at byte ", decimal_of(s as u128).as_str()))
            } else {
                Ok((low, next))
            }
        },
    }
}

proof fn size_positive<V>(t: Term<V>)
    ensures
        size_v(t) >= 1,
{
}

/// Reads the rest of a chain whose first regions were read up to `start`.
fn read_chain<N: Number>(
    b: &[u8],
    at: usize,
    first: Ast<N>,
    start: usize,
    names: &mut Vec<String>,
) -> (r: Result<(Ast<N>, usize), String>)
    requires
        at < start <= b@.len(),
        fits(
            b@,
            at as int,
            (Reading { term: term_of(first), at: start as int, names: texts(old(names)@) }),
        ),
    ensures
        ({
            let low = Reading {
                term: term_of(first),
                at: start as int,
                names: texts(old(names)@),
            };
            match r {
                Ok((a, end)) => chain_v::<N>(b@, low) == Ok::<Reading<N::Value>, Seq<char>>(
                    Reading { term: term_of(a), at: end as int, names: texts(final(names)@) },
                ),
                Err(e) => chain_v::<N>(b@, low) == Err::<Reading<N::Value>, Seq<char>>(e@),
            }
        }),
    decreases b@.len() - start, 1nat,
{
    let ghost low = Reading { term: term_of(first), at: start as int, names: texts(names@) };
    let ghost whole = chain_v::<N>(b@, low);
    let mut term = first;
    let mut next = start;
    loop
        invariant
            at < start <= next <= b@.len(),
            whole == chain_v::<N>(b@, low),
            low == (Reading {
                term: term_of(first),
                at: start as int,
                names: texts(old(names)@),
            }),
            fits(
                b@,
                at as int,
                (Reading { term: term_of(term), at: next as int, names: texts(names@) }),
            ),
            whole == chain_v::<N>(
                b@,
                (Reading { term: term_of(term), at: next as int, names: texts(names@) }),
            ),
        decreases b@.len() - next,
    {
        let s = skip(b, next);
        if !at_byte(b, s, 0x2c) {
            return Ok((term, next));
        }
        assert(b.len() == b@.len());
        proof {
            region_advances::<N>(b@, s + 1, texts(names@));
        }
        match read_region::<N>(b, s + 1, names) {
            Err(e) => {
                return Err(e);
            },
            Ok((high, end)) => {
                proof {
                    size_positive(term_of(high));
                }
                term = Ast::Op {
                    kind: Kind::Sequence,
                    prob: N::zero(),
                    low: Box::new(term),
                    high: Box::new(high),
                };
                next = end;
            },
        }
    }
}

/// Reads a process and collects its names.
pub(crate) fn read_whole<N: Number>(b: &[u8]) -> (r: Result<(Ast<N>, Vec<String>), String>)
    ensures
        match r {
            Ok((a, names)) => {
                &&& process_of::<N>(b@) is Ok
                &&& process_of::<N>(b@)->Ok_0.term == term_of(a)
                &&& process_of::<N>(b@)->Ok_0.names == texts(names@)
                &&& 2 * size_v(term_of(a)) + 2 <= b@.len()
            },
            Err(e) => process_of::<N>(b@) == Err::<Reading<N::Value>, Seq<char>>(e@),
        },
{
    let mut names: Vec<String> = Vec::new();
    assert(texts(names@) =~= Seq::empty());
    proof {
        process_advances::<N>(b@, 0, Seq::empty(), false);
    }
    let (a, next) = match read_process::<N>(b, 0, &mut names, false) {
        Ok(x) => x,
        Err(e) => {
            return Err(e);
        },
    };
    let s = skip(b, next);
    if s != b.len() {
        return Err(cat2("trailing input at byte ", decimal_of(s as u128).as_str()));
    }
    if names.len() == 0 {
        return Err(
            String::from_str(
                "no impact is named anywhere; name at least one, the dimension being at least one",
            ),
        );
    }
    Ok((a, names))
}

} // verus!
