//! The writer of the instance file of a process.
//!
//! Identifiers are assigned by the in-order traversal, one-based: every node
//! of the low subtree numbers below its parent, every node of the high subtree
//! above. `impact_names` lists the names in the order of their first
//! appearance, and entry `i` of every `impact` vector is the value of name `i`,
//! zero where the task does not name it.

use vstd::prelude::*;
use vstd::string::*;
use crate::grammar::{
    pairs_of, process_of, read_whole, size_v, tasks_v, term_of, Ast, Reading, Term,
};
use crate::mdp::{cost_text, fmt_cost, kind_text, kind_word};
use crate::num::{vals, Number};
use crate::text::{decimal, decimal_of, join, joined, signed, signed_of, texts};
use crate::tree::Kind;

verus! {

pub struct Parsed {
    pub yaml: String,
}

/// These lines, each with a line feed after it.
pub open spec fn unlines(ls: Seq<Seq<char>>) -> Seq<char>
    decreases ls.len(),
{
    if ls.len() == 0 {
        Seq::empty()
    } else {
        unlines(ls.drop_last()) + ls.last() + "\n"@
    }
}

pub proof fn unlines_more(a: Seq<Seq<char>>, b: Seq<Seq<char>>)
    ensures
        unlines(a + b) == unlines(a) + unlines(b),
    decreases b.len(),
{
    if b.len() == 0 {
        assert(a + b =~= a);
        assert(unlines(a) + unlines(b) =~= unlines(a));
    } else {
        assert((a + b).drop_last() =~= a + b.drop_last());
        unlines_more(a, b.drop_last());
        assert((a + b).last() == b.last());
        assert(unlines(a + b) =~= unlines(a) + unlines(b));
    }
}

/// These lines, each with a line feed after it.
pub(crate) fn lined(lines: &Vec<String>) -> (r: String)
    ensures
        r@ == unlines(texts(lines@)),
{
    let ghost ls = texts(lines@);
    let mut out = String::new();
    assert(ls.take(0) =~= Seq::empty());
    assert(out@ =~= unlines(ls.take(0)));
    for i in 0..lines.len()
        invariant
            ls == texts(lines@),
            out@ == unlines(ls.take(i as int)),
    {
        out.append(lines[i].as_str());
        out.append("\n");
        proof {
            assert(ls.take(i + 1).drop_last() =~= ls.take(i as int));
            assert(ls.take(i + 1).last() == lines@[i as int]@);
        }
    }
    assert(ls.take(ls.len() as int) =~= ls);
    out
}

/// The indentation of a depth, two spaces each.
pub open spec fn pad_v(depth: nat) -> Seq<char> {
    Seq::new(2 * depth, |i: int| ' ')
}

/// The value an index carries among these impacts, zero where none does.
pub open spec fn value_at<N: Number>(impact: Seq<(nat, N::Value)>, i: int) -> N::Value
    decreases impact.len(),
{
    if impact.len() == 0 {
        N::zero_v()
    } else if impact.last().0 == i {
        impact.last().1
    } else {
        value_at::<N>(impact.drop_last(), i)
    }
}

/// The impact vector of a task.
pub open spec fn vector_of<N: Number>(impact: Seq<(nat, N::Value)>, k: nat) -> Seq<N::Value> {
    Seq::new(k, |i: int| value_at::<N>(impact, i))
}

/// The identifier of the root of a process whose nodes are numbered from
/// `base + 1` on.
pub open spec fn root_id<V>(t: Term<V>, base: nat) -> nat {
    match t {
        Term::Task { .. } => base + 1,
        Term::Op { kind, prob, low, high } => base + size_v(*low) + 1,
    }
}

/// The first two lines of a composition.
pub open spec fn opening_lines<N: Number>(kind: Kind, prob: N::Value, id: nat, depth: nat) -> Seq<
    Seq<char>,
> {
    let pad = pad_v(depth);
    let first = pad + "- "@ + kind_text(kind) + ":"@;
    seq![
        if kind == Kind::Nature {
            first + " "@ + N::show_v(prob)
        } else {
            first
        },
        pad + "  id: "@ + decimal(id),
    ]
}

/// The lines of a process whose nodes are numbered from `base + 1` on.
pub open spec fn term_lines<N: Number>(t: Term<N::Value>, k: nat, base: nat, depth: nat) -> Seq<
    Seq<char>,
>
    decreases t,
{
    let pad = pad_v(depth);
    match t {
        Term::Task { name, duration, impact } => seq![
            pad + "- task: "@ + name,
            pad + "  id: "@ + decimal(base + 1),
            pad + "  duration: "@ + signed(duration as int),
            pad + "  impact: "@ + cost_text::<N>(vector_of::<N>(impact, k)),
        ],
        Term::Op { kind, prob, low, high } => {
            let id = root_id(t, base);
            opening_lines::<N>(kind, prob, id, depth) + seq![pad + "  low:"@] + term_lines::<N>(
                *low,
                k,
                base,
                depth + 2,
            ) + seq![pad + "  high:"@] + term_lines::<N>(*high, k, id, depth + 2)
        },
    }
}

/// The lines above the tree.
pub open spec fn header_lines<V>(t: Term<V>, names: Seq<Seq<char>>) -> Seq<Seq<char>> {
    seq![
        "impact_names: ["@ + joined(names, ", "@) + "]"@,
        "dimensions: "@ + decimal(names.len()),
        "tasks: "@ + decimal(tasks_v(t)),
        "nodes: "@ + decimal(size_v(t)),
        "tree:"@,
    ]
}

/// The instance file of a process.
pub open spec fn yaml_v<N: Number>(t: Term<N::Value>, names: Seq<Seq<char>>) -> Seq<char> {
    unlines(header_lines(t, names) + term_lines::<N>(t, names.len(), 0, 1))
}

fn write_pad(out: &mut String, depth: usize)
    ensures
        final(out)@ == old(out)@ + pad_v(depth as nat),
{
    assert(out@ + pad_v(0) =~= out@);
    for i in 0..depth
        invariant
            out@ =~= old(out)@ + pad_v(i as nat),
    {
        out.push(' ');
        out.push(' ');
    }
}

/// The value an index carries among these impacts.
fn value_of<N: Number>(impact: &Vec<(usize, N)>, i: usize) -> (r: N)
    ensures
        r.value() == value_at::<N>(pairs_of(impact@), i as int),
{
    let ghost ps = pairs_of(impact@);
    let mut r = N::zero();
    assert(ps.take(0) =~= Seq::empty());
    for j in 0..impact.len()
        invariant
            ps == pairs_of(impact@),
            r.value() == value_at::<N>(ps.take(j as int), i as int),
    {
        proof {
            assert(ps.take(j + 1).drop_last() =~= ps.take(j as int));
            assert(ps.take(j + 1).last() == ps[j as int]);
        }
        if impact[j].0 == i {
            r = impact[j].1.dup();
        }
    }
    assert(ps.take(ps.len() as int) =~= ps);
    r
}

fn vector<N: Number>(impact: &Vec<(usize, N)>, k: usize) -> (r: Vec<N>)
    ensures
        vals(r@) == vector_of::<N>(pairs_of(impact@), k as nat),
{
    let mut r: Vec<N> = Vec::new();
    for i in 0..k
        invariant
            r@.len() == i,
            forall|j: int|
                0 <= j < i ==> (#[trigger] r@[j]).value() == value_at::<N>(pairs_of(impact@), j),
    {
        r.push(value_of(impact, i));
    }
    assert(vals(r@) =~= vector_of::<N>(pairs_of(impact@), k as nat));
    r
}

/// The numbers of the nodes and of the tasks.
fn count<N: Number>(ast: &Ast<N>) -> (r: (usize, usize))
    requires
        size_v(term_of(*ast)) <= usize::MAX,
    ensures
        r.0 == size_v(term_of(*ast)),
        r.1 == tasks_v(term_of(*ast)),
        r.1 <= r.0,
    decreases ast,
{
    match ast {
        Ast::Task { .. } => (1, 1),
        Ast::Op { kind, prob, low, high } => {
            let (nl, tl) = count(low);
            let (nh, th) = count(high);
            (nl + nh + 1, tl + th)
        },
    }
}

/// Ends the line that was begun at the end of `start`.
fn end_line(out: &mut String, Ghost(start): Ghost<Seq<char>>, Ghost(line): Ghost<Seq<char>>)
    requires
        old(out)@ == start + line,
    ensures
        final(out)@ == start + unlines(seq![line]),
{
    out.append("\n");
    proof {
        let one = seq![line];
        assert(one.drop_last() =~= Seq::empty());
        assert(unlines(one.drop_last()) =~= Seq::empty());
        assert(out@ =~= start + unlines(one));
    }
}

proof fn one_more(start: Seq<char>, a: Seq<Seq<char>>, line: Seq<char>)
    ensures
        start + unlines(a) + unlines(seq![line]) == start + unlines(a.push(line)),
{
    assert(a.push(line) =~= a + seq![line]);
    unlines_more(a, seq![line]);
    assert(start + unlines(a) + unlines(seq![line]) =~= start + unlines(a + seq![line]));
}

fn write_number_line(out: &mut String, depth: usize, key: &str, n: u128)
    ensures
        final(out)@ == old(out)@ + unlines(seq![pad_v(depth as nat) + key@ + decimal(n as nat)]),
{
    let ghost start = out@;
    write_pad(out, depth);
    out.append(key);
    out.append(decimal_of(n).as_str());
    assert(out@ =~= start + (pad_v(depth as nat) + key@ + decimal(n as nat)));
    end_line(out, Ghost(start), Ghost(pad_v(depth as nat) + key@ + decimal(n as nat)));
}

fn write_text_line(out: &mut String, depth: usize, key: &str, text: &str)
    ensures
        final(out)@ == old(out)@ + unlines(seq![pad_v(depth as nat) + key@ + text@]),
{
    let ghost start = out@;
    write_pad(out, depth);
    out.append(key);
    out.append(text);
    assert(out@ =~= start + (pad_v(depth as nat) + key@ + text@));
    end_line(out, Ghost(start), Ghost(pad_v(depth as nat) + key@ + text@));
}

/// Writes a key alone.
fn write_key_line(out: &mut String, depth: usize, key: &str)
    ensures
        final(out)@ == old(out)@ + unlines(seq![pad_v(depth as nat) + key@]),
{
    let ghost start = out@;
    write_pad(out, depth);
    out.append(key);
    assert(out@ =~= start + (pad_v(depth as nat) + key@));
    end_line(out, Ghost(start), Ghost(pad_v(depth as nat) + key@));
}

fn write_task<N: Number>(
    out: &mut String,
    name: &String,
    duration: i64,
    impact: &Vec<(usize, N)>,
    k: usize,
    id: usize,
    depth: usize,
)
    requires
        id >= 1,
    ensures
        final(out)@ == old(out)@ + unlines(
            term_lines::<N>(
                (Term::Task { name: name@, duration, impact: pairs_of(impact@) }),
                k as nat,
                (id - 1) as nat,
                depth as nat,
            ),
        ),
{
    let ghost start = out@;
    let ghost pad = pad_v(depth as nat);
    let v = vector(impact, k);
    let cost = fmt_cost(v.as_slice());
    write_text_line(out, depth, "- task: ", name.as_str());
    let ghost a1 = seq![pad + "- task: "@ + name@];
    write_number_line(out, depth, "  id: ", id as u128);
    proof {
        one_more(start, a1, pad + "  id: "@ + decimal(id as nat));
    }
    let ghost a2 = a1.push(pad + "  id: "@ + decimal(id as nat));
    write_text_line(out, depth, "  duration: ", signed_of(duration).as_str());
    proof {
        one_more(start, a2, pad + "  duration: "@ + signed(duration as int));
    }
    let ghost a3 = a2.push(pad + "  duration: "@ + signed(duration as int));
    write_text_line(out, depth, "  impact: ", cost.as_str());
    proof {
        one_more(start, a3, pad + "  impact: "@ + cost@);
        assert(a3.push(pad + "  impact: "@ + cost@) =~= term_lines::<N>(
            Term::Task { name: name@, duration, impact: pairs_of(impact@) },
            k as nat,
            (id - 1) as nat,
            depth as nat,
        ));
    }
}

fn write_opening<N: Number>(out: &mut String, kind: Kind, prob: &N, id: usize, depth: usize)
    ensures
        final(out)@ == old(out)@ + unlines(
            opening_lines::<N>(kind, prob.value(), id as nat, depth as nat),
        ),
{
    let ghost start = out@;
    let ghost pad = pad_v(depth as nat);
    let ghost wanted = opening_lines::<N>(kind, prob.value(), id as nat, depth as nat);
    write_pad(out, depth);
    out.append("- ");
    out.append(kind_word(kind));
    out.append(":");
    if kind == Kind::Nature {
        out.append(" ");
        out.append(prob.show().as_str());
    }
    assert(out@ =~= start + wanted[0]);
    end_line(out, Ghost(start), Ghost(wanted[0]));
    write_number_line(out, depth, "  id: ", id as u128);
    proof {
        one_more(start, seq![wanted[0]], wanted[1]);
        assert(seq![wanted[0]].push(wanted[1]) =~= wanted);
    }
}

/// The deepest indentation a process of this many nodes reaches.
spec fn roomy<V>(t: Term<V>, depth: int) -> bool {
    depth + 2 * size_v(t) <= usize::MAX
}

fn emit<N: Number>(ast: &Ast<N>, k: usize, base: usize, depth: usize, out: &mut String)
    requires
        base + size_v(term_of(*ast)) <= usize::MAX,
        roomy(term_of(*ast), depth as int),
    ensures
        final(out)@ == old(out)@ + unlines(
            term_lines::<N>(term_of(*ast), k as nat, base as nat, depth as nat),
        ),
    decreases ast,
{
    let ghost start = out@;
    let ghost pad = pad_v(depth as nat);
    match ast {
        Ast::Task { name, duration, impact } => {
            write_task(out, name, *duration, impact, k, base + 1, depth);
        },
        Ast::Op { kind, prob, low, high } => {
            let (low_nodes, _) = count(low);
            let id = base + low_nodes + 1;
            let ghost a1 = opening_lines::<N>(*kind, prob.value(), id as nat, depth as nat);
            let ghost a2 = a1 + seq![pad + "  low:"@];
            let ghost low_lines = term_lines::<N>(
                term_of(**low),
                k as nat,
                base as nat,
                (depth + 2) as nat,
            );
            let ghost a3 = a2 + low_lines;
            let ghost a4 = a3 + seq![pad + "  high:"@];
            let ghost high_lines = term_lines::<N>(
                term_of(**high),
                k as nat,
                id as nat,
                (depth + 2) as nat,
            );
            write_opening(out, *kind, prob, id, depth);
            write_key_line(out, depth, "  low:");
            proof {
                unlines_more(a1, seq![pad + "  low:"@]);
                assert(out@ =~= start + unlines(a2));
            }
            emit(low, k, base, depth + 2, out);
            proof {
                unlines_more(a2, low_lines);
                assert(out@ =~= start + unlines(a3));
            }
            write_key_line(out, depth, "  high:");
            proof {
                unlines_more(a3, seq![pad + "  high:"@]);
                assert(out@ =~= start + unlines(a4));
            }
            emit(high, k, id, depth + 2, out);
            proof {
                unlines_more(a4, high_lines);
                assert(out@ =~= start + unlines(a4 + high_lines));
                assert(term_lines::<N>(term_of(*ast), k as nat, base as nat, depth as nat) == a4
                    + high_lines);
            }
        },
    }
}

/// Parses the grammar and writes the instance file, identifiers in-order and
/// one-based, `impact_names` in the order of first appearance.
pub fn to_yaml<N: Number>(text: &str) -> (r: Result<Parsed, String>)
    ensures
        match r {
            Ok(p) => process_of::<N>(text.spec_bytes()) matches Ok(q) && p.yaml@ == yaml_v::<N>(
                q.term,
                q.names,
            ),
            Err(e) => process_of::<N>(text.spec_bytes()) == Err::<Reading<N::Value>, Seq<char>>(e@),
        },
{
    let bytes = text.as_bytes();
    assert(bytes@.len() <= usize::MAX) by {
        assert(bytes.len() == bytes@.len());
    }
    let (ast, names) = match read_whole::<N>(bytes) {
        Ok(x) => x,
        Err(e) => {
            return Err(e);
        },
    };
    let ghost t = term_of(ast);
    let ghost ns = texts(names@);
    let (nodes, tasks) = count(&ast);
    let k = names.len();
    let mut out = String::new();
    let ghost start = out@;
    assert(start =~= Seq::empty());
    let list = join(&names, ", ");
    let ghost h = header_lines(t, ns);
    out.append("impact_names: [");
    out.append(list.as_str());
    out.append("]");
    assert(out@ =~= start + h[0]);
    end_line(&mut out, Ghost(start), Ghost(h[0]));
    write_number_line(&mut out, 0, "dimensions: ", k as u128);
    proof {
        assert(pad_v(0) + "dimensions: "@ + decimal(k as nat) =~= h[1]);
        one_more(start, seq![h[0]], h[1]);
    }
    write_number_line(&mut out, 0, "tasks: ", tasks as u128);
    proof {
        assert(pad_v(0) + "tasks: "@ + decimal(tasks as nat) =~= h[2]);
        one_more(start, seq![h[0]].push(h[1]), h[2]);
    }
    write_number_line(&mut out, 0, "nodes: ", nodes as u128);
    proof {
        assert(pad_v(0) + "nodes: "@ + decimal(nodes as nat) =~= h[3]);
        one_more(start, seq![h[0]].push(h[1]).push(h[2]), h[3]);
    }
    write_key_line(&mut out, 0, "tree:");
    proof {
        assert(pad_v(0) + "tree:"@ =~= h[4]);
        one_more(start, seq![h[0]].push(h[1]).push(h[2]).push(h[3]), h[4]);
        assert(seq![h[0]].push(h[1]).push(h[2]).push(h[3]).push(h[4]) =~= h);
    }
    emit(&ast, k, 0, 1, &mut out);
    proof {
        let body = term_lines::<N>(t, k as nat, 0, 1);
        unlines_more(h, body);
        assert(out@ =~= unlines(h + body));
    }
    Ok(Parsed { yaml: out })
}

} // verus!
