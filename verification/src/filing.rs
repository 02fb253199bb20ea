//! Process files: what a file says is what is read of it.

use vstd::prelude::*;
use vstd::string::*;
use crate::layout::{joined_ends, list_back, natural_back, solid, tidy, trim_tidy, without};
use crate::num::{exact, Number};
use crate::reader::{
    arena_v, blank_v, chance_v, fault_at, field_v, grown_v, holds, kind_of, key_v, last_of,
    name_list, numbers_v, names_v, stray_v, twice_v, vector_v, vertex_of, window_v, with_key, Entry,
    Fault, Fields, Head, ParseError, Subtree,
};
use crate::semantics::{spans, Vertex};
use crate::text::{decimal, joined};
use crate::tree::{task_ids, task_ids_range, Kind};
use crate::words::{integer_v, natural_v, shed_end, shed_start, split_v, trim_v};
use crate::writer::vector_of;

verus! {

// ---------------------------------------------------------------------------
// the header
// ---------------------------------------------------------------------------

proof fn keys_apart()
    ensures
        "nested"@.len() == 6,
        "nested"@[0] == 'n' && "nested"@[1] == 'e',
        "independent"@[0] == 'i' && "independent"@[1] == 'n',
        "process_number"@[0] == 'p',
        "dimensions"@[0] == 'd',
        "seed"@[0] == 's' && "seed"@[1] == 'e',
        "tasks"@[0] == 't',
        "nodes"@[0] == 'n' && "nodes"@[1] == 'o',
        "max_duration"@[0] == 'm' && "max_duration"@[1] == 'a',
        "impact_names"@[0] == 'i' && "impact_names"@[1] == 'm',
        "mode"@[0] == 'm' && "mode"@[1] == 'o',
        "xor_root_kind"@[0] == 'x',
        "source"@[0] == 's' && "source"@[1] == 'o',
        "expression"@[0] == 'e',
{
    reveal_strlit("nested");
    reveal_strlit("independent");
    reveal_strlit("process_number");
    reveal_strlit("dimensions");
    reveal_strlit("seed");
    reveal_strlit("tasks");
    reveal_strlit("nodes");
    reveal_strlit("max_duration");
    reveal_strlit("impact_names");
    reveal_strlit("mode");
    reveal_strlit("xor_root_kind");
    reveal_strlit("source");
    reveal_strlit("expression");
}

/// A number of the header goes under its key, and nothing else changes.
pub proof fn numbers_are_filed(h: Head, n: u32, seed: u64, k: usize, at: int)
    ensures
        with_key(h, "nested"@, decimal(n as nat), at) == Ok::<_, Fault>(
            Head { nested: n, ..h },
        ),
        with_key(h, "independent"@, decimal(n as nat), at) == Ok::<_, Fault>(
            Head { independent: n, ..h },
        ),
        with_key(h, "process_number"@, decimal(n as nat), at) == Ok::<_, Fault>(
            Head { process_number: n, ..h },
        ),
        with_key(h, "max_duration"@, decimal(n as nat), at) == Ok::<_, Fault>(
            Head { max_duration: n, ..h },
        ),
        with_key(h, "tasks"@, decimal(n as nat), at) == Ok::<_, Fault>(
            Head { tasks: Some(n), ..h },
        ),
        with_key(h, "nodes"@, decimal(n as nat), at) == Ok::<_, Fault>(
            Head { nodes: Some(n), ..h },
        ),
        with_key(h, "dimensions"@, decimal(k as nat), at) == Ok::<_, Fault>(
            Head { dimensions: Some(k), ..h },
        ),
        with_key(h, "seed"@, decimal(seed as nat), at) == Ok::<_, Fault>(
            Head { seed, ..h },
        ),
{
    keys_apart();
    natural_back(n as nat, u64::MAX as nat);
    natural_back(k as nat, u64::MAX as nat);
    natural_back(seed as nat, u64::MAX as nat);
}

proof fn ends_shed(x: Seq<char>, a: char, b: char)
    requires
        x.len() > 0,
        x[0] != a,
        x.last() != b,
    ensures
        shed_end(shed_start(seq![a] + x + seq![b], a), b) == x,
{
    let t = seq![a] + x + seq![b];
    assert(t.skip(1) =~= x + seq![b]);
    assert(shed_start(x + seq![b], a) == x + seq![b]);
    assert(shed_start(t, a) == x + seq![b]);
    assert((x + seq![b]).drop_last() =~= x);
    assert(shed_end(x, b) == x);
}

proof fn names_kept(ps: Seq<Seq<char>>, names: Seq<Seq<char>>, n: int)
    requires
        0 <= n <= ps.len(),
        ps.len() == names.len(),
        forall|i: int| 0 <= i < ps.len() ==> trim_v(#[trigger] ps[i]) == names[i],
        forall|i: int| 0 <= i < names.len() ==> (#[trigger] names[i]).len() > 0,
    ensures
        names_v(ps, n) == names.take(n),
    decreases n,
{
    if n > 0 {
        names_kept(ps, names, n - 1);
        assert(trim_v(ps[n - 1]) == names[n - 1]);
        assert(names.take(n) =~= names.take(n - 1).push(names[n - 1]));
    } else {
        assert(names.take(0) =~= Seq::<Seq<char>>::empty());
    }
}

/// A text of the header goes under its key, and nothing else changes: as it
/// stands, but for an expression, which stands between quotes, and for the names
/// of the impacts, which are a list between brackets.
pub proof fn texts_are_filed(h: Head, x: Seq<char>, names: Seq<Seq<char>>, at: int)
    requires
        names.len() > 0,
        forall|i: int|
            0 <= i < names.len() ==> solid(#[trigger] names[i]) && without(names[i], ',') && without(
                names[i],
                '[',
            ) && without(names[i], ']'),
    ensures
        with_key(h, "mode"@, x, at) == Ok::<_, Fault>(Head { mode: x, ..h }),
        with_key(h, "xor_root_kind"@, x, at) == Ok::<_, Fault>(
            Head { xor_root_kind: x, ..h },
        ),
        with_key(h, "source"@, x, at) == Ok::<_, Fault>(Head { source: x, ..h }),
        x.len() > 0 && x[0] != '"' && x.last() != '"' ==> with_key(
            h,
            "expression"@,
            seq!['"'] + x + seq!['"'],
            at,
        ) == Ok::<_, Fault>(Head { expression: x, ..h }),
        with_key(h, "impact_names"@, seq!['['] + joined(names, seq![',', ' ']) + seq![']'], at) == Ok::<
            _,
            Fault,
        >(Head { impact_names: names, ..h }),
{
    keys_apart();
    if x.len() > 0 && x[0] != '"' && x.last() != '"' {
        ends_shed(x, '"', '"');
    }
    let all = joined(names, seq![',', ' ']);
    assert forall|i: int| 0 <= i < names.len() implies (#[trigger] names[i]).len() > 0 && tidy(names[i]) by {
        assert(solid(names[i]));
    }
    joined_ends(names, seq![',', ' ']);
    assert(without(names[0], '['));
    assert(without(names[names.len() - 1], ']'));
    assert(names.last() == names[names.len() - 1]);
    ends_shed(all, '[', ']');
    list_back(names);
    let ps = split_v(all, ',', 0);
    names_kept(ps, names, ps.len() as int);
    assert(names.take(names.len() as int) =~= names);
    assert(name_list(seq!['['] + all + seq![']']) == names);
}

/// A header is refused where a key is none of these, and where a number is none;
/// the texts are never refused.
pub proof fn headers_are_refused(h: Head, key: Seq<char>, value: Seq<char>, at: int)
    ensures
        ({
            let number = {
                ||| key == "nested"@
                ||| key == "independent"@
                ||| key == "process_number"@
                ||| key == "dimensions"@
                ||| key == "seed"@
                ||| key == "tasks"@
                ||| key == "nodes"@
                ||| key == "max_duration"@
            };
            let text = {
                ||| key == "impact_names"@
                ||| key == "mode"@
                ||| key == "xor_root_kind"@
                ||| key == "source"@
                ||| key == "expression"@
            };
            with_key(h, key, value, at) is Ok <==> text || (number && natural_v(
                value,
                u64::MAX as nat,
            ) is Some)
        }),
{
    keys_apart();
}

/// An instance is named on the first line, behind a number sign and a space; a
/// file without that line has no name, and its header begins at once.
pub proof fn instances_are_named(name: Seq<char>, ls: Seq<Seq<char>>)
    requires
        tidy(name),
    ensures
        ({
            let (h, at) = key_v(seq![seq!['#', ' '] + name] + ls);
            h.key == name && at == 1
        }),
        ls.len() > 0 && ls[0].len() > 0 && ls[0][0] != '#' ==> key_v(ls).0.key.len() == 0 && key_v(
            ls,
        ).1 == 0,
{
    reveal_strlit("# ");
    let first = seq!['#', ' '] + name;
    let all = seq![first] + ls;
    assert(all[0] == first);
    assert("# "@ =~= seq!['#', ' ']);
    assert(first.take(2) =~= seq!['#', ' ']);
    assert(first.skip(2) =~= name);
    trim_tidy(name);
    if ls.len() > 0 && ls[0].len() > 0 && ls[0][0] != '#' {
        if ls[0].len() >= 2 {
            assert(ls[0].take(2)[0] == ls[0][0]);
        }
    }
}

/// A fault is told with the number of its line, counted from one.
pub proof fn faults_name_lines(at: usize, e: ParseError)
    requires
        at < usize::MAX,
        e.line == fault_at(at as int, e.message@).line,
    ensures
        e.line == at + 1,
        e.text() == "line "@ + decimal((at + 1) as nat) + ": "@ + e.message@,
{
}

/// Blank lines are passed over, all of them and no others.
pub proof fn blanks_are_passed(ls: Seq<Seq<char>>, at: int)
    requires
        0 <= at <= ls.len(),
    ensures
        at <= blank_v(ls, at) <= ls.len(),
        forall|i: int| at <= i < blank_v(ls, at) ==> trim_v(#[trigger] ls[i]).len() == 0,
        blank_v(ls, at) < ls.len() ==> trim_v(ls[blank_v(ls, at)]).len() > 0,
    decreases ls.len() - at,
{
    if at < ls.len() && trim_v(ls[at]).len() == 0 {
        blanks_are_passed(ls, at + 1);
    }
}

// ---------------------------------------------------------------------------
// the nodes
// ---------------------------------------------------------------------------

proof fn kinds_apart()
    ensures
        "task"@[0] == 't',
        "sequence"@[0] == 's',
        "parallel"@[0] == 'p',
        "choice"@[0] == 'c',
        "nature"@[0] == 'n',
{
    reveal_strlit("task");
    reveal_strlit("sequence");
    reveal_strlit("parallel");
    reveal_strlit("choice");
    reveal_strlit("nature");
}

/// The words of the kinds: each names one kind, and nothing else names any.
pub proof fn kinds_are_named(word: Seq<char>)
    ensures
        kind_of(word) == Some(Kind::Task) <==> word == "task"@,
        kind_of(word) == Some(Kind::Sequence) <==> word == "sequence"@,
        kind_of(word) == Some(Kind::Parallel) <==> word == "parallel"@,
        kind_of(word) == Some(Kind::Choice) <==> word == "choice"@,
        kind_of(word) == Some(Kind::Nature) <==> word == "nature"@,
{
    kinds_apart();
}

/// A duration is a whole number from one to 127, an identifier a whole number of
/// thirty-two bits; each goes into its own field, and nothing else changes.
pub proof fn fields_are_filed<N: Number>(f: Fields<N::Value>, value: Seq<char>, at: int)
    ensures
        match field_v::<N>(f, "duration"@, value, at) {
            Ok(g) => {
                &&& g == Fields { duration: g.duration, ..f }
                &&& 1 <= g.duration <= 127
                &&& integer_v(value, 0x7fff_ffff) == Some(g.duration as int)
            },
            Err(_) => !(integer_v(value, 0x7fff_ffff) matches Some(d) && 1 <= d <= 127),
        },
        match field_v::<N>(f, "id"@, value, at) {
            Ok(g) => {
                &&& g == Fields { id: g.id, ..f }
                &&& g.id matches Some(n) && natural_v(value, 0xffff_ffff) == Some(n as nat)
            },
            Err(_) => natural_v(value, 0xffff_ffff) is None,
        },
        match field_v::<N>(f, "impact"@, value, at) {
            Ok(g) => g == (Fields { impact: g.impact, ..f }) && vector_v::<N>(value, at) == Ok::<
                _,
                Fault,
            >(g.impact->0),
            Err(_) => vector_v::<N>(value, at) is Err,
        },
{
    reveal_strlit("duration");
    reveal_strlit("id");
    reveal_strlit("impact");
    assert("duration"@[0] == 'd' && "id"@.len() == 2 && "impact"@.len() == 6 && "impact"@[0] == 'i');
}

/// No other field takes one line.
pub proof fn other_fields_are_refused<N: Number>(
    f: Fields<N::Value>,
    key: Seq<char>,
    value: Seq<char>,
    at: int,
)
    requires
        key != "duration"@,
        key != "id"@,
        key != "impact"@,
    ensures
        field_v::<N>(f, key, value, at) is Err,
{
}

/// A probability is a number above zero and below one.
pub proof fn chances_are_proper<N: Number>(value: Seq<char>, at: int)
    requires
        exact::<N>(),
    ensures
        match chance_v::<N>(value, at) {
            Ok(p) => N::read_v(value) == Some(p) && (0 as real) < N::real_of(p) < (1 as real),
            Err(_) => !(N::read_v(value) matches Some(p) && (0 as real) < N::real_of(p) < (1 as real)),
        },
{
}

proof fn numbers_kept<N: Number>(ps: Seq<Seq<char>>, vs: Seq<N::Value>, i: int, at: int)
    requires
        exact::<N>(),
        ps.len() == vs.len(),
        0 <= i <= ps.len(),
        forall|j: int|
            0 <= j < ps.len() ==> trim_v(#[trigger] ps[j]).len() > 0 && N::read_v(trim_v(ps[j]))
                == Some(vs[j]) && N::real_of(vs[j]) >= 0 as real,
    ensures
        numbers_v::<N>(ps, i, at) == Ok::<_, Fault>(vs.skip(i)),
    decreases ps.len() - i,
{
    if i < ps.len() {
        numbers_kept::<N>(ps, vs, i + 1, at);
        assert(trim_v(ps[i]).len() > 0);
        assert(seq![vs[i]] + vs.skip(i + 1) =~= vs.skip(i));
    } else {
        assert(vs.skip(i) =~= Seq::<N::Value>::empty());
    }
}

/// A vector is read from its list: the numbers of the literals, in their order
/// and as many as there are.
pub proof fn vectors_are_read<N: Number>(ls: Seq<Seq<char>>, vs: Seq<N::Value>, at: int)
    requires
        exact::<N>(),
        ls.len() > 0,
        ls.len() == vs.len(),
        forall|i: int|
            0 <= i < ls.len() ==> solid(#[trigger] ls[i]) && without(ls[i], ',') && N::read_v(ls[i])
                == Some(vs[i]) && N::real_of(vs[i]) >= 0 as real,
    ensures
        vector_v::<N>(seq!['['] + joined(ls, seq![',', ' ']) + seq![']'], at) == Ok::<
            _,
            Fault,
        >(vs),
{
    let all = joined(ls, seq![',', ' ']);
    let text = seq!['['] + all + seq![']'];
    assert forall|i: int| 0 <= i < ls.len() implies (#[trigger] ls[i]).len() > 0 && tidy(ls[i]) && without(
        ls[i],
        ',',
    ) by {
        assert(solid(ls[i]));
    }
    assert(text[0] == '[' && text.last() == ']');
    trim_tidy(text);
    assert(text.subrange(1, text.len() - 1) =~= all);
    list_back(ls);
    let ps = split_v(all, ',', 0);
    assert forall|j: int| 0 <= j < ps.len() implies trim_v(#[trigger] ps[j]).len() > 0 && N::read_v(
        trim_v(ps[j]),
    ) == Some(vs[j]) && N::real_of(vs[j]) >= 0 as real by {
        assert(trim_v(ps[j]) == ls[j]);
    }
    numbers_kept::<N>(ps, vs, 0, at);
    assert(vs.skip(0) =~= vs);
}

/// No number of a vector is negative.
pub proof fn vectors_are_not_negative<N: Number>(value: Seq<char>, at: int, c: int)
    requires
        exact::<N>(),
        vector_v::<N>(value, at) matches Ok(v) && 0 <= c < v.len(),
    ensures
        N::real_of((vector_v::<N>(value, at)->Ok_0)[c]) >= 0 as real,
{
    let t = trim_v(value);
    numbers_positive::<N>(split_v(t.subrange(1, t.len() - 1), ',', 0), 0, at);
}

proof fn numbers_positive<N: Number>(ps: Seq<Seq<char>>, i: int, at: int)
    requires
        exact::<N>(),
        i >= 0,
    ensures
        numbers_v::<N>(ps, i, at) matches Ok(v) ==> forall|c: int|
            0 <= c < v.len() ==> N::real_of(#[trigger] v[c]) >= 0 as real,
    decreases ps.len() - i,
{
    if i < ps.len() {
        numbers_positive::<N>(ps, i + 1, at);
    }
}

// ---------------------------------------------------------------------------
// the tree
// ---------------------------------------------------------------------------

/// The windows of the identifiers are what they should be exactly where the
/// nodes are numbered left to right.
pub proof fn windows_are_spans(g: Seq<Vertex>, id: int, lo: int, hi: int)
    requires
        1 <= lo,
        hi < g.len(),
        forall|v: int|
            1 <= v < g.len() && (#[trigger] g[v]).kind == Kind::Task ==> 1 <= g[v].duration <= 127,
    ensures
        window_v(g, id, lo, hi) is None <==> lo <= id <= hi && spans(g, id, lo, hi),
    decreases hi - lo + 1,
{
    if lo <= id <= hi && g[id].kind != Kind::Task {
        windows_are_spans(g, g[id].high, id + 1, hi);
        windows_are_spans(g, g[id].low, lo, id - 1);
        spans_within(g, g[id].high, id + 1, hi);
        spans_within(g, g[id].low, lo, id - 1);
    }
}

proof fn spans_within(g: Seq<Vertex>, v: int, lo: int, hi: int)
    ensures
        spans(g, v, lo, hi) ==> lo <= v <= hi,
{
}

/// No identifier goes past the number of the nodes exactly where none is found
/// that does, and the first one that does is the one found.
pub proof fn strays_are_found<V>(es: Seq<Entry<V>>, n: int, i: int)
    requires
        0 <= i <= es.len(),
    ensures
        match stray_v(es, n, i) {
            None => forall|j: int| i <= j < es.len() ==> (#[trigger] es[j]).id <= n,
            Some(x) => exists|j: int|
                {
                    &&& i <= j < es.len()
                    &&& (#[trigger] es[j]).id == x
                    &&& x > n
                    &&& forall|l: int| i <= l < j ==> (#[trigger] es[l]).id <= n
                },
        },
    decreases es.len() - i,
{
    if i < es.len() {
        strays_are_found(es, n, i + 1);
        if es[i].id > n {
            assert(es[i].id == es[i].id);
        } else if stray_v(es, n, i + 1) is Some {
            let x = stray_v(es, n, i + 1)->0;
            let j = choose|j: int|
                {
                    &&& i + 1 <= j < es.len()
                    &&& (#[trigger] es[j]).id == x
                    &&& x > n
                    &&& forall|l: int| i + 1 <= l < j ==> (#[trigger] es[l]).id <= n
                };
            assert(es[j].id == x);
        }
    }
}

/// No two nodes carry the same identifier.
pub open spec fn distinct<V>(es: Seq<Entry<V>>) -> bool {
    forall|a: int, b: int|
        0 <= a < b < es.len() ==> (#[trigger] es[a]).id != (#[trigger] es[b]).id
}

/// An identifier is found twice exactly where two nodes carry the same.
pub proof fn doubles_are_found<V>(es: Seq<Entry<V>>)
    ensures
        twice_v(es, 0) is None <==> distinct(es),
{
    doubles_from(es, 0);
    if twice_v(es, 0) is None {
        assert forall|a: int, b: int| 0 <= a < b < es.len() implies (#[trigger] es[a]).id
            != (#[trigger] es[b]).id by {
            assert(!holds(es.take(b), es[b].id as int));
            assert(es.take(b)[a] == es[a]);
        }
    }
    if distinct(es) && twice_v(es, 0) is Some {
        let b = choose|b: int| 0 <= b < es.len() && holds(es.take(b), (#[trigger] es[b]).id as int);
        let a = choose|a: int| 0 <= a < es.take(b).len() && (#[trigger] es.take(b)[a]).id == es[b].id;
        assert(es[a].id == es[b].id);
    }
}

proof fn doubles_from<V>(es: Seq<Entry<V>>, i: int)
    requires
        0 <= i <= es.len(),
    ensures
        twice_v(es, i) is None ==> forall|j: int|
            i <= j < es.len() ==> !holds(es.take(j), (#[trigger] es[j]).id as int),
        twice_v(es, i) is Some ==> exists|j: int|
            i <= j < es.len() && holds(es.take(j), (#[trigger] es[j]).id as int),
    decreases es.len() - i,
{
    if i < es.len() {
        doubles_from(es, i + 1);
        if holds(es.take(i), es[i].id as int) {
            assert(holds(es.take(i), es[i].id as int));
        }
    }
}

proof fn one_is_last<V>(es: Seq<Entry<V>>, j: int)
    requires
        distinct(es),
        0 <= j < es.len(),
    ensures
        last_of(es, es[j].id as int) == Some(es[j]),
    decreases es.len(),
{
    let front = es.drop_last();
    if j < es.len() - 1 {
        assert(es[es.len() - 1].id != es[j].id);
        assert forall|a: int, b: int| 0 <= a < b < front.len() implies (#[trigger] front[a]).id
            != (#[trigger] front[b]).id by {
            assert(es[a].id != es[b].id);
        }
        one_is_last(front, j);
        assert(front[j] == es[j]);
    }
}

/// A tree is grown exactly where the nodes fit in memory, no identifier goes
/// past their number nor is carried twice, the tasks are as many as declared, the
/// nodes as many as a full binary tree has, and their numbers go left to right.
/// Every node is then found under its identifier as it was read, with its name,
/// its probability and, where it is a task, its impact.
pub proof fn trees_are_grown<N: Number>(h: Head, r: Subtree<N::Value>, j: int)
    requires
        r.dims is Some,
        0 <= j < r.entries.len(),
        forall|v: int|
            1 <= v <= (match h.nodes {
                Some(n) => n as nat,
                None => r.entries.len(),
            }) && (#[trigger] vertex_of(last_of(r.entries, v))).kind == Kind::Task ==> 1 <= vertex_of(
                last_of(r.entries, v),
            ).duration <= 127,
    ensures
        ({
            let es = r.entries;
            let k = r.dims->0;
            let n: nat = match h.nodes {
                Some(n) => n as nat,
                None => es.len(),
            };
            let g = arena_v(es, n);
            let t = task_ids(g, n as int).len();
            let e = es[j];
            match grown_v::<N>(h, r) {
                Ok(m) => {
                    &&& n < u32::MAX && (n + 1) * k <= usize::MAX
                    &&& forall|i: int| 0 <= i < es.len() ==> (#[trigger] es[i]).id <= n
                    &&& distinct(es)
                    &&& h.tasks matches Some(d) ==> d == t
                    &&& n == 2 * t - 1
                    &&& spans(g, r.id as int, 1, n as int)
                    &&& m.root == r.id && m.n_nodes == n && m.n_tasks == t && m.k == k
                    &&& m.nodes[e.id as int] == (Vertex {
                        kind: e.kind,
                        low: e.low as int,
                        high: e.high as int,
                        duration: e.duration as int,
                    })
                    &&& m.probs[e.id as int] == e.prob
                    &&& m.names[e.id as int] == e.name
                    &&& e.kind == Kind::Task ==> m.rows[e.id as int] == e.impact
                },
                Err(_) => {
                    ||| n >= u32::MAX || (n + 1) * k > usize::MAX
                    ||| exists|i: int| 0 <= i < es.len() && (#[trigger] es[i]).id > n
                    ||| !distinct(es)
                    ||| h.tasks matches Some(d) && d != t
                    ||| n != 2 * t - 1
                    ||| !(1 <= r.id <= n && spans(g, r.id as int, 1, n as int))
                },
            }
        }),
{
    let es = r.entries;
    let n: nat = match h.nodes {
        Some(n) => n as nat,
        None => es.len(),
    };
    let g = arena_v(es, n);
    strays_are_found(es, n as int, 0);
    doubles_are_found(es);
    assert forall|v: int| 1 <= v < g.len() && (#[trigger] g[v]).kind == Kind::Task implies 1 <= g[v].duration
        <= 127 by {
        assert(g[v] == vertex_of(last_of(es, v)));
    }
    windows_are_spans(g, r.id as int, 1, n as int);
    if grown_v::<N>(h, r) is Ok {
        one_is_last(es, j);
        assert(es[j].id <= n);
        task_ids_range(g, n as int);
        let k = r.dims->0;
        assert(k <= (n + 1) * k) by (nonlinear_arith);
    }
}

// ---------------------------------------------------------------------------
// impacts by name
// ---------------------------------------------------------------------------

/// The vector of a task has, at the place of every name its map gives, the value
/// given there, and zero everywhere else.
pub proof fn impacts_are_placed<N: Number>(impact: Seq<(nat, N::Value)>, k: nat, i: int)
    requires
        forall|a: int, b: int|
            0 <= a < b < impact.len() ==> (#[trigger] impact[a]).0 != (#[trigger] impact[b]).0,
        0 <= i < k,
    ensures
        vector_of::<N>(impact, k).len() == k,
        forall|j: int|
            0 <= j < impact.len() && (#[trigger] impact[j]).0 == i ==> vector_of::<N>(impact, k)[i]
                == impact[j].1,
        (forall|j: int| 0 <= j < impact.len() ==> (#[trigger] impact[j]).0 != i) ==> vector_of::<N>(
            impact,
            k,
        )[i] == N::zero_v(),
    decreases impact.len(),
{
    if impact.len() > 0 {
        let front = impact.drop_last();
        let last = impact.len() - 1;
        assert forall|a: int, b: int| 0 <= a < b < front.len() implies (#[trigger] front[a]).0
            != (#[trigger] front[b]).0 by {
            assert(impact[a].0 != impact[b].0);
        }
        impacts_are_placed::<N>(front, k, i);
        assert forall|j: int| 0 <= j < impact.len() && (#[trigger] impact[j]).0 == i implies vector_of::<
            N,
        >(impact, k)[i] == impact[j].1 by {
            if j < last {
                assert(impact[j].0 != impact[last].0);
                assert(front[j] == impact[j]);
            }
        }
        if forall|j: int| 0 <= j < impact.len() ==> (#[trigger] impact[j]).0 != i {
            assert(impact[last].0 != i);
            assert forall|j: int| 0 <= j < front.len() implies (#[trigger] front[j]).0 != i by {
                assert(impact[j].0 != i);
            }
        }
    }
}

} // verus!
