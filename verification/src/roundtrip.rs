//! A process that is written to an instance file reads back as itself.

use vstd::prelude::*;
use crate::decimal::{
    decimals_are_exact, number_reads_back, positive_integral, shown_reads_back, Dec, Decimal,
};
use crate::grammar::{
    chain_v, composed, impacts_v, index_of, map_v, operator_advances, operator_v, process_of,
    process_v, region_advances, region_v, size_v, task_v, tasks_v, with_name, Reading, Term,
};
use crate::layout::{
    clean_line, indent_is, integer_back, joined_ends, joined_without, lines_back, list_back,
    natural_back, solid, split_key, tidy, trim_empty, trim_leaves, trim_tidy, without, without_both,
};
use crate::mdp::{cost_text, kind_text, number_text, number_texts};
use crate::num::{exact, Number};
use crate::reader::{
    arena_v, blank_v, chance_of, empty_head, entry_of, field_v, fields_v, fresh_fields, grown_v,
    header_v, key_v, kind_of, last_of, name_list, name_of, names_v, node_v, numbers_v, opening_v,
    read_v, row_of, stray_v, twice_v, vector_v, vertex_of, window_v, with_branch, with_key, Entry,
    Fault, Fields, Head, Model, Opening, Subtree,
};
use crate::scan::{
    chars_v, eat_v, is_word, name_v, number_v, scan_bounds, skip_bounds, skip_v, word_bounds,
    word_end,
};
use crate::text::{decimal, joined, signed};
use crate::tree::{task_ids, Kind};
use crate::words::{
    has_prefix, indent_v, is_white, shed_end, shed_start, split_once_v, split_v, trim_v,
};
use crate::writer::{
    header_lines, opening_lines, pad_v, root_id, term_lines, value_at, vector_of, yaml_v,
};

verus! {

/// A letter, a digit or an underscore.
pub open spec fn wordy(c: char) -> bool {
    ||| '0' <= c <= '9'
    ||| 'A' <= c <= 'Z'
    ||| 'a' <= c <= 'z'
    ||| c == '_'
}

/// A name as the grammar has them.
pub open spec fn word(s: Seq<char>) -> bool {
    s.len() > 0 && forall|i: int| 0 <= i < s.len() ==> wordy(#[trigger] s[i])
}

/// A literal that reads as a number, with no blank and no comma in it.
pub open spec fn readable<N: Number>(text: Seq<char>) -> bool {
    N::read_v(text) is Some && solid(text) && without(text, ',')
}

/// The number a literal reads as.
pub open spec fn back<N: Number>(text: Seq<char>) -> N::Value {
    N::read_v(text)->0
}

/// A vector as its literals read.
pub open spec fn row_back<N: Number>(vs: Seq<N::Value>) -> Seq<N::Value> {
    Seq::new(vs.len(), |c: int| back::<N>(number_text::<N>(vs[c])))
}

/// The probability of a node as its literal reads; a node that draws nothing
/// has none.
pub open spec fn chance_back<N: Number>(kind: Kind, prob: N::Value) -> N::Value {
    if kind == Kind::Nature {
        back::<N>(N::show_v(prob))
    } else {
        N::zero_v()
    }
}

/// The literals written for the numbers of a process read as numbers an
/// instance file may hold, and its durations are those a state can hold.
pub open spec fn legible<N: Number>(t: Term<N::Value>, k: nat) -> bool
    decreases t,
{
    match t {
        Term::Task { name, duration, impact } => {
            &&& 1 <= duration <= 127
            &&& forall|c: int|
                0 <= c < k ==> {
                    let text = number_text::<N>(#[trigger] vector_of::<N>(impact, k)[c]);
                    readable::<N>(text) && N::le_v(N::zero_v(), back::<N>(text))
                }
        },
        Term::Op { kind, prob, low, high } => {
            &&& kind == Kind::Nature ==> {
                let text = N::show_v(prob);
                &&& readable::<N>(text)
                &&& N::lt_v(N::zero_v(), back::<N>(text))
                &&& N::lt_v(back::<N>(text), N::one_v())
            }
            &&& legible::<N>(*low, k)
            &&& legible::<N>(*high, k)
        },
    }
}

/// Impacts as the grammar makes them: none of them is zero or less.
pub open spec fn all_positive<N: Number>(impact: Seq<(nat, N::Value)>) -> bool {
    forall|i: int| 0 <= i < impact.len() ==> !N::le_v((#[trigger] impact[i]).1, N::zero_v())
}

/// A process as the grammar makes them.
pub open spec fn formed<N: Number>(t: Term<N::Value>) -> bool
    decreases t,
{
    match t {
        Term::Task { name, duration, impact } => {
            &&& word(name)
            &&& all_positive::<N>(impact)
            &&& exists|d: N::Value|
                !N::le_v(d, N::zero_v()) && #[trigger] N::integral_v(d) == Some(duration)
        },
        Term::Op { kind, prob, low, high } => {
            &&& kind != Kind::Task
            &&& kind == Kind::Nature ==> N::lt_v(N::zero_v(), prob) && N::lt_v(prob, N::one_v())
            &&& kind != Kind::Nature ==> prob == N::zero_v()
            &&& formed::<N>(*low)
            &&& formed::<N>(*high)
        },
    }
}

/// `n` spaces.
spec fn spaces(n: nat) -> Seq<char> {
    Seq::new(n, |i: int| ' ')
}

proof fn word_facts(s: Seq<char>)
    requires
        word(s),
    ensures
        solid(s),
        tidy(s),
        clean_line(s),
        without(s, ','),
        without(s, ':'),
        s[0] != '[',
        s.last() != ']',
{
    assert forall|i: int| 0 <= i < s.len() implies !is_white(#[trigger] s[i]) && s[i] != '\n' && s[i]
        != '\r' && s[i] != ',' && s[i] != ':' && s[i] != '[' && s[i] != ']' by {
        assert(wordy(s[i]));
    }
    assert(wordy(s[0]));
    assert(wordy(s[s.len() - 1]));
}

proof fn solid_facts(s: Seq<char>)
    requires
        solid(s),
    ensures
        tidy(s),
        clean_line(s),
{
    assert forall|i: int| 0 <= i < s.len() implies #[trigger] s[i] != '\n' && s[i] != '\r' by {
        assert(!is_white(s[i]));
    }
    assert(!is_white(s[0]));
    assert(!is_white(s[s.len() - 1]));
}

// ---------------------------------------------------------------------------
// one line
// ---------------------------------------------------------------------------

/// A line with a key and a value.
proof fn key_line(s: Seq<char>, n: nat, key: Seq<char>, value: Seq<char>)
    requires
        s == spaces(n) + (key + seq![':'] + (seq![' '] + value)),
        solid(key),
        without(key, ':'),
        tidy(value),
    ensures
        trim_v(s).len() > 0,
        indent_v(s, 0) == n,
        s.skip(n as int) == key + seq![':'] + (seq![' '] + value),
        split_once_v(s.skip(n as int), ':') == Some((key, seq![' '] + value)),
        trim_v(key) == key,
        trim_v(seq![' '] + value) == value,
{
    solid_facts(key);
    let body = key + seq![':'] + (seq![' '] + value);
    assert(s[n as int] == key[0]);
    assert(!is_white(key[0]));
    trim_leaves(s, n as int);
    indent_is(s, 0, n as int);
    assert(s.skip(n as int) =~= body);
    split_key(key, seq![' '] + value);
    trim_tidy(key);
    trim_tidy(value);
}

/// A line with a key alone.
proof fn bare_line(s: Seq<char>, n: nat, key: Seq<char>)
    requires
        s == spaces(n) + (key + seq![':']),
        solid(key),
        without(key, ':'),
    ensures
        trim_v(s).len() > 0,
        indent_v(s, 0) == n,
        s.skip(n as int) == key + seq![':'],
        split_once_v(s.skip(n as int), ':') == Some((key, Seq::<char>::empty())),
        trim_v(key) == key,
{
    solid_facts(key);
    assert(s[n as int] == key[0]);
    assert(!is_white(key[0]));
    trim_leaves(s, n as int);
    indent_is(s, 0, n as int);
    let body = key + seq![':'];
    assert(s.skip(n as int) =~= body);
    split_key(key, Seq::empty());
    assert(key + seq![':'] + Seq::<char>::empty() =~= body);
    trim_tidy(key);
}

proof fn keys_known()
    ensures
        solid("id"@) && without("id"@, ':') && "id"@.len() == 2,
        solid("duration"@) && without("duration"@, ':') && "duration"@.len() == 8,
        solid("impact"@) && without("impact"@, ':') && "impact"@.len() == 6,
        solid("low"@) && without("low"@, ':') && "low"@.len() == 3,
        solid("high"@) && without("high"@, ':') && "high"@.len() == 4,
{
    reveal_strlit("id");
    reveal_strlit("duration");
    reveal_strlit("impact");
    reveal_strlit("low");
    reveal_strlit("high");
}

proof fn kinds_known(k: Kind)
    ensures
        kind_of(kind_text(k)) == Some(k),
        solid(kind_text(k)),
        without(kind_text(k), ':'),
        clean_line(kind_text(k)),
{
    reveal_strlit("task");
    reveal_strlit("sequence");
    reveal_strlit("parallel");
    reveal_strlit("choice");
    reveal_strlit("nature");
    assert("task"@.len() == 4 && "sequence"@.len() == 8 && "parallel"@.len() == 8 && "choice"@.len() == 6
        && "nature"@.len() == 6);
    assert("sequence"@[0] == 's' && "parallel"@[0] == 'p' && "choice"@[0] == 'c' && "nature"@[0] == 'n');
    solid_facts(kind_text(k));
}

// ---------------------------------------------------------------------------
// the fields of a node
// ---------------------------------------------------------------------------

/// The lines of a node indented by `indent` end before the one of index `e`.
spec fn ends(ls: Seq<Seq<char>>, e: int, indent: int) -> bool {
    ||| e == ls.len()
    ||| 0 <= e < ls.len() && trim_v(ls[e]).len() > 0 && indent_v(ls[e], 0) < indent + 2
}

proof fn stops<N: Number>(
    ls: Seq<Seq<char>>,
    e: int,
    indent: int,
    f: Fields<N::Value>,
    cap: Option<u32>,
)
    requires
        ends(ls, e, indent),
    ensures
        fields_v::<N>(ls, e, indent, f, cap) == Ok::<(Fields<N::Value>, int), Fault>((f, e)),
{
    assert(blank_v(ls, e) == e);
}

proof fn field_step<N: Number>(
    ls: Seq<Seq<char>>,
    at: int,
    indent: nat,
    f: Fields<N::Value>,
    g: Fields<N::Value>,
    cap: Option<u32>,
    key: Seq<char>,
    value: Seq<char>,
)
    requires
        0 <= at < ls.len(),
        ls[at] == spaces(indent + 2) + (key + seq![':'] + (seq![' '] + value)),
        solid(key),
        without(key, ':'),
        tidy(value),
        key != "low"@,
        key != "high"@,
        field_v::<N>(f, key, value, at) == Ok::<Fields<N::Value>, Fault>(g),
    ensures
        fields_v::<N>(ls, at, indent as int, f, cap) == fields_v::<N>(
            ls,
            at + 1,
            indent as int,
            g,
            cap,
        ),
{
    key_line(ls[at], indent + 2, key, value);
    assert(blank_v(ls, at) == at);
}

proof fn branch_step<N: Number>(
    ls: Seq<Seq<char>>,
    at: int,
    indent: nat,
    f: Fields<N::Value>,
    cap: Option<u32>,
    low: bool,
    r: Subtree<N::Value>,
)
    requires
        0 <= at < ls.len(),
        ls[at] == spaces(indent + 2) + ((if low {
            "low"@
        } else {
            "high"@
        }) + seq![':']),
        node_v::<N>(ls, at + 1, (indent + 2) as int, cap, f.dims) == Ok::<Subtree<N::Value>, Fault>(r),
        at < r.at <= ls.len(),
    ensures
        fields_v::<N>(ls, at, indent as int, f, cap) == fields_v::<N>(
            ls,
            r.at,
            indent as int,
            with_branch(f, low, r),
            cap,
        ),
{
    keys_known();
    let key = if low {
        "low"@
    } else {
        "high"@
    };
    bare_line(ls[at], indent + 2, key);
    assert(blank_v(ls, at) == at);
}

// ---------------------------------------------------------------------------
// vectors
// ---------------------------------------------------------------------------

proof fn numbers_back<N: Number>(ps: Seq<Seq<char>>, vs: Seq<N::Value>, i: int, at: int)
    requires
        0 <= i <= vs.len(),
        ps.len() == vs.len(),
        forall|j: int|
            0 <= j < vs.len() ==> trim_v(#[trigger] ps[j]).len() > 0 && N::read_v(trim_v(ps[j])) == Some(
                vs[j],
            ) && N::le_v(N::zero_v(), vs[j]),
    ensures
        numbers_v::<N>(ps, i, at) == Ok::<Seq<N::Value>, Fault>(vs.skip(i)),
    decreases vs.len() - i,
{
    if i < vs.len() {
        numbers_back::<N>(ps, vs, i + 1, at);
        assert(trim_v(ps[i]).len() > 0);
        assert(seq![vs[i]] + vs.skip(i + 1) =~= vs.skip(i));
    } else {
        assert(vs.skip(i) =~= Seq::empty());
    }
}

/// A vector reads as its literals do.
proof fn vector_back<N: Number>(vs: Seq<N::Value>, at: int)
    requires
        vs.len() >= 1,
        forall|c: int|
            0 <= c < vs.len() ==> {
                let text = number_text::<N>(#[trigger] vs[c]);
                readable::<N>(text) && N::le_v(N::zero_v(), back::<N>(text))
            },
    ensures
        vector_v::<N>(cost_text::<N>(vs), at) == Ok::<Seq<N::Value>, Fault>(row_back::<N>(vs)),
        tidy(cost_text::<N>(vs)),
        clean_line(cost_text::<N>(vs)),
{
    reveal_strlit("[");
    reveal_strlit("]");
    reveal_strlit(", ");
    let ps = number_texts::<N>(vs);
    let sep = seq![',', ' '];
    assert(", "@ =~= sep);
    assert("["@ =~= seq!['[']);
    assert("]"@ =~= seq![']']);
    let inner = joined(ps, sep);
    let s = cost_text::<N>(vs);
    assert(s =~= seq!['['] + inner + seq![']']);
    assert forall|i: int| 0 <= i < ps.len() implies without(#[trigger] ps[i], ',') && tidy(ps[i])
        && clean_line(ps[i]) by {
        assert(readable::<N>(number_text::<N>(vs[i])));
        solid_facts(ps[i]);
    }
    list_back(ps);
    trim_tidy(s);
    assert(s.subrange(1, s.len() - 1) =~= inner);
    let ws = row_back::<N>(vs);
    let cut = split_v(inner, ',', 0);
    assert forall|j: int| 0 <= j < vs.len() implies trim_v(#[trigger] cut[j]).len() > 0 && N::read_v(
        trim_v(cut[j]),
    ) == Some(ws[j]) && N::le_v(N::zero_v(), ws[j]) by {
        assert(trim_v(cut[j]) == ps[j]);
        assert(readable::<N>(number_text::<N>(vs[j])));
    }
    numbers_back::<N>(cut, ws, 0, at);
    assert(ws.skip(0) =~= ws);
    assert(forall|i: int| 0 <= i < ps.len() ==> without(#[trigger] ps[i], '\n'));
    assert(forall|i: int| 0 <= i < ps.len() ==> without(#[trigger] ps[i], '\r'));
    joined_without(ps, sep, '\n');
    joined_without(ps, sep, '\r');
    without_both(seq!['['], inner, '\n');
    without_both(seq!['['] + inner, seq![']'], '\n');
    without_both(seq!['['], inner, '\r');
    without_both(seq!['['] + inner, seq![']'], '\r');
}

// ---------------------------------------------------------------------------
// nodes
// ---------------------------------------------------------------------------

/// The nodes of a process as a file holds them, numbered from `base + 1` on.
pub open spec fn entries_v<N: Number>(t: Term<N::Value>, k: nat, base: nat) -> Seq<Entry<N::Value>>
    decreases t,
{
    let id = root_id(t, base) as u32;
    match t {
        Term::Task { name, duration, impact } => seq![
            Entry {
                id,
                kind: Kind::Task,
                low: 0,
                high: 0,
                duration: duration as i16,
                prob: N::zero_v(),
                name,
                impact: row_back::<N>(vector_of::<N>(impact, k)),
            },
        ],
        Term::Op { kind, prob, low, high } => (entries_v::<N>(*low, k, base) + entries_v::<N>(
            *high,
            k,
            root_id(t, base),
        )).push(
            Entry {
                id,
                kind,
                low: root_id(*low, base) as u32,
                high: root_id(*high, root_id(t, base)) as u32,
                duration: 0,
                prob: chance_back::<N>(kind, prob),
                name: Seq::empty(),
                impact: Seq::empty(),
            },
        ),
    }
}

proof fn root_within<V>(t: Term<V>, base: nat)
    ensures
        base < root_id(t, base) <= base + size_v(t),
        size_v(t) >= 1,
{
}

/// A task reads back.
proof fn task_back<N: Number>(
    ls: Seq<Seq<char>>,
    at: int,
    parent: int,
    cap: u32,
    name: Seq<char>,
    duration: i64,
    impact: Seq<(nat, N::Value)>,
    k: nat,
    base: nat,
    depth: nat,
)
    requires
        k >= 1,
        word(name),
        legible::<N>(Term::Task { name, duration, impact }, k),
        base + 1 <= cap,
        parent == 0 || parent < 2 * depth,
        0 <= at,
        at + 4 <= ls.len(),
        ls.subrange(at, at + 4) == term_lines::<N>(
            Term::Task { name, duration, impact },
            k,
            base,
            depth,
        ),
        ends(ls, at + 4, (2 * depth) as int),
    ensures
        node_v::<N>(ls, at, parent, Some(cap), Some(k)) == Ok::<Subtree<N::Value>, Fault>(
            Subtree {
                id: (base + 1) as u32,
                at: at + 4,
                entries: entries_v::<N>(Term::Task { name, duration, impact }, k, base),
                dims: Some(k),
            },
        ),
{
    let t = Term::Task { name, duration, impact };
    let indent = 2 * depth;
    let vs = vector_of::<N>(impact, k);
    assert(ls[at] == ls.subrange(at, at + 4)[0]);
    assert(ls[at + 1] == ls.subrange(at, at + 4)[1]);
    assert(ls[at + 2] == ls.subrange(at, at + 4)[2]);
    assert(ls[at + 3] == ls.subrange(at, at + 4)[3]);
    word_facts(name);
    keys_known();
    kinds_known(Kind::Task);
    vector_back::<N>(vs, at + 3);
    natural_back(base + 1, u32::MAX as nat);
    integer_back(duration as int, i32::MAX as nat);
    reveal_strlit("- task: ");
    reveal_strlit("task");
    reveal_strlit("- ");
    reveal_strlit("  id: ");
    reveal_strlit("  duration: ");
    reveal_strlit("  impact: ");
    reveal_strlit("id");
    reveal_strlit("duration");
    reveal_strlit("impact");
    // the opening line
    let body = "- task: "@ + name;
    let head = "task"@ + seq![':'] + (seq![' '] + name);
    assert(ls[at] =~= spaces(indent) + body);
    assert(ls[at][indent as int] == '-');
    trim_leaves(ls[at], indent as int);
    indent_is(ls[at], 0, indent as int);
    assert(ls[at].skip(indent as int) =~= body);
    assert(body.take(2) =~= "- "@);
    assert(body.skip(2) =~= head);
    split_key("task"@, seq![' '] + name);
    solid_facts("task"@);
    trim_tidy("task"@);
    trim_tidy(name);
    assert(blank_v(ls, at) == at);
    let o = Opening { indent: indent as int, kind: Kind::Task, prob: N::zero_v(), name };
    assert(opening_v::<N>(ls, at, parent) == Ok::<Opening<N::Value>, Fault>(o));
    // the fields
    let f0 = fresh_fields::<N::Value>(Some(k));
    let f1 = Fields { id: Some((base + 1) as u32), ..f0 };
    let f2 = Fields { duration: duration as i16, ..f1 };
    let ws = row_back::<N>(vs);
    let f3 = Fields { impact: Some(ws), ..f2 };
    assert(ls[at + 1] =~= spaces(indent + 2) + ("id"@ + seq![':'] + (seq![' '] + decimal(base + 1))));
    field_step::<N>(ls, at + 1, indent, f0, f1, Some(cap), "id"@, decimal(base + 1));
    assert(ls[at + 2] =~= spaces(indent + 2) + ("duration"@ + seq![':'] + (seq![' '] + signed(
        duration as int,
    ))));
    field_step::<N>(ls, at + 2, indent, f1, f2, Some(cap), "duration"@, signed(duration as int));
    assert(ls[at + 3] =~= spaces(indent + 2) + ("impact"@ + seq![':'] + (seq![' '] + cost_text::<N>(vs))));
    field_step::<N>(ls, at + 3, indent, f2, f3, Some(cap), "impact"@, cost_text::<N>(vs));
    stops::<N>(ls, at + 4, indent as int, f3, Some(cap));
    assert(f3.entries.push(entry_of(o, f3, ws)) =~= entries_v::<N>(t, k, base));
}

/// A composition reads back where its branches do.
#[verifier::rlimit(40)]
proof fn op_back<N: Number>(
    ls: Seq<Seq<char>>,
    at: int,
    parent: int,
    cap: u32,
    kind: Kind,
    prob: N::Value,
    id: nat,
    k: nat,
    depth: nat,
    low: Subtree<N::Value>,
    high: Subtree<N::Value>,
)
    requires
        kind != Kind::Task,
        kind == Kind::Nature ==> readable::<N>(N::show_v(prob)) && N::lt_v(
            N::zero_v(),
            back::<N>(N::show_v(prob)),
        ) && N::lt_v(back::<N>(N::show_v(prob)), N::one_v()),
        1 <= id <= cap,
        parent == 0 || parent < 2 * depth,
        0 <= at,
        at + 3 <= low.at < high.at <= ls.len(),
        ls[at] == opening_lines::<N>(kind, prob, id, depth)[0],
        ls[at + 1] == opening_lines::<N>(kind, prob, id, depth)[1],
        ls[at + 2] == pad_v(depth) + "  low:"@,
        ls[low.at] == pad_v(depth) + "  high:"@,
        node_v::<N>(ls, at + 3, (2 * depth + 2) as int, Some(cap), Some(k)) == Ok::<
            Subtree<N::Value>,
            Fault,
        >(low),
        node_v::<N>(ls, low.at + 1, (2 * depth + 2) as int, Some(cap), Some(k)) == Ok::<
            Subtree<N::Value>,
            Fault,
        >(high),
        low.id != 0,
        high.id != 0,
        low.dims == Some(k),
        high.dims == Some(k),
        ends(ls, high.at, (2 * depth) as int),
    ensures
        node_v::<N>(ls, at, parent, Some(cap), Some(k)) == Ok::<Subtree<N::Value>, Fault>(
            Subtree {
                id: id as u32,
                at: high.at,
                entries: (low.entries + high.entries).push(
                    Entry {
                        id: id as u32,
                        kind,
                        low: low.id,
                        high: high.id,
                        duration: 0,
                        prob: chance_back::<N>(kind, prob),
                        name: Seq::empty(),
                        impact: Seq::empty(),
                    },
                ),
                dims: Some(k),
            },
        ),
{
    let indent = 2 * depth;
    let word = kind_text(kind);
    keys_known();
    kinds_known(kind);
    natural_back(id, u32::MAX as nat);
    reveal_strlit("- ");
    reveal_strlit(":");
    reveal_strlit(" ");
    reveal_strlit("  id: ");
    reveal_strlit("  low:");
    reveal_strlit("  high:");
    reveal_strlit("id");
    reveal_strlit("low");
    reveal_strlit("high");
    solid_facts(word);
    trim_tidy(word);
    trim_empty();
    let o = Opening {
        indent: indent as int,
        kind,
        prob: chance_back::<N>(kind, prob),
        name: Seq::empty(),
    };
    if kind == Kind::Nature {
        let text = N::show_v(prob);
        solid_facts(text);
        let head = word + seq![':'] + (seq![' '] + text);
        let body = "- "@ + head;
        assert(ls[at] =~= spaces(indent) + body);
        split_key(word, seq![' '] + text);
        trim_tidy(text);
        assert(body.take(2) =~= "- "@);
        assert(body.skip(2) =~= head);
        assert(ls[at][indent as int] == '-');
        assert(ls[at].skip(indent as int) =~= body);
    } else {
        let head = word + seq![':'];
        let body = "- "@ + head;
        assert(ls[at] =~= spaces(indent) + body);
        split_key(word, Seq::empty());
        assert(head + Seq::<char>::empty() =~= head);
        assert(body.take(2) =~= "- "@);
        assert(body.skip(2) =~= head);
        assert(ls[at][indent as int] == '-');
        assert(ls[at].skip(indent as int) =~= body);
    }
    trim_leaves(ls[at], indent as int);
    indent_is(ls[at], 0, indent as int);
    assert(blank_v(ls, at) == at);
    assert(opening_v::<N>(ls, at, parent) == Ok::<Opening<N::Value>, Fault>(o));
    let f0 = fresh_fields::<N::Value>(Some(k));
    let f1 = Fields { id: Some(id as u32), ..f0 };
    let f2 = with_branch(f1, true, low);
    let f3 = with_branch(f2, false, high);
    assert(ls[at + 1] =~= spaces(indent + 2) + ("id"@ + seq![':'] + (seq![' '] + decimal(id))));
    field_step::<N>(ls, at + 1, indent, f0, f1, Some(cap), "id"@, decimal(id));
    assert(ls[at + 2] =~= spaces(indent + 2) + ("low"@ + seq![':']));
    branch_step::<N>(ls, at + 2, indent, f1, Some(cap), true, low);
    assert(ls[low.at] =~= spaces(indent + 2) + ("high"@ + seq![':']));
    branch_step::<N>(ls, low.at, indent, f2, Some(cap), false, high);
    stops::<N>(ls, high.at, indent as int, f3, Some(cap));
    assert(f3.entries =~= low.entries + high.entries);
}

/// A process reads back from its lines.
proof fn node_back<N: Number>(
    ls: Seq<Seq<char>>,
    at: int,
    parent: int,
    cap: u32,
    t: Term<N::Value>,
    k: nat,
    base: nat,
    depth: nat,
)
    requires
        k >= 1,
        formed::<N>(t),
        legible::<N>(t, k),
        base + size_v(t) <= cap,
        parent == 0 || parent < 2 * depth,
        0 <= at,
        at + term_lines::<N>(t, k, base, depth).len() <= ls.len(),
        ls.subrange(at, at + term_lines::<N>(t, k, base, depth).len()) == term_lines::<N>(
            t,
            k,
            base,
            depth,
        ),
        ends(ls, at + term_lines::<N>(t, k, base, depth).len(), (2 * depth) as int),
    ensures
        node_v::<N>(ls, at, parent, Some(cap), Some(k)) == Ok::<Subtree<N::Value>, Fault>(
            Subtree {
                id: root_id(t, base) as u32,
                at: at + term_lines::<N>(t, k, base, depth).len(),
                entries: entries_v::<N>(t, k, base),
                dims: Some(k),
            },
        ),
        term_lines::<N>(t, k, base, depth).len() > 0,
    decreases t,
{
    match t {
        Term::Task { name, duration, impact } => {
            task_back::<N>(ls, at, parent, cap, name, duration, impact, k, base, depth);
        },
        Term::Op { kind, prob, low, high } => {
            let id = root_id(t, base);
            let lines = term_lines::<N>(t, k, base, depth);
            let first = opening_lines::<N>(kind, prob, id, depth);
            let a = term_lines::<N>(*low, k, base, depth + 2);
            let b = term_lines::<N>(*high, k, id, depth + 2);
            let pad = pad_v(depth);
            let (l, h) = (a.len() as int, b.len() as int);
            let n = lines.len() as int;
            let view = ls.subrange(at, at + n);
            assert(n == 4 + l + h);
            assert(lines[0] == first[0]);
            assert(lines[1] == first[1]);
            assert(lines[2] == pad + "  low:"@);
            assert(lines[3 + l] == pad + "  high:"@);
            assert(ls[at] == view[0]);
            assert(ls[at + 1] == view[1]);
            assert(ls[at + 2] == view[2]);
            assert(ls[at + 3 + l] == view[3 + l]);
            assert(ls.subrange(at + 3, at + 3 + l) =~= a) by {
                assert forall|i: int| 0 <= i < l implies ls.subrange(at + 3, at + 3 + l)[i] == a[i] by {
                    assert(view[3 + i] == lines[3 + i]);
                }
            }
            assert(ls.subrange(at + 4 + l, at + 4 + l + h) =~= b) by {
                assert forall|i: int| 0 <= i < h implies ls.subrange(at + 4 + l, at + 4 + l + h)[i]
                    == b[i] by {
                    assert(view[4 + l + i] == lines[4 + l + i]);
                }
            }
            root_within(*low, base);
            root_within(*high, id);
            // the line of the high branch ends the low one
            reveal_strlit("  high:");
            reveal_strlit("high");
            keys_known();
            assert(ls[at + 3 + l] =~= spaces(2 * depth + 2) + ("high"@ + seq![':']));
            bare_line(ls[at + 3 + l], 2 * depth + 2, "high"@);
            assert(ends(ls, at + 3 + l, (2 * (depth + 2)) as int));
            node_back::<N>(ls, at + 3, (2 * depth + 2) as int, cap, *low, k, base, depth + 2);
            assert(ends(ls, at + 4 + l + h, (2 * (depth + 2)) as int));
            node_back::<N>(ls, at + 4 + l, (2 * depth + 2) as int, cap, *high, k, id, depth + 2);
            let rl = Subtree {
                id: root_id(*low, base) as u32,
                at: at + 3 + l,
                entries: entries_v::<N>(*low, k, base),
                dims: Some(k),
            };
            let rh = Subtree {
                id: root_id(*high, id) as u32,
                at: at + 4 + l + h,
                entries: entries_v::<N>(*high, k, id),
                dims: Some(k),
            };
            op_back::<N>(ls, at, parent, cap, kind, prob, id, k, depth, rl, rh);
        },
    }
}

// ---------------------------------------------------------------------------
// the tree
// ---------------------------------------------------------------------------

proof fn last_of_both<V>(a: Seq<Entry<V>>, b: Seq<Entry<V>>, u: int)
    ensures
        last_of(a + b, u) == (if last_of(b, u) is Some {
            last_of(b, u)
        } else {
            last_of(a, u)
        }),
    decreases b.len(),
{
    if b.len() == 0 {
        assert(a + b =~= a);
    } else {
        assert((a + b).drop_last() =~= a + b.drop_last());
        assert((a + b).last() == b.last());
        last_of_both(a, b.drop_last(), u);
    }
}

/// The identifiers of a process lie in its window.
proof fn entries_within<N: Number>(t: Term<N::Value>, k: nat, base: nat, u: int)
    requires
        base + size_v(t) <= u32::MAX,
    ensures
        last_of(entries_v::<N>(t, k, base), u) is Some ==> base < u <= base + size_v(t),
        entries_v::<N>(t, k, base).len() == size_v(t),
        forall|i: int|
            0 <= i < entries_v::<N>(t, k, base).len() ==> base < (#[trigger] entries_v::<N>(
                t,
                k,
                base,
            )[i]).id <= base + size_v(t),
    decreases t,
{
    let es = entries_v::<N>(t, k, base);
    match t {
        Term::Task { name, duration, impact } => {
            assert(es.drop_last() =~= Seq::empty());
            assert(last_of(es.drop_last(), u) is None);
            assert(es.last().id == base + 1);
        },
        Term::Op { kind, prob, low, high } => {
            let id = root_id(t, base);
            entries_within::<N>(*low, k, base, u);
            entries_within::<N>(*high, k, id, u);
            let a = entries_v::<N>(*low, k, base);
            let b = entries_v::<N>(*high, k, id);
            last_of_both(a, b, u);
            assert(es.drop_last() =~= a + b);
            assert forall|i: int| 0 <= i < es.len() implies base < (#[trigger] es[i]).id <= base + size_v(
                t,
            ) by {
                if i < a.len() {
                    assert(es[i] == a[i]);
                } else if i < a.len() + b.len() {
                    assert(es[i] == b[i - a.len()]);
                }
            }
        },
    }
}

/// The nodes of a list carry a process.
pub open spec fn carries<N: Number>(es: Seq<Entry<N::Value>>, t: Term<N::Value>, k: nat, base: nat) -> bool
    decreases t,
{
    let id = root_id(t, base);
    match t {
        Term::Task { name, duration, impact } => last_of(es, id as int) == Some(
            Entry {
                id: id as u32,
                kind: Kind::Task,
                low: 0,
                high: 0,
                duration: duration as i16,
                prob: N::zero_v(),
                name,
                impact: row_back::<N>(vector_of::<N>(impact, k)),
            },
        ),
        Term::Op { kind, prob, low, high } => {
            &&& last_of(es, id as int) == Some(
                Entry {
                    id: id as u32,
                    kind,
                    low: root_id(*low, base) as u32,
                    high: root_id(*high, id) as u32,
                    duration: 0,
                    prob: chance_back::<N>(kind, prob),
                    name: Seq::empty(),
                    impact: Seq::empty(),
                },
            )
            &&& carries::<N>(es, *low, k, base)
            &&& carries::<N>(es, *high, k, id)
        },
    }
}

proof fn carries_kept<N: Number>(
    a: Seq<Entry<N::Value>>,
    b: Seq<Entry<N::Value>>,
    t: Term<N::Value>,
    k: nat,
    base: nat,
)
    requires
        carries::<N>(a, t, k, base),
        forall|u: int| base < u <= base + size_v(t) ==> last_of(a, u) == #[trigger] last_of(b, u),
    ensures
        carries::<N>(b, t, k, base),
    decreases t,
{
    root_within(t, base);
    assert(last_of(b, root_id(t, base) as int) == last_of(a, root_id(t, base) as int));
    if let Term::Op { kind, prob, low, high } = t {
        carries_kept::<N>(a, b, *low, k, base);
        carries_kept::<N>(a, b, *high, k, root_id(t, base));
    }
}

/// A process is carried by the nodes written for it.
proof fn carried<N: Number>(t: Term<N::Value>, k: nat, base: nat)
    requires
        base + size_v(t) <= u32::MAX,
    ensures
        carries::<N>(entries_v::<N>(t, k, base), t, k, base),
    decreases t,
{
    let es = entries_v::<N>(t, k, base);
    let id = root_id(t, base);
    root_within(t, base);
    match t {
        Term::Task { name, duration, impact } => {
            assert(es.last().id == id);
        },
        Term::Op { kind, prob, low, high } => {
            let a = entries_v::<N>(*low, k, base);
            let b = entries_v::<N>(*high, k, id);
            carried::<N>(*low, k, base);
            carried::<N>(*high, k, id);
            assert(es.drop_last() =~= a + b);
            assert(es.last().id == id);
            assert forall|u: int| base < u <= base + size_v(*low) implies last_of(a, u)
                == #[trigger] last_of(es, u) by {
                last_of_both(a, b, u);
                entries_within::<N>(*high, k, id, u);
            }
            carries_kept::<N>(a, es, *low, k, base);
            assert forall|u: int| id < u <= id + size_v(*high) implies last_of(b, u)
                == #[trigger] last_of(es, u) by {
                last_of_both(a, b, u);
                entries_within::<N>(*low, k, base, u);
                present::<N>(*high, k, id, u);
            }
            carries_kept::<N>(b, es, *high, k, id);
        },
    }
}

/// Every identifier of the window of a process is one of its nodes.
proof fn present<N: Number>(t: Term<N::Value>, k: nat, base: nat, u: int)
    requires
        base + size_v(t) <= u32::MAX,
        base < u <= base + size_v(t),
    ensures
        last_of(entries_v::<N>(t, k, base), u) is Some,
    decreases t,
{
    let es = entries_v::<N>(t, k, base);
    let id = root_id(t, base);
    match t {
        Term::Task { name, duration, impact } => {
            assert(es.last().id == u);
        },
        Term::Op { kind, prob, low, high } => {
            let a = entries_v::<N>(*low, k, base);
            let b = entries_v::<N>(*high, k, id);
            assert(es.drop_last() =~= a + b);
            assert(es.last().id == id);
            last_of_both(a, b, u);
            if u <= base + size_v(*low) {
                present::<N>(*low, k, base, u);
            } else if u > id {
                present::<N>(*high, k, id, u);
            }
        },
    }
}

proof fn window_filled<N: Number>(
    es: Seq<Entry<N::Value>>,
    n: nat,
    t: Term<N::Value>,
    k: nat,
    base: nat,
)
    requires
        carries::<N>(es, t, k, base),
        formed::<N>(t),
        base + size_v(t) <= n <= u32::MAX,
    ensures
        window_v(arena_v(es, n), root_id(t, base) as int, (base + 1) as int, (base + size_v(t)) as int)
            is None,
    decreases t,
{
    let g = arena_v(es, n);
    let id = root_id(t, base);
    root_within(t, base);
    assert(g[id as int] == vertex_of(last_of(es, id as int)));
    if let Term::Op { kind, prob, low, high } = t {
        root_within(*low, base);
        root_within(*high, id);
        window_filled::<N>(es, n, *low, k, base);
        window_filled::<N>(es, n, *high, k, id);
        assert(g[id as int].low == root_id(*low, base));
        assert(g[id as int].high == root_id(*high, id));
        assert(base + size_v(t) == id + size_v(*high));
        assert(id - 1 == base + size_v(*low));
    }
}

/// The tasks among the identifiers up to the end of a process.
proof fn tasks_counted<N: Number>(
    es: Seq<Entry<N::Value>>,
    n: nat,
    t: Term<N::Value>,
    k: nat,
    base: nat,
)
    requires
        carries::<N>(es, t, k, base),
        formed::<N>(t),
        base + size_v(t) <= n <= u32::MAX,
    ensures
        task_ids(arena_v(es, n), (base + size_v(t)) as int).len() == task_ids(
            arena_v(es, n),
            base as int,
        ).len() + tasks_v(t),
    decreases t,
{
    let g = arena_v(es, n);
    let id = root_id(t, base);
    root_within(t, base);
    assert(g[id as int] == vertex_of(last_of(es, id as int)));
    if let Term::Op { kind, prob, low, high } = t {
        tasks_counted::<N>(es, n, *low, k, base);
        tasks_counted::<N>(es, n, *high, k, id);
        assert(id - 1 == base + size_v(*low));
        assert(g[id as int].kind == kind);
        assert(task_ids(g, id as int) == task_ids(g, id - 1));
    }
}

proof fn full_binary<V>(t: Term<V>)
    ensures
        size_v(t) == 2 * tasks_v(t) - 1,
        tasks_v(t) >= 1,
    decreases t,
{
    if let Term::Op { kind, prob, low, high } = t {
        full_binary(*low);
        full_binary(*high);
    }
}

proof fn no_stray<V>(es: Seq<Entry<V>>, n: int, i: int)
    requires
        0 <= i,
        forall|j: int| 0 <= j < es.len() ==> (#[trigger] es[j]).id <= n,
    ensures
        stray_v(es, n, i) is None,
    decreases es.len() - i,
{
    if i < es.len() {
        no_stray(es, n, i + 1);
    }
}

/// A tree shows a process from an identifier on: kinds, branches, durations and
/// names, and the probabilities and impacts as their literals read.
pub open spec fn shows<N: Number>(m: Model<N::Value>, t: Term<N::Value>, base: nat) -> bool
    decreases t,
{
    let id = root_id(t, base) as int;
    match t {
        Term::Task { name, duration, impact } => {
            &&& m.nodes[id].kind == Kind::Task
            &&& m.nodes[id].duration == duration
            &&& m.rows[id] == row_back::<N>(vector_of::<N>(impact, m.k as nat))
            &&& m.names[id] == name
        },
        Term::Op { kind, prob, low, high } => {
            &&& m.nodes[id].kind == kind
            &&& m.nodes[id].low == root_id(*low, base)
            &&& m.nodes[id].high == root_id(*high, id as nat)
            &&& m.probs[id] == chance_back::<N>(kind, prob)
            &&& shows::<N>(m, *low, base)
            &&& shows::<N>(m, *high, id as nat)
        },
    }
}

proof fn shown<N: Number>(
    m: Model<N::Value>,
    es: Seq<Entry<N::Value>>,
    n: nat,
    t: Term<N::Value>,
    base: nat,
)
    requires
        carries::<N>(es, t, m.k as nat, base),
        formed::<N>(t),
        legible::<N>(t, m.k as nat),
        base + size_v(t) <= n <= u32::MAX,
        m.nodes == arena_v(es, n),
        m.probs == Seq::new(n + 1, |i: int| chance_of::<N>(last_of(es, i))),
        m.rows == Seq::new(n + 1, |i: int| row_of::<N>(last_of(es, i), m.k as nat)),
        m.names == Seq::new(n + 1, |i: int| name_of(last_of(es, i))),
    ensures
        shows::<N>(m, t, base),
    decreases t,
{
    let id = root_id(t, base);
    root_within(t, base);
    assert(m.nodes[id as int] == vertex_of(last_of(es, id as int)));
    if let Term::Op { kind, prob, low, high } = t {
        root_within(*low, base);
        root_within(*high, id);
        shown::<N>(m, es, n, *low, base);
        shown::<N>(m, es, n, *high, id);
    }
}

// ---------------------------------------------------------------------------
// the lines are clean
// ---------------------------------------------------------------------------

proof fn clean_both(a: Seq<char>, b: Seq<char>)
    requires
        clean_line(a),
        clean_line(b),
    ensures
        clean_line(a + b),
{
    without_both(a, b, '\n');
    without_both(a, b, '\r');
}

proof fn clean_three(a: Seq<char>, b: Seq<char>, c: Seq<char>)
    requires
        clean_line(a),
        clean_line(b),
        clean_line(c),
    ensures
        clean_line(a + b + c),
{
    clean_both(a, b);
    clean_both(a + b, c);
}

spec fn all_clean(ls: Seq<Seq<char>>) -> bool {
    forall|i: int| 0 <= i < ls.len() ==> clean_line(#[trigger] ls[i])
}

proof fn all_clean_both(a: Seq<Seq<char>>, b: Seq<Seq<char>>)
    requires
        all_clean(a),
        all_clean(b),
    ensures
        all_clean(a + b),
{
    let c = a + b;
    assert forall|i: int| 0 <= i < c.len() implies clean_line(#[trigger] c[i]) by {
        if i < a.len() {
            assert(clean_line(a[i]));
        } else {
            assert(clean_line(b[i - a.len()]));
        }
    }
}

proof fn words_clean()
    ensures
        clean_line("- task: "@),
        clean_line("  id: "@),
        clean_line("  duration: "@),
        clean_line("  impact: "@),
        clean_line("  low:"@),
        clean_line("  high:"@),
        clean_line("- "@),
        clean_line(":"@),
        clean_line(" "@),
        clean_line("impact_names: ["@),
        clean_line("]"@),
        clean_line("dimensions: "@),
        clean_line("tasks: "@),
        clean_line("nodes: "@),
        clean_line("tree:"@),
        clean_line(", "@),
{
    reveal_strlit("- task: ");
    reveal_strlit("  id: ");
    reveal_strlit("  duration: ");
    reveal_strlit("  impact: ");
    reveal_strlit("  low:");
    reveal_strlit("  high:");
    reveal_strlit("- ");
    reveal_strlit(":");
    reveal_strlit(" ");
    reveal_strlit("impact_names: [");
    reveal_strlit("]");
    reveal_strlit("dimensions: ");
    reveal_strlit("tasks: ");
    reveal_strlit("nodes: ");
    reveal_strlit("tree:");
    reveal_strlit(", ");
}

/// The lines of a process hold no line feed.
proof fn lines_clean<N: Number>(t: Term<N::Value>, k: nat, base: nat, depth: nat)
    requires
        k >= 1,
        formed::<N>(t),
        legible::<N>(t, k),
    ensures
        all_clean(term_lines::<N>(t, k, base, depth)),
    decreases t,
{
    let pad = pad_v(depth);
    words_clean();
    assert(clean_line(pad));
    match t {
        Term::Task { name, duration, impact } => {
            let vs = vector_of::<N>(impact, k);
            word_facts(name);
            natural_back(base + 1, base + 1);
            integer_back(duration as int, 127);
            vector_back::<N>(vs, 0);
            clean_three(pad, "- task: "@, name);
            clean_three(pad, "  id: "@, decimal(base + 1));
            clean_three(pad, "  duration: "@, signed(duration as int));
            clean_three(pad, "  impact: "@, cost_text::<N>(vs));
        },
        Term::Op { kind, prob, low, high } => {
            let id = root_id(t, base);
            let first = opening_lines::<N>(kind, prob, id, depth);
            let a = term_lines::<N>(*low, k, base, depth + 2);
            let b = term_lines::<N>(*high, k, id, depth + 2);
            lines_clean::<N>(*low, k, base, depth + 2);
            lines_clean::<N>(*high, k, id, depth + 2);
            natural_back(id, id);
            kinds_known(kind);
            clean_three(pad, "- "@, kind_text(kind));
            clean_both(pad + "- "@ + kind_text(kind), ":"@);
            if kind == Kind::Nature {
                solid_facts(N::show_v(prob));
                clean_three(pad + "- "@ + kind_text(kind) + ":"@, " "@, N::show_v(prob));
            }
            clean_three(pad, "  id: "@, decimal(id));
            clean_both(pad, "  low:"@);
            clean_both(pad, "  high:"@);
            all_clean_both(first, seq![pad + "  low:"@]);
            all_clean_both(first + seq![pad + "  low:"@], a);
            all_clean_both(first + seq![pad + "  low:"@] + a, seq![pad + "  high:"@]);
            all_clean_both(first + seq![pad + "  low:"@] + a + seq![pad + "  high:"@], b);
        },
    }
}

/// All of these are names.
pub open spec fn all_words(names: Seq<Seq<char>>) -> bool {
    forall|i: int| 0 <= i < names.len() ==> word(#[trigger] names[i])
}

proof fn header_clean<V>(t: Term<V>, names: Seq<Seq<char>>)
    requires
        all_words(names),
        names.len() >= 1,
    ensures
        all_clean(header_lines(t, names)),
{
    words_clean();
    assert forall|i: int| 0 <= i < names.len() implies without(#[trigger] names[i], '\n') by {
        word_facts(names[i]);
    }
    assert forall|i: int| 0 <= i < names.len() implies without(#[trigger] names[i], '\r') by {
        word_facts(names[i]);
    }
    joined_without(names, ", "@, '\n');
    joined_without(names, ", "@, '\r');
    natural_back(names.len(), names.len());
    natural_back(tasks_v(t), tasks_v(t));
    natural_back(size_v(t), size_v(t));
    clean_three("impact_names: ["@, joined(names, ", "@), "]"@);
    clean_both("dimensions: "@, decimal(names.len()));
    clean_both("tasks: "@, decimal(tasks_v(t)));
    clean_both("nodes: "@, decimal(size_v(t)));
}

// ---------------------------------------------------------------------------
// the header
// ---------------------------------------------------------------------------

proof fn names_back(ps: Seq<Seq<char>>, names: Seq<Seq<char>>, n: int)
    requires
        0 <= n <= names.len(),
        ps.len() == names.len(),
        forall|i: int| 0 <= i < names.len() ==> trim_v(#[trigger] ps[i]) == names[i] && names[i].len() > 0,
    ensures
        names_v(ps, n) == names.take(n),
    decreases n,
{
    if n > 0 {
        names_back(ps, names, n - 1);
        assert(trim_v(ps[n - 1]) == names[n - 1]);
        assert(names.take(n - 1).push(names[n - 1]) =~= names.take(n));
    } else {
        assert(names.take(0) =~= Seq::empty());
    }
}

/// A bracketed list of names reads back.
proof fn name_list_back(names: Seq<Seq<char>>)
    requires
        all_words(names),
        names.len() >= 1,
    ensures
        name_list(seq!['['] + joined(names, seq![',', ' ']) + seq![']']) == names,
        tidy(seq!['['] + joined(names, seq![',', ' ']) + seq![']']),
{
    let inner = joined(names, seq![',', ' ']);
    let s = seq!['['] + inner + seq![']'];
    assert forall|i: int| 0 <= i < names.len() implies without(#[trigger] names[i], ',') && tidy(names[i])
        && names[i].len() > 0 by {
        word_facts(names[i]);
    }
    joined_ends(names, seq![',', ' ']);
    word_facts(names[0]);
    word_facts(names[names.len() - 1]);
    let t = inner + seq![']'];
    assert(s.skip(1) =~= t);
    assert(s[0] == '[');
    assert(t[0] == inner[0]);
    assert(shed_start(t, '[') == t);
    assert(shed_start(s, '[') == t);
    assert(t.last() == ']');
    assert(t.drop_last() =~= inner);
    assert(shed_end(inner, ']') == inner);
    assert(shed_end(t, ']') == inner);
    list_back(names);
    let ps = split_v(inner, ',', 0);
    names_back(ps, names, names.len() as int);
    assert(names.take(names.len() as int) =~= names);
}

proof fn header_step(
    ls: Seq<Seq<char>>,
    at: int,
    h: Head,
    g: Head,
    key: Seq<char>,
    value: Seq<char>,
)
    requires
        0 <= at < ls.len(),
        ls[at] == key + seq![':'] + (seq![' '] + value),
        solid(key),
        without(key, ':'),
        tidy(value),
        with_key(h, key, value, at) == Ok::<Head, Fault>(g),
    ensures
        header_v(ls, at, h) == header_v(ls, at + 1, g),
{
    let s = ls[at];
    assert(spaces(0) + s =~= s);
    key_line(s, 0, key, value);
    assert(s.skip(0) =~= s);
    reveal_strlit("tree:");
    assert(s != "tree:"@) by {
        assert(s[s.len() - 1] == value[value.len() - 1]);
        if s == "tree:"@ {
            assert(s[key.len() as int] == ':');
            assert(s.len() == 5);
            assert(key.len() + 2 + value.len() == 5);
            assert(key.len() < 4);
            assert("tree:"@[key.len() as int] != ':');
        }
    }
}

/// The header of an instance file reads back.
proof fn header_back<V>(ls: Seq<Seq<char>>, t: Term<V>, names: Seq<Seq<char>>)
    requires
        all_words(names),
        1 <= names.len() <= usize::MAX,
        size_v(t) <= u32::MAX,
        tasks_v(t) <= u32::MAX,
        ls.len() >= 5,
        ls.take(5) == header_lines(t, names),
    ensures
        key_v(ls) == (empty_head(), 0int),
        header_v(ls, 0, empty_head()) == Ok::<(Head, int), Fault>(
            (
                Head {
                    impact_names: names,
                    dimensions: Some(names.len() as usize),
                    tasks: Some(tasks_v(t) as u32),
                    nodes: Some(size_v(t) as u32),
                    ..empty_head()
                },
                5,
            ),
        ),
{
    assert(ls[0] == ls.take(5)[0]);
    assert(ls[1] == ls.take(5)[1]);
    assert(ls[2] == ls.take(5)[2]);
    assert(ls[3] == ls.take(5)[3]);
    assert(ls[4] == ls.take(5)[4]);
    reveal_strlit("impact_names: [");
    reveal_strlit("impact_names");
    reveal_strlit("]");
    reveal_strlit(", ");
    reveal_strlit("dimensions: ");
    reveal_strlit("dimensions");
    reveal_strlit("tasks: ");
    reveal_strlit("tasks");
    reveal_strlit("nodes: ");
    reveal_strlit("nodes");
    reveal_strlit("tree:");
    reveal_strlit("# ");
    reveal_strlit("nested");
    reveal_strlit("independent");
    reveal_strlit("process_number");
    reveal_strlit("seed");
    reveal_strlit("max_duration");
    name_list_back(names);
    natural_back(names.len(), u64::MAX as nat);
    natural_back(tasks_v(t), u64::MAX as nat);
    natural_back(size_v(t), u64::MAX as nat);
    let list = seq!['['] + joined(names, seq![',', ' ']) + seq![']'];
    assert(", "@ =~= seq![',', ' ']);
    assert(ls[0][0] == 'i');
    assert(!has_prefix(ls[0], "# "@)) by {
        if has_prefix(ls[0], "# "@) {
            assert(ls[0].take(2)[0] == "# "@[0]);
        }
    }
    let h0 = empty_head();
    let h1 = Head { impact_names: names, ..h0 };
    let h2 = Head { dimensions: Some(names.len() as usize), ..h1 };
    let h3 = Head { tasks: Some(tasks_v(t) as u32), ..h2 };
    let h4 = Head { nodes: Some(size_v(t) as u32), ..h3 };
    assert(ls[0] =~= "impact_names"@ + seq![':'] + (seq![' '] + list));
    assert("impact_names"@.len() == 12);
    assert("nested"@.len() == 6 && "independent"@.len() == 11 && "process_number"@.len() == 14
        && "dimensions"@.len() == 10 && "seed"@.len() == 4 && "tasks"@.len() == 5 && "nodes"@.len() == 5
        && "max_duration"@.len() == 12);
    assert("impact_names"@[0] == 'i' && "max_duration"@[0] == 'm');
    header_step(ls, 0, h0, h1, "impact_names"@, list);
    assert(ls[1] =~= "dimensions"@ + seq![':'] + (seq![' '] + decimal(names.len())));
    header_step(ls, 1, h1, h2, "dimensions"@, decimal(names.len()));
    assert(ls[2] =~= "tasks"@ + seq![':'] + (seq![' '] + decimal(tasks_v(t))));
    header_step(ls, 2, h2, h3, "tasks"@, decimal(tasks_v(t)));
    assert("tasks"@[0] == 't' && "nodes"@[0] == 'n');
    assert(ls[3] =~= "nodes"@ + seq![':'] + (seq![' '] + decimal(size_v(t))));
    header_step(ls, 3, h3, h4, "nodes"@, decimal(size_v(t)));
    assert(ls[4] == "tree:"@);
    assert(ls[4][0] == 't');
    trim_leaves(ls[4], 0);
    indent_is(ls[4], 0, 0);
}

/// No two nodes of a process carry the same identifier.
proof fn ids_apart<N: Number>(t: Term<N::Value>, k: nat, base: nat)
    requires
        base + size_v(t) <= u32::MAX,
    ensures
        forall|i: int, j: int|
            0 <= i < j < entries_v::<N>(t, k, base).len() ==> (#[trigger] entries_v::<N>(
                t,
                k,
                base,
            )[i]).id != (#[trigger] entries_v::<N>(t, k, base)[j]).id,
    decreases t,
{
    if let Term::Op { kind, prob, low, high } = t {
        let es = entries_v::<N>(t, k, base);
        let id = root_id(t, base);
        let a = entries_v::<N>(*low, k, base);
        let b = entries_v::<N>(*high, k, id);
        ids_apart::<N>(*low, k, base);
        ids_apart::<N>(*high, k, id);
        entries_within::<N>(*low, k, base, 0);
        entries_within::<N>(*high, k, id, 0);
        assert forall|i: int, j: int| 0 <= i < j < es.len() implies (#[trigger] es[i]).id != (
        #[trigger] es[j]).id by {
            assert(i < a.len() ==> es[i] == a[i]);
            assert(a.len() <= i < a.len() + b.len() ==> es[i] == b[i - a.len()]);
            assert(j < a.len() ==> es[j] == a[j]);
            assert(a.len() <= j < a.len() + b.len() ==> es[j] == b[j - a.len()]);
        }
    }
}

proof fn none_twice<V>(es: Seq<Entry<V>>, i: int)
    requires
        0 <= i,
        forall|a: int, b: int|
            0 <= a < b < es.len() ==> (#[trigger] es[a]).id != (#[trigger] es[b]).id,
    ensures
        twice_v(es, i) is None,
    decreases es.len() - i,
{
    if i < es.len() {
        assert(forall|a: int| 0 <= a < i ==> (#[trigger] es.take(i)[a]) == es[a]);
        none_twice(es, i + 1);
    }
}

/// A process that is written to an instance file reads back: the tree that is
/// read shows the process, numbered in order from one, under the names it was
/// written with.
pub proof fn written_reads_back<N: Number>(t: Term<N::Value>, names: Seq<Seq<char>>)
    requires
        formed::<N>(t),
        all_words(names),
        names.len() >= 1,
        legible::<N>(t, names.len()),
        size_v(t) < u32::MAX,
        (size_v(t) + 1) * names.len() <= usize::MAX,
    ensures
        read_v::<N>(yaml_v::<N>(t, names)) matches Ok(m) && {
            &&& m.n_nodes == size_v(t)
            &&& m.n_tasks == tasks_v(t)
            &&& m.k == names.len()
            &&& m.root == root_id(t, 0)
            &&& m.head.impact_names == names
            &&& shows::<N>(m, t, 0)
        },
{
    let k = names.len();
    let n = size_v(t);
    let body = term_lines::<N>(t, k, 0, 1);
    let ls = header_lines(t, names) + body;
    root_within(t, 0);
    full_binary(t);
    assert(k <= (n + 1) * k) by (nonlinear_arith)
        requires
            n >= 0,
    ;
    lines_clean::<N>(t, k, 0, 1);
    header_clean(t, names);
    all_clean_both(header_lines(t, names), body);
    lines_back(ls);
    assert(ls.take(5) =~= header_lines(t, names));
    header_back(ls, t, names);
    assert(ls.subrange(5, (5 + body.len()) as int) =~= body);
    assert(5 + body.len() == ls.len());
    node_back::<N>(ls, 5, 0, n as u32, t, k, 0, 1);
    let es = entries_v::<N>(t, k, 0);
    carried::<N>(t, k, 0);
    entries_within::<N>(t, k, 0, 0);
    no_stray(es, n as int, 0);
    tasks_counted::<N>(es, n, t, k, 0);
    window_filled::<N>(es, n, t, k, 0);
    ids_apart::<N>(t, k, 0);
    none_twice(es, 0);
    let h = Head {
        impact_names: names,
        dimensions: Some(k as usize),
        tasks: Some(tasks_v(t) as u32),
        nodes: Some(n as u32),
        ..empty_head()
    };
    let r = Subtree { id: root_id(t, 0) as u32, at: ls.len() as int, entries: es, dims: Some(k) };
    assert(task_ids(arena_v(es, n), 0).len() == 0);
    let m = grown_v::<N>(h, r)->Ok_0;
    assert(grown_v::<N>(h, r) is Ok);
    shown::<N>(m, es, n, t, 0);
}

// ---------------------------------------------------------------------------
// what the grammar makes
// ---------------------------------------------------------------------------

proof fn name_is_word(b: Seq<u8>, at: int)
    requires
        0 <= at <= b.len(),
    ensures
        name_v(b, at) matches Ok(p) ==> word(p.0),
{
    skip_bounds(b, at, false);
    let s = skip_v(b, at, false);
    word_bounds(b, s);
    let e = word_end(b, s);
    if e != s {
        let n = chars_v(b, s, e);
        assert forall|i: int| 0 <= i < n.len() implies wordy(#[trigger] n[i]) by {
            assert(is_word(b[s + i]));
        }
    }
}

proof fn one_more_word(names: Seq<Seq<char>>, n: Seq<char>)
    requires
        all_words(names),
        word(n),
    ensures
        all_words(with_name(names, n)),
{
}

proof fn impacts_words<N: Number>(
    b: Seq<u8>,
    at: int,
    task: Seq<char>,
    names: Seq<Seq<char>>,
    impact: Seq<(nat, N::Value)>,
)
    requires
        0 <= at <= b.len(),
        all_words(names),
        all_positive::<N>(impact),
    ensures
        impacts_v::<N>(b, at, task, names, impact) matches Ok(m) ==> all_words(m.names)
            && all_positive::<N>(m.impact),
    decreases b.len() - at,
{
    scan_bounds::<N>(b, at, 0x3a);
    name_is_word(b, at);
    if name_v(b, at) is Ok {
        let (n, p) = name_v(b, at)->Ok_0;
        one_more_word(names, n);
        scan_bounds::<N>(b, p, 0x3a);
        if eat_v(b, p, 0x3a) is Ok {
            let q = eat_v(b, p, 0x3a)->Ok_0;
            scan_bounds::<N>(b, q, 0x3a);
            if number_v::<N>(b, q) is Ok {
                let (v, r) = number_v::<N>(b, q)->Ok_0;
                skip_bounds(b, r, false);
                let s = skip_v(b, r, false);
                let more = impact.push((index_of(names, n) as nat, v));
                if !N::le_v(v, N::zero_v()) {
                    assert(all_positive::<N>(more));
                }
                if s < b.len() && !N::le_v(v, N::zero_v()) {
                    impacts_words::<N>(
                        b,
                        s + 1,
                        task,
                        with_name(names, n),
                        more,
                    );
                }
            }
        }
    }
}

proof fn map_words<N: Number>(b: Seq<u8>, at: int, task: Seq<char>, names: Seq<Seq<char>>)
    requires
        0 <= at <= b.len(),
        all_words(names),
    ensures
        map_v::<N>(b, at, task, names) matches Ok(m) ==> all_words(m.names) && all_positive::<N>(
            m.impact,
        ),
{
    skip_bounds(b, at, false);
    let s = skip_v(b, at, false);
    if s < b.len() {
        scan_bounds::<N>(b, s + 1, 0x7b);
        if eat_v(b, s + 1, 0x7b) is Ok {
            impacts_words::<N>(b, eat_v(b, s + 1, 0x7b)->Ok_0, task, names, Seq::empty());
        }
    }
}

/// What is read is a process with names for its impacts.
spec fn good<N: Number>(r: Reading<N::Value>) -> bool {
    formed::<N>(r.term) && all_words(r.names)
}

proof fn task_formed<N: Number>(b: Seq<u8>, at: int, names: Seq<Seq<char>>)
    requires
        0 <= at <= b.len(),
        all_words(names),
    ensures
        task_v::<N>(b, at, names) matches Ok(r) ==> good::<N>(r),
{
    scan_bounds::<N>(b, at, 0);
    name_is_word(b, at);
    if name_v(b, at) is Ok {
        let (n, p) = name_v(b, at)->Ok_0;
        scan_bounds::<N>(b, p, 0x2c);
        if eat_v(b, p, 0x2c) is Ok {
            let q = eat_v(b, p, 0x2c)->Ok_0;
            scan_bounds::<N>(b, q, 0);
            if number_v::<N>(b, q) is Ok {
                let (d, r) = number_v::<N>(b, q)->Ok_0;
                map_words::<N>(b, r, n, names);
                assert(N::integral_v(d) is Some ==> N::integral_v(d) == Some(N::integral_v(d)->0));
            }
        }
    }
}

proof fn region_formed<N: Number>(b: Seq<u8>, at: int, names: Seq<Seq<char>>)
    requires
        0 <= at <= b.len(),
        all_words(names),
    ensures
        region_v::<N>(b, at, names) matches Ok(r) ==> good::<N>(r),
    decreases b.len() - at, 0nat,
{
    scan_bounds::<N>(b, at, 0x28);
    if eat_v(b, at, 0x28) is Ok {
        let p = eat_v(b, at, 0x28)->Ok_0;
        skip_bounds(b, p, false);
        let s = skip_v(b, p, false);
        if s < b.len() {
            process_formed::<N>(b, s, names, true);
        }
        task_formed::<N>(b, p, names);
    }
}

proof fn process_formed<N: Number>(b: Seq<u8>, at: int, names: Seq<Seq<char>>, inside: bool)
    requires
        0 <= at <= b.len(),
        all_words(names),
    ensures
        process_v::<N>(b, at, names, inside) matches Ok(r) ==> good::<N>(r),
    decreases b.len() - at, 1nat,
{
    region_formed::<N>(b, at, names);
    region_advances::<N>(b, at, names);
    if region_v::<N>(b, at, names) is Ok {
        let low = region_v::<N>(b, at, names)->Ok_0;
        skip_bounds(b, low.at, false);
        let s = skip_v(b, low.at, false);
        chain_formed::<N>(b, low);
        operator_advances::<N>(b, s);
        if let Ok(Some(o)) = operator_v::<N>(b, s) {
            region_formed::<N>(b, o.2, low.names);
        }
    }
}

proof fn chain_formed<N: Number>(b: Seq<u8>, low: Reading<N::Value>)
    requires
        0 <= low.at <= b.len(),
        good::<N>(low),
    ensures
        chain_v::<N>(b, low) matches Ok(r) ==> good::<N>(r),
    decreases b.len() - low.at, 1nat,
{
    skip_bounds(b, low.at, false);
    let s = skip_v(b, low.at, false);
    if s < b.len() {
        region_formed::<N>(b, s + 1, low.names);
        region_advances::<N>(b, s + 1, low.names);
        if region_v::<N>(b, s + 1, low.names) is Ok {
            let high = region_v::<N>(b, s + 1, low.names)->Ok_0;
            chain_formed::<N>(b, composed(Kind::Sequence, N::zero_v(), low, high));
        }
    }
}

/// A process written in the grammar goes through the instance file unharmed:
/// what is read back shows the process as it was written, its nodes numbered in
/// order, its impacts under the names in the order of their first appearance.
/// The durations have to be those a state can hold, and the numbers such that
/// their literals read back.
pub proof fn process_reads_back<N: Number>(b: Seq<u8>)
    requires
        process_of::<N>(b) matches Ok(r) && {
            &&& legible::<N>(r.term, r.names.len())
            &&& size_v(r.term) < u32::MAX
            &&& (size_v(r.term) + 1) * r.names.len() <= usize::MAX
        },
    ensures
        process_of::<N>(b) matches Ok(r) && read_v::<N>(yaml_v::<N>(r.term, r.names)) matches Ok(m) && {
            &&& m.n_nodes == size_v(r.term)
            &&& m.n_tasks == tasks_v(r.term)
            &&& m.k == r.names.len()
            &&& m.root == root_id(r.term, 0)
            &&& m.head.impact_names == r.names
            &&& shows::<N>(m, r.term, 0)
        },
{
    let r = process_of::<N>(b)->Ok_0;
    process_formed::<N>(b, 0, Seq::empty(), false);
    written_reads_back::<N>(r.term, r.names);
}

/// The numbers of a process keep their value through their literals.
pub open spec fn kept<N: Number>(t: Term<N::Value>, k: nat) -> bool
    decreases t,
{
    match t {
        Term::Task { name, duration, impact } => forall|c: int|
            0 <= c < k ==> N::real_of(row_back::<N>(vector_of::<N>(impact, k))[c]) == N::real_of(
                #[trigger] vector_of::<N>(impact, k)[c],
            ),
        Term::Op { kind, prob, low, high } => {
            &&& N::real_of(chance_back::<N>(kind, prob)) == N::real_of(prob)
            &&& kept::<N>(*low, k)
            &&& kept::<N>(*high, k)
        },
    }
}

/// The durations of a process are those a state can hold.
pub open spec fn short<V>(t: Term<V>) -> bool
    decreases t,
{
    match t {
        Term::Task { name, duration, impact } => duration <= 127,
        Term::Op { kind, prob, low, high } => short(*low) && short(*high),
    }
}

proof fn values_positive<N: Number>(impact: Seq<(nat, N::Value)>, i: int)
    requires
        exact::<N>(),
        all_positive::<N>(impact),
    ensures
        N::le_v(N::zero_v(), value_at::<N>(impact, i)),
    decreases impact.len(),
{
    if impact.len() > 0 {
        assert(impact.last() == impact[impact.len() - 1]);
        assert(all_positive::<N>(impact.drop_last())) by {
            assert forall|j: int| 0 <= j < impact.len() - 1 implies !N::le_v(
                (#[trigger] impact.drop_last()[j]).1,
                N::zero_v(),
            ) by {
                assert(impact.drop_last()[j] == impact[j]);
            }
        }
        values_positive::<N>(impact.drop_last(), i);
    }
}

/// Every process over decimals is legible and keeps its numbers.
proof fn decimals_kept(t: Term<Dec>, k: nat)
    requires
        formed::<Decimal>(t),
        short(t),
    ensures
        legible::<Decimal>(t, k),
        kept::<Decimal>(t, k),
    decreases t,
{
    decimals_are_exact();
    match t {
        Term::Task { name, duration, impact } => {
            let vs = vector_of::<Decimal>(impact, k);
            assert forall|c: int| 0 <= c < k implies {
                let text = number_text::<Decimal>(#[trigger] vs[c]);
                &&& readable::<Decimal>(text)
                &&& Decimal::le_v(Decimal::zero_v(), back::<Decimal>(text))
                &&& Decimal::real_of(row_back::<Decimal>(vs)[c]) == Decimal::real_of(vs[c])
            } by {
                number_reads_back(vs[c]);
                values_positive::<Decimal>(impact, c);
            }
            let d = choose|d: Dec|
                !Decimal::le_v(d, Decimal::zero_v()) && #[trigger] Decimal::integral_v(d) == Some(
                    duration,
                );
            positive_integral(d);
        },
        Term::Op { kind, prob, low, high } => {
            shown_reads_back(prob);
            decimals_kept(*low, k);
            decimals_kept(*high, k);
        },
    }
}

/// A process over decimals whose durations a state can hold goes through the
/// instance file with its numbers unchanged: what is read back shows the process, and every probability and
/// every impact is the real number it was.
pub proof fn decimals_read_back(b: Seq<u8>)
    requires
        process_of::<Decimal>(b) matches Ok(r) && {
            &&& short(r.term)
            &&& size_v(r.term) < u32::MAX
            &&& (size_v(r.term) + 1) * r.names.len() <= usize::MAX
        },
    ensures
        process_of::<Decimal>(b) matches Ok(r) && read_v::<Decimal>(
            yaml_v::<Decimal>(r.term, r.names),
        ) matches Ok(m) && {
            &&& m.n_nodes == size_v(r.term)
            &&& m.n_tasks == tasks_v(r.term)
            &&& m.k == r.names.len()
            &&& m.root == root_id(r.term, 0)
            &&& m.head.impact_names == r.names
            &&& shows::<Decimal>(m, r.term, 0)
            &&& kept::<Decimal>(r.term, r.names.len())
        },
{
    let r = process_of::<Decimal>(b)->Ok_0;
    process_formed::<Decimal>(b, 0, Seq::empty(), false);
    decimals_kept(r.term, r.names.len());
    process_reads_back::<Decimal>(b);
}

} // verus!
