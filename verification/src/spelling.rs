//! How a process is spelled, and that it is read as it is spelled.

use vstd::prelude::*;
use crate::grammar::{
    chain_v, composed, impacts_v, index_of, map_v, named, operator_v, process_of, process_v,
    region_v, task_v, with_name, Reading, Term,
};
use crate::num::Number;
use crate::scan::{
    chars_v, eat_v, in_number, is_blank, is_word, name_v, number_end, number_v, sees, skip_v,
    word_end,
};
use crate::tree::Kind;

verus! {

// ---------------------------------------------------------------------------
// spellings
// ---------------------------------------------------------------------------

/// A letter, a digit or an underscore.
pub open spec fn name_byte(b: u8) -> bool {
    let c = b as char;
    'a' <= c <= 'z' || 'A' <= c <= 'Z' || '0' <= c <= '9' || c == '_'
}

/// A name: letters, digits and underscores, one at least.
pub open spec fn is_name(w: Seq<u8>) -> bool {
    w.len() > 0 && forall|i: int| 0 <= i < w.len() ==> name_byte(#[trigger] w[i])
}

/// What a literal may hold: digits, a point, an exponent with its sign.
pub open spec fn numeral_byte(w: Seq<u8>, i: int) -> bool {
    let c = w[i] as char;
    ||| '0' <= c <= '9'
    ||| c == '.'
    ||| c == 'e'
    ||| c == 'E'
    ||| c == '+'
    ||| c == '-' && i > 0 && (w[i - 1] as char == 'e' || w[i - 1] as char == 'E')
}

/// The characters of these bytes.
pub open spec fn letters(w: Seq<u8>) -> Seq<char> {
    Seq::new(w.len(), |i: int| w[i] as char)
}

/// A literal that denotes a number.
pub open spec fn is_numeral<N: Number>(w: Seq<u8>) -> bool {
    &&& w.len() > 0
    &&& forall|i: int| 0 <= i < w.len() ==> #[trigger] numeral_byte(w, i)
    &&& N::read_v(letters(w)) is Some
}

/// The number a literal denotes.
pub open spec fn denoted<N: Number>(w: Seq<u8>) -> N::Value {
    N::read_v(letters(w))->0
}

/// What stands between two regions.
pub enum Mark {
    /// `->`
    Arrow,
    /// `,`
    Comma,
    /// `||`
    Bars,
    /// `^`
    Choose,
    /// `^[p]`
    Draw { chance: Seq<u8> },
}

/// A process as it is spelled. A comma may go on from the commas before it
/// without parentheses around them.
pub enum Spelling {
    Task { name: Seq<u8>, duration: Seq<u8>, map: Option<Seq<(Seq<u8>, Seq<u8>)>> },
    Op { mark: Mark, chained: bool, low: Box<Spelling>, high: Box<Spelling> },
    /// One more pair of parentheses around a region.
    Nested { inner: Box<Spelling> },
}

pub open spec fn mark_bytes(m: Mark) -> Seq<u8> {
    match m {
        Mark::Arrow => seq![0x2du8, 0x3eu8],
        Mark::Comma => seq![0x2cu8],
        Mark::Bars => seq![0x7cu8, 0x7cu8],
        Mark::Choose => seq![0x5eu8],
        Mark::Draw { chance } => seq![0x5eu8, 0x5bu8] + chance + seq![0x5du8],
    }
}

/// `name:value`, and a comma before each but the first, from the entry `i` on.
pub open spec fn entry_bytes(es: Seq<(Seq<u8>, Seq<u8>)>, i: int) -> Seq<u8>
    decreases es.len() - i,
{
    if i >= es.len() {
        Seq::empty()
    } else {
        es[i].0 + seq![0x3au8] + es[i].1 + if i + 1 < es.len() {
            seq![0x2cu8] + entry_bytes(es, i + 1)
        } else {
            Seq::empty()
        }
    }
}

/// `,{...}`, or nothing.
pub open spec fn map_bytes(map: Option<Seq<(Seq<u8>, Seq<u8>)>>) -> Seq<u8> {
    match map {
        None => Seq::empty(),
        Some(es) => seq![0x2cu8, 0x7bu8] + entry_bytes(es, 0) + seq![0x7du8],
    }
}

/// A region: `(name,duration,{...})`, or a process between parentheses.
pub open spec fn region_bytes(w: Spelling) -> Seq<u8>
    decreases w, 1nat,
{
    seq![0x28u8] + inner_bytes(w) + seq![0x29u8]
}

/// What stands between the parentheses of a region.
pub open spec fn inner_bytes(w: Spelling) -> Seq<u8>
    decreases w, 0nat,
{
    match w {
        Spelling::Task { name, duration, map } => name + seq![0x2cu8] + duration + map_bytes(map),
        Spelling::Op { mark, chained, low, high } => (if chained {
            inner_bytes(*low)
        } else {
            region_bytes(*low)
        }) + mark_bytes(mark) + region_bytes(*high),
        Spelling::Nested { inner } => region_bytes(*inner),
    }
}

// ---------------------------------------------------------------------------
// what a spelling means
// ---------------------------------------------------------------------------

/// The kind of node a mark makes.
pub open spec fn mark_kind(m: Mark) -> Kind {
    match m {
        Mark::Arrow => Kind::Sequence,
        Mark::Comma => Kind::Sequence,
        Mark::Bars => Kind::Parallel,
        Mark::Choose => Kind::Choice,
        Mark::Draw { .. } => Kind::Nature,
    }
}

pub open spec fn entries_of(map: Option<Seq<(Seq<u8>, Seq<u8>)>>) -> Seq<(Seq<u8>, Seq<u8>)> {
    match map {
        None => Seq::empty(),
        Some(es) => es,
    }
}

/// A spelling the grammar takes: names are names and literals are literals; a
/// duration is a positive integer, an impact is positive and a task names it
/// once, a probability lies between zero and one; and only a comma goes on from
/// commas.
pub open spec fn sound<N: Number>(w: Spelling) -> bool
    decreases w,
{
    match w {
        Spelling::Task { name, duration, map } => {
            let es = entries_of(map);
            &&& is_name(name)
            &&& is_numeral::<N>(duration)
            &&& !N::le_v(denoted::<N>(duration), N::zero_v())
            &&& N::integral_v(denoted::<N>(duration)) is Some
            &&& forall|i: int|
                0 <= i < es.len() ==> {
                    &&& is_name((#[trigger] es[i]).0)
                    &&& is_numeral::<N>(es[i].1)
                    &&& !N::le_v(denoted::<N>(es[i].1), N::zero_v())
                }
            &&& forall|i: int, j: int|
                0 <= i < j < es.len() ==> letters((#[trigger] es[i]).0) != letters(
                    (#[trigger] es[j]).0,
                )
        },
        Spelling::Op { mark, chained, low, high } => {
            &&& mark matches Mark::Draw { chance } ==> {
                &&& is_numeral::<N>(chance)
                &&& N::lt_v(N::zero_v(), denoted::<N>(chance))
                &&& N::lt_v(denoted::<N>(chance), N::one_v())
            }
            &&& chained ==> mark is Comma && (*low matches Spelling::Op { mark: m, .. } && m is Comma)
            &&& sound::<N>(*low)
            &&& sound::<N>(*high)
        },
        Spelling::Nested { inner } => sound::<N>(*inner),
    }
}

/// The impacts of a task are those of its map: each by the name it goes by among
/// these names, with its value.
pub open spec fn impacts_mean<N: Number>(
    impact: Seq<(nat, N::Value)>,
    names: Seq<Seq<char>>,
    es: Seq<(Seq<u8>, Seq<u8>)>,
    n: int,
) -> bool {
    &&& impact.len() == n
    &&& forall|i: int|
        0 <= i < n ==> {
            &&& (#[trigger] impact[i]).0 < names.len()
            &&& names[impact[i].0 as int] == letters(es[i].0)
            &&& impact[i].1 == denoted::<N>(es[i].1)
        }
}

/// A term is what a spelling says, its impacts going by these names.
pub open spec fn means<N: Number>(t: Term<N::Value>, names: Seq<Seq<char>>, w: Spelling) -> bool
    decreases w,
{
    match w {
        Spelling::Task { name, duration, map } => t matches Term::Task {
            name: n,
            duration: d,
            impact,
        } && {
            &&& n == letters(name)
            &&& Some(d) == N::integral_v(denoted::<N>(duration))
            &&& impacts_mean::<N>(impact, names, entries_of(map), entries_of(map).len() as int)
        },
        Spelling::Op { mark, chained, low, high } => t matches Term::Op {
            kind,
            prob,
            low: l,
            high: h,
        } && {
            &&& kind == mark_kind(mark)
            &&& prob == (match mark {
                Mark::Draw { chance } => denoted::<N>(chance),
                _ => N::zero_v(),
            })
            &&& means::<N>(*l, names, *low)
            &&& means::<N>(*h, names, *high)
        },
        Spelling::Nested { inner } => means::<N>(t, names, *inner),
    }
}

/// The names of a map.
pub open spec fn entry_names(es: Seq<(Seq<u8>, Seq<u8>)>) -> Seq<Seq<char>> {
    Seq::new(es.len(), |i: int| letters(es[i].0))
}

/// The impact names a spelling mentions, in the order in which it does.
pub open spec fn mentions(w: Spelling) -> Seq<Seq<char>>
    decreases w,
{
    match w {
        Spelling::Task { name, duration, map } => entry_names(entries_of(map)),
        Spelling::Op { mark, chained, low, high } => mentions(*low) + mentions(*high),
        Spelling::Nested { inner } => mentions(*inner),
    }
}

/// These names and, behind them, those that are mentioned and not among them yet,
/// in the order of their first appearance.
pub open spec fn gathered(names: Seq<Seq<char>>, said: Seq<Seq<char>>) -> Seq<Seq<char>>
    decreases said.len(),
{
    if said.len() == 0 {
        names
    } else {
        let g = gathered(names, said.drop_last());
        if g.contains(said.last()) {
            g
        } else {
            g.push(said.last())
        }
    }
}

// ---------------------------------------------------------------------------
// names
// ---------------------------------------------------------------------------

proof fn gathered_on(names: Seq<Seq<char>>, a: Seq<Seq<char>>, b: Seq<Seq<char>>)
    ensures
        gathered(gathered(names, a), b) == gathered(names, a + b),
    decreases b.len(),
{
    if b.len() == 0 {
        assert(a + b =~= a);
    } else {
        gathered_on(names, a, b.drop_last());
        assert((a + b).drop_last() =~= a + b.drop_last());
        assert((a + b).last() == b.last());
    }
}

/// The names that were there stay where they were.
spec fn keeps(a: Seq<Seq<char>>, b: Seq<Seq<char>>) -> bool {
    a.len() <= b.len() && forall|i: int| 0 <= i < a.len() ==> #[trigger] b[i] == a[i]
}

proof fn gathered_keeps(names: Seq<Seq<char>>, said: Seq<Seq<char>>)
    ensures
        keeps(names, gathered(names, said)),
    decreases said.len(),
{
    if said.len() > 0 {
        gathered_keeps(names, said.drop_last());
    }
}

proof fn index_found(names: Seq<Seq<char>>, n: Seq<char>)
    ensures
        0 <= index_of(names, n) <= names.len(),
        index_of(names, n) < names.len() ==> names[index_of(names, n)] == n,
        index_of(names, n) == names.len() ==> !names.contains(n),
    decreases names.len(),
{
    if names.len() > 0 {
        let front = names.drop_last();
        index_found(front, n);
        if index_of(front, n) < names.len() - 1 {
            assert(front[index_of(front, n)] == names[index_of(front, n)]);
        } else if names.last() != n {
            if names.contains(n) {
                let i = names.index_of(n);
                assert(front[i] == n);
            }
        }
    }
}

proof fn name_gathered(names: Seq<Seq<char>>, n: Seq<char>)
    ensures
        with_name(names, n) == gathered(names, seq![n]),
        with_name(names, n)[index_of(names, n)] == n,
        index_of(names, n) < with_name(names, n).len(),
{
    index_found(names, n);
    let one = seq![n];
    assert(one.drop_last() =~= Seq::empty());
    assert(gathered(names, one.drop_last()) == names);
    assert(one.last() == n);
    if index_of(names, n) < names.len() {
        assert(names.contains(n));
    }
}

proof fn means_kept<N: Number>(t: Term<N::Value>, a: Seq<Seq<char>>, b: Seq<Seq<char>>, w: Spelling)
    requires
        means::<N>(t, a, w),
        keeps(a, b),
    ensures
        means::<N>(t, b, w),
    decreases w,
{
    match w {
        Spelling::Task { name, duration, map } => {
            let impact = t->impact;
            let es = entries_of(map);
            assert forall|i: int| 0 <= i < es.len() implies {
                &&& (#[trigger] impact[i]).0 < b.len()
                &&& b[impact[i].0 as int] == letters(es[i].0)
                &&& impact[i].1 == denoted::<N>(es[i].1)
            } by {
                assert(b[impact[i].0 as int] == a[impact[i].0 as int]);
            }
        },
        Spelling::Op { mark, chained, low, high } => {
            means_kept::<N>(*t->low, a, b, *low);
            means_kept::<N>(*t->high, a, b, *high);
        },
        Spelling::Nested { inner } => {
            means_kept::<N>(t, a, b, *inner);
        },
    }
}

// ---------------------------------------------------------------------------
// tokens
// ---------------------------------------------------------------------------

/// These bytes stand at a place.
pub open spec fn stands(b: Seq<u8>, at: int, w: Seq<u8>) -> bool {
    &&& 0 <= at
    &&& at + w.len() <= b.len()
    &&& forall|i: int| 0 <= i < w.len() ==> b[at + i] == #[trigger] w[i]
}

proof fn stands_both(b: Seq<u8>, at: int, u: Seq<u8>, v: Seq<u8>)
    requires
        stands(b, at, u + v),
    ensures
        stands(b, at, u),
        stands(b, (at + u.len()) as int, v),
{
    assert forall|i: int| 0 <= i < u.len() implies b[at + i] == #[trigger] u[i] by {
        assert((u + v)[i] == u[i]);
    }
    assert forall|i: int| 0 <= i < v.len() implies b[at + u.len() + i] == #[trigger] v[i] by {
        assert((u + v)[u.len() + i] == v[i]);
    }
}

proof fn stands_all(b: Seq<u8>)
    ensures
        stands(b, 0, b),
{
}

/// A byte that is neither blank nor opens a comment is not skipped.
proof fn not_skipped(b: Seq<u8>, at: int)
    requires
        0 <= at <= b.len(),
        at < b.len() ==> !is_blank(b[at]) && b[at] != 0x23,
    ensures
        skip_v(b, at, false) == at,
{
}

proof fn byte_eaten(b: Seq<u8>, at: int, c: u8)
    requires
        0 <= at < b.len(),
        b[at] == c,
        !is_blank(c),
        c != 0x23,
    ensures
        eat_v(b, at, c) == Ok::<int, Seq<char>>(at + 1),
{
    not_skipped(b, at);
}

proof fn word_ends(b: Seq<u8>, at: int, e: int)
    requires
        0 <= at <= e <= b.len(),
        forall|i: int| at <= i < e ==> name_byte(#[trigger] b[i]),
        e == b.len() || !name_byte(b[e]),
    ensures
        word_end(b, at) == e,
    decreases e - at,
{
    if at < e {
        assert(name_byte(b[at]));
        word_ends(b, at + 1, e);
    }
}

/// Every run of letters, digits and underscores is one name, up to the first
/// byte that is none of these.
pub proof fn names_are_read(b: Seq<u8>, at: int, w: Seq<u8>)
    requires
        stands(b, at, w),
        is_name(w),
        at + w.len() == b.len() || !name_byte(b[(at + w.len()) as int]),
    ensures
        name_v(b, at) == Ok::<(Seq<char>, int), Seq<char>>((letters(w), (at + w.len()) as int)),
{
    let e = (at + w.len()) as int;
    assert(b[at + 0] == w[0]);
    assert(name_byte(w[0]));
    not_skipped(b, at);
    assert forall|i: int| at <= i < e implies name_byte(#[trigger] b[i]) by {
        assert(b[at + (i - at)] == w[i - at]);
    }
    word_ends(b, at, e);
    assert(chars_v(b, at, e) =~= letters(w));
}

/// Nothing but a run of letters, digits and underscores is a name, and it is
/// taken whole.
pub proof fn names_are_runs(b: Seq<u8>, at: int)
    requires
        0 <= at <= b.len(),
        at < b.len() ==> !is_blank(b[at]) && b[at] != 0x23,
    ensures
        name_v(b, at) matches Ok((n, e)) ==> {
            &&& at < e <= b.len()
            &&& is_name(b.subrange(at, e))
            &&& n == letters(b.subrange(at, e))
            &&& e == b.len() || !name_byte(b[e])
        },
        name_v(b, at) is Err <==> at == b.len() || !name_byte(b[at]),
{
    not_skipped(b, at);
    let e = word_end(b, at);
    run_of(b, at);
    if e > at {
        let w = b.subrange(at, e);
        assert forall|i: int| 0 <= i < w.len() implies name_byte(#[trigger] w[i]) by {
            assert(name_byte(b[at + i]));
        }
        assert(chars_v(b, at, e) =~= letters(w));
        assert(name_byte(b[at]));
    }
}

proof fn run_of(b: Seq<u8>, at: int)
    requires
        0 <= at <= b.len(),
    ensures
        at <= word_end(b, at) <= b.len(),
        forall|i: int| at <= i < word_end(b, at) ==> name_byte(#[trigger] b[i]),
        word_end(b, at) == b.len() || !name_byte(b[word_end(b, at)]),
    decreases b.len() - at,
{
    if at < b.len() && is_word(b[at]) {
        run_of(b, at + 1);
    }
}

proof fn numeral_ends(b: Seq<u8>, at: int, e: int)
    requires
        0 <= at <= e <= b.len(),
        forall|i: int| at <= i < e ==> #[trigger] in_number(b, i),
        e == b.len() || !in_number(b, e),
    ensures
        number_end(b, at) == e,
    decreases e - at,
{
    if at < e {
        assert(in_number(b, at));
        numeral_ends(b, at + 1, e);
    }
}

/// A byte that ends a literal: a comma or a closing bracket of any kind.
pub open spec fn closes_numeral(c: u8) -> bool {
    c == 0x2c || c == 0x7d || c == 0x29 || c == 0x5d
}

/// Every literal is read whole, up to the comma or the bracket behind it, as the
/// number it denotes.
pub proof fn numerals_are_read<N: Number>(b: Seq<u8>, at: int, w: Seq<u8>)
    requires
        stands(b, at, w),
        is_numeral::<N>(w),
        at + w.len() < b.len(),
        closes_numeral(b[(at + w.len()) as int]),
    ensures
        number_v::<N>(b, at) == Ok::<(N::Value, int), Seq<char>>(
            (denoted::<N>(w), (at + w.len()) as int),
        ),
{
    let e = (at + w.len()) as int;
    assert(b[at + 0] == w[0]);
    assert(numeral_byte(w, 0));
    not_skipped(b, at);
    assert forall|i: int| at <= i < e implies #[trigger] in_number(b, i) by {
        let j = i - at;
        assert(b[at + j] == w[j]);
        assert(numeral_byte(w, j));
        if j > 0 {
            assert(b[at + (j - 1)] == w[j - 1]);
        }
    }
    assert(!in_number(b, e));
    numeral_ends(b, at, e);
    assert(chars_v(b, at, e) =~= letters(w));
}

// ---------------------------------------------------------------------------
// tasks
// ---------------------------------------------------------------------------

/// The entries of a map can be taken.
spec fn entries_sound<N: Number>(es: Seq<(Seq<u8>, Seq<u8>)>) -> bool {
    &&& forall|i: int|
        0 <= i < es.len() ==> {
            &&& is_name((#[trigger] es[i]).0)
            &&& is_numeral::<N>(es[i].1)
            &&& !N::le_v(denoted::<N>(es[i].1), N::zero_v())
        }
    &&& forall|i: int, j: int|
        0 <= i < j < es.len() ==> letters((#[trigger] es[i]).0) != letters((#[trigger] es[j]).0)
}

proof fn impacts_read<N: Number>(
    b: Seq<u8>,
    at: int,
    task: Seq<char>,
    names: Seq<Seq<char>>,
    impact: Seq<(nat, N::Value)>,
    es: Seq<(Seq<u8>, Seq<u8>)>,
    i: int,
)
    requires
        entries_sound::<N>(es),
        0 <= i < es.len(),
        stands(b, at, entry_bytes(es, i)),
        at + entry_bytes(es, i).len() < b.len(),
        b[(at + entry_bytes(es, i).len()) as int] == 0x7d,
        impacts_mean::<N>(impact, names, es, i),
    ensures
        impacts_v::<N>(b, at, task, names, impact) matches Ok(m) && {
            &&& m.at == at + entry_bytes(es, i).len()
            &&& m.names == gathered(names, entry_names(es).skip(i))
            &&& impacts_mean::<N>(m.impact, m.names, es, es.len() as int)
        },
    decreases es.len() - i,
{
    let (n, v) = es[i];
    assert(is_name(n) && is_numeral::<N>(v));
    let tail = if i + 1 < es.len() {
        seq![0x2cu8] + entry_bytes(es, i + 1)
    } else {
        Seq::empty()
    };
    let all = entry_bytes(es, i);
    assert(all == n + seq![0x3au8] + v + tail);
    assert(all =~= n + (seq![0x3au8] + (v + tail)));
    stands_both(b, at, n, seq![0x3au8] + (v + tail));
    let p = (at + n.len()) as int;
    stands_both(b, p, seq![0x3au8], v + tail);
    stands_both(b, p + 1, v, tail);
    assert(b[p + 0] == seq![0x3au8][0]);
    names_are_read(b, at, n);
    byte_eaten(b, p, 0x3a);
    let r = (p + 1 + v.len()) as int;
    if i + 1 < es.len() {
        assert(b[r + 0] == tail[0]);
    } else {
        assert(all.len() == n.len() + 1 + v.len());
    }
    numerals_are_read::<N>(b, p + 1, v);
    not_skipped(b, r);
    let name = letters(n);
    let k = index_of(names, name);
    let known = with_name(names, name);
    name_gathered(names, name);
    index_found(names, name);
    let more = impact.push((k as nat, denoted::<N>(v)));
    assert(!named(impact, k)) by {
        assert forall|j: int| 0 <= j < impact.len() implies (#[trigger] impact[j]).0 != k by {
            assert(names[impact[j].0 as int] == letters(es[j].0));
            assert(letters(es[j].0) != letters(es[i].0));
        }
    }
    gathered_keeps(names, seq![name]);
    assert(impacts_mean::<N>(more, known, es, i + 1)) by {
        assert forall|j: int| 0 <= j < i + 1 implies {
            &&& (#[trigger] more[j]).0 < known.len()
            &&& known[more[j].0 as int] == letters(es[j].0)
            &&& more[j].1 == denoted::<N>(es[j].1)
        } by {
            if j < i {
                assert(more[j] == impact[j]);
                assert(known[impact[j].0 as int] == names[impact[j].0 as int]);
            }
        }
    }
    let said = entry_names(es);
    if i + 1 < es.len() {
        stands_both(b, r, seq![0x2cu8], entry_bytes(es, i + 1));
        impacts_read::<N>(b, r + 1, task, known, more, es, i + 1);
        gathered_on(names, seq![name], said.skip(i + 1));
        assert(seq![name] + said.skip(i + 1) =~= said.skip(i));
    } else {
        assert(said.skip(i) =~= seq![name]);
    }
}

proof fn map_read<N: Number>(
    b: Seq<u8>,
    at: int,
    task: Seq<char>,
    names: Seq<Seq<char>>,
    map: Option<Seq<(Seq<u8>, Seq<u8>)>>,
)
    requires
        entries_sound::<N>(entries_of(map)),
        stands(b, at, map_bytes(map)),
        at + map_bytes(map).len() < b.len(),
        b[(at + map_bytes(map).len()) as int] == 0x29,
    ensures
        map_v::<N>(b, at, task, names) matches Ok(m) && {
            &&& m.at == at + map_bytes(map).len()
            &&& m.names == gathered(names, entry_names(entries_of(map)))
            &&& impacts_mean::<N>(m.impact, m.names, entries_of(map), entries_of(map).len() as int)
        },
{
    let es = entries_of(map);
    let said = entry_names(es);
    match map {
        None => {
            not_skipped(b, at);
            assert(said =~= Seq::empty());
        },
        Some(_) => {
            let inner = entry_bytes(es, 0);
            assert(map_bytes(map) =~= seq![0x2cu8] + (seq![0x7bu8] + (inner + seq![0x7du8])));
            stands_both(b, at, seq![0x2cu8], seq![0x7bu8] + (inner + seq![0x7du8]));
            stands_both(b, at + 1, seq![0x7bu8], inner + seq![0x7du8]);
            stands_both(b, at + 2, inner, seq![0x7du8]);
            assert(b[at + 0] == seq![0x2cu8][0]);
            assert(b[at + 1 + 0] == seq![0x7bu8][0]);
            let e = (at + 2 + inner.len()) as int;
            assert(b[e + 0] == seq![0x7du8][0]);
            not_skipped(b, at);
            byte_eaten(b, at + 1, 0x7b);
            if es.len() == 0 {
                assert(inner =~= Seq::empty());
                not_skipped(b, at + 2);
                assert(said =~= Seq::empty());
            } else {
                let w = es[0].0;
                assert(is_name(w));
                assert(inner[0] == w[0]);
                assert(b[at + 2 + 0] == inner[0]);
                assert(name_byte(w[0]));
                not_skipped(b, at + 2);
                impacts_read::<N>(b, at + 2, task, names, Seq::empty(), es, 0);
                assert(said.skip(0) =~= said);
            }
            byte_eaten(b, e, 0x7d);
        },
    }
}

/// A term was read from these bytes on: it ends where they do, it means what was
/// spelled, and the names it mentions are collected.
spec fn read_as<N: Number>(
    r: Reading<N::Value>,
    end: int,
    names: Seq<Seq<char>>,
    w: Spelling,
) -> bool {
    &&& r.at == end
    &&& r.names == gathered(names, mentions(w))
    &&& means::<N>(r.term, r.names, w)
}

proof fn task_read<N: Number>(b: Seq<u8>, at: int, names: Seq<Seq<char>>, w: Spelling)
    requires
        sound::<N>(w),
        w is Task,
        stands(b, at, inner_bytes(w) + seq![0x29u8]),
    ensures
        task_v::<N>(b, at, names) matches Ok(r) && read_as::<N>(
            r,
            at + inner_bytes(w).len() + 1,
            names,
            w,
        ),
{
    if let Spelling::Task { name, duration, map } = w {
        let (m, close) = (map_bytes(map), seq![0x29u8]);
        assert(entries_sound::<N>(entries_of(map)));
        assert(inner_bytes(w) + close =~= name + (seq![0x2cu8] + (duration + (m + close))));
        stands_both(b, at, name, seq![0x2cu8] + (duration + (m + close)));
        let p = (at + name.len()) as int;
        stands_both(b, p, seq![0x2cu8], duration + (m + close));
        stands_both(b, p + 1, duration, m + close);
        let r = (p + 1 + duration.len()) as int;
        stands_both(b, r, m, close);
        let e = (r + m.len()) as int;
        assert(b[p + 0] == seq![0x2cu8][0]);
        assert(b[e + 0] == close[0]);
        names_are_read(b, at, name);
        byte_eaten(b, p, 0x2c);
        if map is Some {
            assert(m[0] == 0x2cu8);
            assert(b[r + 0] == m[0]);
        }
        numerals_are_read::<N>(b, p + 1, duration);
        map_read::<N>(b, r, letters(name), names, map);
        byte_eaten(b, e, 0x29);
    }
}

// ---------------------------------------------------------------------------
// processes
// ---------------------------------------------------------------------------

proof fn opens(w: Spelling)
    ensures
        region_bytes(w).len() >= 2,
        region_bytes(w)[0] == 0x28,
{
}

proof fn op_opens<N: Number>(w: Spelling)
    requires
        sound::<N>(w),
        !(w is Task),
    ensures
        inner_bytes(w).len() >= 2,
        inner_bytes(w)[0] == 0x28,
    decreases w,
{
    if let Spelling::Op { mark, chained, low, high } = w {
        assert(region_bytes(*high).len() >= 2);
        if chained {
            op_opens::<N>(*low);
            assert(inner_bytes(w)[0] == inner_bytes(*low)[0]);
        } else {
            assert(inner_bytes(w)[0] == region_bytes(*low)[0]);
        }
    } else if let Spelling::Nested { inner } = w {
        assert(inner_bytes(w) == region_bytes(*inner));
        opens(*inner);
    }
}

proof fn region_read<N: Number>(b: Seq<u8>, at: int, names: Seq<Seq<char>>, w: Spelling)
    requires
        sound::<N>(w),
        stands(b, at, region_bytes(w)),
    ensures
        region_v::<N>(b, at, names) matches Ok(r) && read_as::<N>(
            r,
            (at + region_bytes(w).len()) as int,
            names,
            w,
        ),
    decreases w, 2nat,
{
    let inner = inner_bytes(w);
    let close = seq![0x29u8];
    assert(region_bytes(w) =~= seq![0x28u8] + (inner + close));
    stands_both(b, at, seq![0x28u8], inner + close);
    stands_both(b, at + 1, inner, close);
    let e = (at + 1 + inner.len()) as int;
    assert(b[at + 0] == seq![0x28u8][0]);
    assert(b[e + 0] == close[0]);
    byte_eaten(b, at, 0x28);
    match w {
        Spelling::Task { name, duration, map } => {
            assert(is_name(name));
            assert(inner[0] == name[0]);
            assert(b[at + 1 + 0] == inner[0]);
            assert(name_byte(name[0]));
            not_skipped(b, at + 1);
            task_read::<N>(b, at + 1, names, w);
        },
        _ => {
            op_opens::<N>(w);
            assert(b[at + 1 + 0] == inner[0]);
            not_skipped(b, at + 1);
            inner_read::<N>(b, at + 1, names, w, true);
            byte_eaten(b, e, 0x29);
        },
    }
}

/// Two terms put together.
proof fn put_together<N: Number>(
    w: Spelling,
    names: Seq<Seq<char>>,
    prob: N::Value,
    a: Reading<N::Value>,
    c: Reading<N::Value>,
)
    requires
        w matches Spelling::Op { mark, chained, low, high } && {
            &&& a.names == gathered(names, mentions(*low))
            &&& means::<N>(a.term, a.names, *low)
            &&& c.names == gathered(a.names, mentions(*high))
            &&& means::<N>(c.term, c.names, *high)
            &&& prob == (match mark {
                Mark::Draw { chance } => denoted::<N>(chance),
                _ => N::zero_v(),
            })
        },
    ensures
        read_as::<N>(composed(mark_kind(w->mark), prob, a, c), c.at, names, w),
{
    if let Spelling::Op { mark, chained, low, high } = w {
        gathered_on(names, mentions(*low), mentions(*high));
        gathered_keeps(a.names, mentions(*high));
        means_kept::<N>(a.term, a.names, c.names, *low);
    }
}

/// Commas: what was read so far goes on as a chain.
proof fn chain_read<N: Number>(
    b: Seq<u8>,
    at: int,
    names: Seq<Seq<char>>,
    w: Spelling,
    inside: bool,
) -> (r: Reading<N::Value>)
    requires
        sound::<N>(w),
        w matches Spelling::Op { mark, .. } && mark is Comma,
        stands(b, at, inner_bytes(w)),
    ensures
        process_v::<N>(b, at, names, inside) == chain_v::<N>(b, r),
        read_as::<N>(r, (at + inner_bytes(w).len()) as int, names, w),
    decreases w, 0nat,
{
    let (mark, chained, low, high) = match w {
        Spelling::Op { mark, chained, low, high } => (mark, chained, *low, *high),
        _ => arbitrary(),
    };
    let head = if chained {
        inner_bytes(low)
    } else {
        region_bytes(low)
    };
    let tail = region_bytes(high);
    assert(inner_bytes(w) =~= head + (seq![0x2cu8] + tail));
    stands_both(b, at, head, seq![0x2cu8] + tail);
    let p = (at + head.len()) as int;
    stands_both(b, p, seq![0x2cu8], tail);
    assert(b[p + 0] == seq![0x2cu8][0]);
    not_skipped(b, p);
    opens(high);
    let a = if chained {
        chain_read::<N>(b, at, names, low, inside)
    } else {
        opens(low);
        region_read::<N>(b, at, names, low);
        region_v::<N>(b, at, names)->Ok_0
    };
    assert(process_v::<N>(b, at, names, inside) == chain_v::<N>(b, a));
    region_read::<N>(b, p + 1, a.names, high);
    let c = region_v::<N>(b, p + 1, a.names)->Ok_0;
    put_together::<N>(w, names, N::zero_v(), a, c);
    composed(Kind::Sequence, N::zero_v(), a, c)
}

proof fn operator_read<N: Number>(b: Seq<u8>, s: int, m: Mark, next: Seq<u8>)
    requires
        !(m is Comma),
        m matches Mark::Draw { chance } ==> {
            &&& is_numeral::<N>(chance)
            &&& N::lt_v(N::zero_v(), denoted::<N>(chance))
            &&& N::lt_v(denoted::<N>(chance), N::one_v())
        },
        stands(b, s, mark_bytes(m) + next),
        next.len() > 0,
        next[0] == 0x28,
    ensures
        operator_v::<N>(b, s) == Ok::<Option<(Kind, N::Value, int)>, Seq<char>>(
            Some(
                (
                    mark_kind(m),
                    (match m {
                        Mark::Draw { chance } => denoted::<N>(chance),
                        _ => N::zero_v(),
                    }),
                    (s + mark_bytes(m).len()) as int,
                ),
            ),
        ),
        !sees(b, s, 0x2c),
        skip_v(b, s, false) == s,
{
    let w = mark_bytes(m);
    stands_both(b, s, w, next);
    assert(b[s + w.len() + 0] == next[0]);
    assert(b[s + 0] == w[0]);
    match m {
        Mark::Draw { chance } => {
            assert(w =~= seq![0x5eu8, 0x5bu8] + (chance + seq![0x5du8]));
            stands_both(b, s, seq![0x5eu8, 0x5bu8], chance + seq![0x5du8]);
            stands_both(b, s + 2, chance, seq![0x5du8]);
            assert(b[s + 1] == seq![0x5eu8, 0x5bu8][1]);
            let e = (s + 2 + chance.len()) as int;
            assert(b[e + 0] == seq![0x5du8][0]);
            numerals_are_read::<N>(b, s + 2, chance);
            byte_eaten(b, e, 0x5d);
        },
        Mark::Choose => {
            assert(b[s + 1] == 0x28);
        },
        _ => {
            assert(b[s + 1] == w[1]);
        },
    }
    not_skipped(b, s);
}

proof fn inner_read<N: Number>(
    b: Seq<u8>,
    at: int,
    names: Seq<Seq<char>>,
    w: Spelling,
    inside: bool,
)
    requires
        sound::<N>(w),
        !(w is Task),
        stands(b, at, inner_bytes(w)),
        (!inside && at + inner_bytes(w).len() == b.len()) || (at + inner_bytes(w).len() < b.len()
            && b[(at + inner_bytes(w).len()) as int] == 0x29),
    ensures
        process_v::<N>(b, at, names, inside) matches Ok(r) && read_as::<N>(
            r,
            (at + inner_bytes(w).len()) as int,
            names,
            w,
        ),
    decreases w, 1nat,
{
    let (mark, chained, low, high) = match w {
        Spelling::Op { mark, chained, low, high } => (mark, chained, *low, *high),
        _ => arbitrary(),
    };
    let e = (at + inner_bytes(w).len()) as int;
    if let Spelling::Nested { inner } = w {
        opens(*inner);
        region_read::<N>(b, at, names, *inner);
        not_skipped(b, e);
    } else if mark is Comma {
        let r = chain_read::<N>(b, at, names, w, inside);
        not_skipped(b, e);
        assert(chain_v::<N>(b, r) == Ok::<Reading<N::Value>, Seq<char>>(r));
    } else {
        let (head, m, tail) = (region_bytes(low), mark_bytes(mark), region_bytes(high));
        assert(inner_bytes(w) =~= head + (m + tail));
        stands_both(b, at, head, m + tail);
        let s = (at + head.len()) as int;
        stands_both(b, s, m, tail);
        opens(low);
        opens(high);
        region_read::<N>(b, at, names, low);
        let a = region_v::<N>(b, at, names)->Ok_0;
        operator_read::<N>(b, s, mark, tail);
        let p = (s + m.len()) as int;
        region_read::<N>(b, p, a.names, high);
        let c = region_v::<N>(b, p, a.names)->Ok_0;
        let prob = match mark {
            Mark::Draw { chance } => denoted::<N>(chance),
            _ => N::zero_v(),
        };
        put_together::<N>(w, names, prob, a, c);
    }
}

/// A process is read as it is spelled, with the outermost parentheses or without
/// them: every task with its name, its duration and its impacts, every mark with
/// its kind and its probability, commas from the left, and the names of the
/// impacts in the order of their first appearance.
pub proof fn spellings_are_read<N: Number>(w: Spelling)
    requires
        sound::<N>(w),
        mentions(w).len() > 0,
    ensures
        process_of::<N>(region_bytes(w)) matches Ok(r) && means::<N>(r.term, r.names, w) && r.names
            == gathered(Seq::empty(), mentions(w)),
        !(w is Task) ==> (process_of::<N>(inner_bytes(w)) matches Ok(r) && means::<N>(r.term, r.names, w)
            && r.names == gathered(Seq::empty(), mentions(w))),
{
    let none = Seq::<Seq<char>>::empty();
    some_gathered(none, mentions(w));
    let b = region_bytes(w);
    stands_all(b);
    region_read::<N>(b, 0, none, w);
    not_skipped(b, b.len() as int);
    if !(w is Task) {
        let c = inner_bytes(w);
        stands_all(c);
        inner_read::<N>(c, 0, none, w, false);
        not_skipped(c, c.len() as int);
    }
}

proof fn some_gathered(names: Seq<Seq<char>>, said: Seq<Seq<char>>)
    requires
        said.len() > 0,
    ensures
        gathered(names, said).len() > 0,
{
}

// ---------------------------------------------------------------------------
// nothing else is read
// ---------------------------------------------------------------------------

/// Neither a blank nor a comment anywhere.
pub open spec fn bare(b: Seq<u8>) -> bool {
    forall|i: int|
        0 <= i < b.len() ==> {
            let c = (#[trigger] b[i]) as char;
            c != ' ' && c != '\t' && c != '\n' && c != '\u{c}' && c != '\r' && c != '#'
        }
}

/// No literal is empty.
pub open spec fn no_empty_numeral<N: Number>() -> bool {
    N::read_v(Seq::empty()) is None
}

proof fn bare_stays(b: Seq<u8>, at: int)
    requires
        bare(b),
        0 <= at <= b.len(),
    ensures
        skip_v(b, at, false) == at,
{
    if at < b.len() {
        let c = b[at] as char;
    }
    not_skipped(b, at);
}

proof fn gathered_distinct(names: Seq<Seq<char>>, said: Seq<Seq<char>>)
    requires
        names.no_duplicates(),
    ensures
        gathered(names, said).no_duplicates(),
    decreases said.len(),
{
    if said.len() > 0 {
        gathered_distinct(names, said.drop_last());
    }
}

proof fn numeral_run(b: Seq<u8>, at: int)
    requires
        0 <= at <= b.len(),
    ensures
        at <= number_end(b, at) <= b.len(),
        forall|i: int| at <= i < number_end(b, at) ==> #[trigger] in_number(b, i),
    decreases b.len() - at,
{
    if at < b.len() && in_number(b, at) {
        numeral_run(b, at + 1);
    }
}

proof fn numeral_taken<N: Number>(b: Seq<u8>, at: int)
    requires
        bare(b),
        no_empty_numeral::<N>(),
        1 <= at <= b.len(),
        b[at - 1] != 0x65,
        b[at - 1] != 0x45,
        number_v::<N>(b, at) is Ok,
    ensures
        ({
            let (v, e) = number_v::<N>(b, at)->Ok_0;
            let w = b.subrange(at, e);
            &&& at < e <= b.len()
            &&& is_numeral::<N>(w)
            &&& v == denoted::<N>(w)
        }),
{
    bare_stays(b, at);
    numeral_run(b, at);
    let e = number_end(b, at);
    let w = b.subrange(at, e);
    assert(chars_v(b, at, e) =~= letters(w));
    if e == at {
        assert(letters(w) =~= Seq::<char>::empty());
    }
    assert forall|i: int| 0 <= i < w.len() implies #[trigger] numeral_byte(w, i) by {
        assert(in_number(b, at + i));
        if i > 0 {
            assert(w[i - 1] == b[at + i - 1]);
        }
    }
}

proof fn impacts_spelled<N: Number>(
    b: Seq<u8>,
    at: int,
    task: Seq<char>,
    names: Seq<Seq<char>>,
    impact: Seq<(nat, N::Value)>,
    es: Seq<(Seq<u8>, Seq<u8>)>,
) -> (all: Seq<(Seq<u8>, Seq<u8>)>)
    requires
        bare(b),
        no_empty_numeral::<N>(),
        0 <= at <= b.len(),
        names.no_duplicates(),
        entries_sound::<N>(es),
        impacts_mean::<N>(impact, names, es, es.len() as int),
        impacts_v::<N>(b, at, task, names, impact) is Ok,
    ensures
        ({
            let m = impacts_v::<N>(b, at, task, names, impact)->Ok_0;
            let k = es.len() as int;
            &&& entries_sound::<N>(all)
            &&& k < all.len()
            &&& all.take(k) == es
            &&& at < m.at <= b.len()
            &&& b.subrange(at, m.at) == entry_bytes(all, k)
            &&& m.names == gathered(names, entry_names(all).skip(k))
            &&& impacts_mean::<N>(m.impact, m.names, all, all.len() as int)
        }),
    decreases b.len() - at,
{
    let k = es.len() as int;
    let m = impacts_v::<N>(b, at, task, names, impact)->Ok_0;
    bare_stays(b, at);
    names_are_runs(b, at);
    let (n, p) = name_v(b, at)->Ok_0;
    bare_stays(b, p);
    let q = p + 1;
    assert(eat_v(b, p, 0x3a) == Ok::<int, Seq<char>>(q));
    numeral_taken::<N>(b, q);
    let (v, r) = number_v::<N>(b, q)->Ok_0;
    bare_stays(b, r);
    let (nb, vb) = (b.subrange(at, p), b.subrange(q, r));
    let i = index_of(names, n);
    let known = with_name(names, n);
    let more = impact.push((i as nat, v));
    index_found(names, n);
    name_gathered(names, n);
    gathered_keeps(names, seq![n]);
    gathered_distinct(names, seq![n]);
    let next = es.push((nb, vb));
    assert(!named(impact, i));
    assert(entries_sound::<N>(next)) by {
        assert forall|j: int| 0 <= j < next.len() implies {
            &&& is_name((#[trigger] next[j]).0)
            &&& is_numeral::<N>(next[j].1)
            &&& !N::le_v(denoted::<N>(next[j].1), N::zero_v())
        } by {
            if j < k {
                assert(next[j] == es[j]);
            }
        }
        assert forall|j: int, l: int| 0 <= j < l < next.len() implies letters((#[trigger] next[j]).0)
            != letters((#[trigger] next[l]).0) by {
            if l < k {
                assert(next[j] == es[j] && next[l] == es[l]);
            } else {
                assert(next[j] == es[j]);
                assert(names[impact[j].0 as int] == letters(es[j].0));
                if letters(es[j].0) == n {
                    assert(names.contains(n));
                    assert(impact[j].0 == i);
                }
            }
        }
    }
    assert(impacts_mean::<N>(more, known, next, k + 1)) by {
        assert forall|j: int| 0 <= j < k + 1 implies {
            &&& (#[trigger] more[j]).0 < known.len()
            &&& known[more[j].0 as int] == letters(next[j].0)
            &&& more[j].1 == denoted::<N>(next[j].1)
        } by {
            if j < k {
                assert(more[j] == impact[j]);
                assert(next[j] == es[j]);
                assert(known[impact[j].0 as int] == names[impact[j].0 as int]);
            }
        }
    }
    if sees(b, r, 0x2c) {
        let all = impacts_spelled::<N>(b, r + 1, task, known, more, next);
        let said = entry_names(all);
        assert(all.take(k + 1)[k] == all[k]);
        assert(all[k] == (nb, vb));
        assert(all.take(k) =~= es) by {
            assert(all.take(k + 1).take(k) =~= all.take(k));
            assert(next.take(k) =~= es);
        }
        gathered_on(names, seq![n], said.skip(k + 1));
        assert(seq![n] + said.skip(k + 1) =~= said.skip(k));
        let tail = entry_bytes(all, k + 1);
        assert(b.subrange(at, m.at) =~= nb + seq![0x3au8] + vb + (seq![0x2cu8] + tail)) by {
            assert(b.subrange(r + 1, m.at) == tail);
            assert(b.subrange(at, m.at) =~= nb + seq![0x3au8] + vb + (seq![0x2cu8] + b.subrange(
                r + 1,
                m.at,
            )));
        }
        all
    } else {
        let said = entry_names(next);
        assert(said.skip(k) =~= seq![n]);
        assert(next.take(k) =~= es);
        assert(b.subrange(at, r) =~= nb + seq![0x3au8] + vb + Seq::<u8>::empty());
        next
    }
}

proof fn map_spelled<N: Number>(b: Seq<u8>, at: int, task: Seq<char>, names: Seq<Seq<char>>) -> (map:
    Option<Seq<(Seq<u8>, Seq<u8>)>>)
    requires
        bare(b),
        no_empty_numeral::<N>(),
        0 <= at <= b.len(),
        names.no_duplicates(),
        map_v::<N>(b, at, task, names) is Ok,
    ensures
        ({
            let m = map_v::<N>(b, at, task, names)->Ok_0;
            let es = entries_of(map);
            &&& entries_sound::<N>(es)
            &&& at <= m.at <= b.len()
            &&& b.subrange(at, m.at) == map_bytes(map)
            &&& m.names == gathered(names, entry_names(es))
            &&& impacts_mean::<N>(m.impact, m.names, es, es.len() as int)
        }),
{
    let m = map_v::<N>(b, at, task, names)->Ok_0;
    let none = Seq::<(Seq<u8>, Seq<u8>)>::empty();
    bare_stays(b, at);
    assert(entry_names(none) =~= Seq::<Seq<char>>::empty());
    if !sees(b, at, 0x2c) {
        assert(b.subrange(at, at) =~= Seq::<u8>::empty());
        None
    } else {
        bare_stays(b, at + 1);
        let p = at + 2;
        assert(eat_v(b, at + 1, 0x7b) == Ok::<int, Seq<char>>(p));
        bare_stays(b, p);
        if sees(b, p, 0x7d) {
            assert(b.subrange(at, p + 1) =~= seq![0x2cu8, 0x7bu8] + entry_bytes(none, 0) + seq![
                0x7du8,
            ]);
            Some(none)
        } else {
            let es = impacts_spelled::<N>(b, p, task, names, Seq::empty(), none);
            let e = impacts_v::<N>(b, p, task, names, Seq::empty())->Ok_0.at;
            bare_stays(b, e);
            assert(entry_names(es).skip(0) =~= entry_names(es));
            assert(b.subrange(p, e) == entry_bytes(es, 0));
            assert(b.subrange(at, e + 1) =~= seq![0x2cu8, 0x7bu8] + b.subrange(p, e) + seq![0x7du8]);
            Some(es)
        }
    }
}

proof fn task_spelled<N: Number>(b: Seq<u8>, at: int, names: Seq<Seq<char>>) -> (w: Spelling)
    requires
        bare(b),
        no_empty_numeral::<N>(),
        0 <= at <= b.len(),
        names.no_duplicates(),
        task_v::<N>(b, at, names) is Ok,
    ensures
        ({
            let r = task_v::<N>(b, at, names)->Ok_0;
            &&& w is Task
            &&& sound::<N>(w)
            &&& at < r.at <= b.len()
            &&& b.subrange(at, r.at) == inner_bytes(w) + seq![0x29u8]
            &&& read_as::<N>(r, r.at, names, w)
        }),
{
    bare_stays(b, at);
    names_are_runs(b, at);
    let (n, p) = name_v(b, at)->Ok_0;
    bare_stays(b, p);
    let q = p + 1;
    assert(eat_v(b, p, 0x2c) == Ok::<int, Seq<char>>(q));
    numeral_taken::<N>(b, q);
    let (d, r) = number_v::<N>(b, q)->Ok_0;
    let map = map_spelled::<N>(b, r, n, names);
    let e = map_v::<N>(b, r, n, names)->Ok_0.at;
    bare_stays(b, e);
    let (name, duration) = (b.subrange(at, p), b.subrange(q, r));
    let w = Spelling::Task { name, duration, map };
    assert(b.subrange(at, e + 1) =~= name + seq![0x2cu8] + duration + b.subrange(r, e) + seq![0x29u8]);
    assert(entries_sound::<N>(entries_of(map)));
    w
}

proof fn operator_spelled<N: Number>(b: Seq<u8>, s: int) -> (m: Mark)
    requires
        bare(b),
        no_empty_numeral::<N>(),
        0 <= s <= b.len(),
        operator_v::<N>(b, s) matches Ok(Some(_)),
    ensures
        ({
            let (kind, prob, p) = operator_v::<N>(b, s)->Ok_0->0;
            &&& !(m is Comma)
            &&& s < p <= b.len()
            &&& b.subrange(s, p) == mark_bytes(m)
            &&& kind == mark_kind(m)
            &&& match m {
                Mark::Draw { chance } => {
                    &&& is_numeral::<N>(chance)
                    &&& prob == denoted::<N>(chance)
                    &&& N::lt_v(N::zero_v(), prob)
                    &&& N::lt_v(prob, N::one_v())
                },
                _ => prob == N::zero_v(),
            }
        }),
{
    if sees(b, s, 0x2d) && sees(b, s + 1, 0x3e) {
        assert(b.subrange(s, s + 2) =~= seq![0x2du8, 0x3eu8]);
        Mark::Arrow
    } else if sees(b, s, 0x7c) && sees(b, s + 1, 0x7c) {
        assert(b.subrange(s, s + 2) =~= seq![0x7cu8, 0x7cu8]);
        Mark::Bars
    } else if sees(b, s, 0x5e) && sees(b, s + 1, 0x5b) {
        numeral_taken::<N>(b, s + 2);
        let (v, q) = number_v::<N>(b, s + 2)->Ok_0;
        bare_stays(b, q);
        let chance = b.subrange(s + 2, q);
        assert(b.subrange(s, q + 1) =~= seq![0x5eu8, 0x5bu8] + chance + seq![0x5du8]);
        Mark::Draw { chance }
    } else {
        assert(b.subrange(s, s + 1) =~= seq![0x5eu8]);
        Mark::Choose
    }
}

proof fn region_spelled<N: Number>(b: Seq<u8>, at: int, names: Seq<Seq<char>>) -> (w: Spelling)
    requires
        bare(b),
        no_empty_numeral::<N>(),
        0 <= at <= b.len(),
        names.no_duplicates(),
        region_v::<N>(b, at, names) is Ok,
    ensures
        ({
            let r = region_v::<N>(b, at, names)->Ok_0;
            &&& sound::<N>(w)
            &&& at < r.at <= b.len()
            &&& b.subrange(at, r.at) == region_bytes(w)
            &&& read_as::<N>(r, r.at, names, w)
        }),
    decreases b.len() - at, 0nat,
{
    bare_stays(b, at);
    let p = at + 1;
    assert(eat_v(b, at, 0x28) == Ok::<int, Seq<char>>(p));
    bare_stays(b, p);
    if sees(b, p, 0x28) {
        let w = process_spelled::<N>(b, p, names, true);
        let e = process_v::<N>(b, p, names, true)->Ok_0.at;
        bare_stays(b, e);
        assert(b.subrange(at, e + 1) =~= seq![0x28u8] + b.subrange(p, e) + seq![0x29u8]);
        w
    } else {
        let w = task_spelled::<N>(b, p, names);
        let e = task_v::<N>(b, p, names)->Ok_0.at;
        assert(b.subrange(at, e) =~= seq![0x28u8] + b.subrange(p, e));
        assert(seq![0x28u8] + (inner_bytes(w) + seq![0x29u8]) =~= region_bytes(w));
        w
    }
}

proof fn process_spelled<N: Number>(b: Seq<u8>, at: int, names: Seq<Seq<char>>, inside: bool) -> (w:
    Spelling)
    requires
        bare(b),
        no_empty_numeral::<N>(),
        0 <= at <= b.len(),
        names.no_duplicates(),
        process_v::<N>(b, at, names, inside) is Ok,
    ensures
        ({
            let r = process_v::<N>(b, at, names, inside)->Ok_0;
            &&& !(w is Task)
            &&& sound::<N>(w)
            &&& at < r.at <= b.len()
            &&& b.subrange(at, r.at) == inner_bytes(w)
            &&& read_as::<N>(r, r.at, names, w)
        }),
    decreases b.len() - at, 1nat,
{
    let low = region_v::<N>(b, at, names)->Ok_0;
    let x = region_spelled::<N>(b, at, names);
    let s = low.at;
    bare_stays(b, s);
    if sees(b, s, 0x2c) {
        chain_spelled::<N>(b, at, names, low, x, false)
    } else if operator_v::<N>(b, s)->Ok_0 is Some {
        let m = operator_spelled::<N>(b, s);
        let (kind, prob, p) = operator_v::<N>(b, s)->Ok_0->0;
        gathered_distinct(names, mentions(x));
        let y = region_spelled::<N>(b, p, low.names);
        let high = region_v::<N>(b, p, low.names)->Ok_0;
        let w = Spelling::Op { mark: m, chained: false, low: Box::new(x), high: Box::new(y) };
        put_together::<N>(w, names, prob, low, high);
        assert(b.subrange(at, high.at) =~= b.subrange(at, s) + b.subrange(s, p) + b.subrange(
            p,
            high.at,
        ));
        w
    } else {
        Spelling::Nested { inner: Box::new(x) }
    }
}

proof fn chain_spelled<N: Number>(
    b: Seq<u8>,
    at: int,
    names: Seq<Seq<char>>,
    low: Reading<N::Value>,
    x: Spelling,
    begun: bool,
) -> (w: Spelling)
    requires
        bare(b),
        no_empty_numeral::<N>(),
        0 <= at < low.at <= b.len(),
        names.no_duplicates(),
        sound::<N>(x),
        read_as::<N>(low, low.at, names, x),
        begun ==> (x matches Spelling::Op { mark, .. } && mark is Comma) && b.subrange(at, low.at)
            == inner_bytes(x),
        !begun ==> b.subrange(at, low.at) == region_bytes(x) && sees(b, low.at, 0x2c),
        chain_v::<N>(b, low) is Ok,
    ensures
        ({
            let r = chain_v::<N>(b, low)->Ok_0;
            &&& !(w is Task)
            &&& sound::<N>(w)
            &&& at < r.at <= b.len()
            &&& b.subrange(at, r.at) == inner_bytes(w)
            &&& read_as::<N>(r, r.at, names, w)
        }),
    decreases b.len() - low.at, 1nat,
{
    let s = low.at;
    bare_stays(b, s);
    if !sees(b, s, 0x2c) {
        x
    } else {
        gathered_distinct(names, mentions(x));
        let y = region_spelled::<N>(b, s + 1, low.names);
        let high = region_v::<N>(b, s + 1, low.names)->Ok_0;
        let w = Spelling::Op {
            mark: Mark::Comma,
            chained: begun,
            low: Box::new(x),
            high: Box::new(y),
        };
        put_together::<N>(w, names, N::zero_v(), low, high);
        assert(b.subrange(at, high.at) =~= b.subrange(at, s) + seq![0x2cu8] + b.subrange(
            s + 1,
            high.at,
        ));
        chain_spelled::<N>(
            b,
            at,
            names,
            composed(Kind::Sequence, N::zero_v(), low, high),
            w,
            true,
        )
    }
}

/// Nothing but the spelling of a process is read: a text without blanks that is
/// taken is, byte for byte, a sound spelling, and what is read of it is what the
/// spelling means.
pub proof fn only_spellings_are_read<N: Number>(b: Seq<u8>) -> (w: Spelling)
    requires
        bare(b),
        no_empty_numeral::<N>(),
        process_of::<N>(b) is Ok,
    ensures
        ({
            let r = process_of::<N>(b)->Ok_0;
            &&& !(w is Task)
            &&& sound::<N>(w)
            &&& mentions(w).len() > 0
            &&& b == inner_bytes(w)
            &&& means::<N>(r.term, r.names, w)
            &&& r.names == gathered(Seq::empty(), mentions(w))
        }),
{
    let none = Seq::<Seq<char>>::empty();
    let w = process_spelled::<N>(b, 0, none, false);
    let r = process_v::<N>(b, 0, none, false)->Ok_0;
    bare_stays(b, r.at);
    assert(b.subrange(0, b.len() as int) =~= b);
    w
}

} // verus!
